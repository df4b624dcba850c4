use darpi::app::App;
use darpi::pipeline::{Action, Dispatch, DispatchState, ErrorResponse, HttpResponse};
use darpi::router::{HttpMethod, RouteEntry};
use darpi::scheduler::{CrossRef, MiddlewareSpec, Phase};
use darpi::template::PathTemplate;

fn entry(route: &str, method: HttpMethod, handler: u64) -> RouteEntry {
    RouteEntry {
        template: PathTemplate::parse(route).unwrap(),
        method,
        handler,
    }
}

fn mw(phase: Phase, position: u16, refs: Vec<CrossRef>) -> MiddlewareSpec {
    MiddlewareSpec {
        phase,
        declared_position: position,
        cross_refs: refs,
    }
}

fn chars(s: &str) -> Vec<char> {
    s.chars().collect()
}

fn ok_response(status: u16, body: &str) -> HttpResponse {
    HttpResponse {
        status,
        body: body.as_bytes().to_vec(),
    }
}

#[test]
fn static_route_dispatches_to_its_handler() {
    // table: GET /hello (static), GET /hello/{name} (parametric);
    // request GET /hello reaches the static handler and answers 200.
    let mut app = App::new();
    app.route(entry("/hello", HttpMethod::Get, 1));
    app.route(entry("/hello/{name}", HttpMethod::Get, 2));
    let built = app.build().unwrap();

    let mut d: Dispatch<u64> = Dispatch::begin(&built.table, &built.plan, HttpMethod::Get, "/hello");
    assert_eq!(d.state(), DispatchState::Handling);
    assert_eq!(d.next_action(), Action::CallHandler(1));
    d.handler_returned(Ok(ok_response(200, "hello")));
    assert_eq!(d.state(), DispatchState::Done);
    let resp = d.into_response();
    assert_eq!(resp.status, 200);
    assert_eq!(resp.body, b"hello".to_vec());
}

#[test]
fn parametric_route_hands_the_binding_to_the_handler() {
    // table: GET /items/{id}; GET /items/99 binds id = "99";
    // GET /items (one segment short) answers 404 with an empty body.
    let mut app = App::new();
    app.route(entry("/items/{id}", HttpMethod::Get, 9));
    let built = app.build().unwrap();

    let d: Dispatch<u64> = Dispatch::begin(&built.table, &built.plan, HttpMethod::Get, "/items/99");
    assert_eq!(d.state(), DispatchState::Handling);
    assert_eq!(d.params().value_of("id"), Some(&chars("99")));

    let miss: Dispatch<u64> = Dispatch::begin(&built.table, &built.plan, HttpMethod::Get, "/items");
    assert_eq!(miss.state(), DispatchState::ShortCircuited);
    assert_eq!(miss.next_action(), Action::Respond);
    let resp = miss.into_response();
    assert_eq!(resp.status, 404);
    assert!(resp.body.is_empty());
}

#[test]
fn handler_receives_a_requested_middleware_output() {
    // one request middleware at index 0 returns Ok(42); the handler asks
    // for slot 0 and receives exactly 42.
    let mut app = App::new();
    app.route(entry("/sized", HttpMethod::Post, 5));
    app.middleware(mw(Phase::Request, 0, vec![]));
    let built = app.build().unwrap();

    let mut d: Dispatch<u64> = Dispatch::begin(&built.table, &built.plan, HttpMethod::Post, "/sized");
    assert_eq!(d.state(), DispatchState::RunningRequestMiddleware);
    assert_eq!(d.next_action(), Action::CallRequestMiddleware(0));
    d.request_middleware_returned(Ok(42));
    assert_eq!(d.state(), DispatchState::Handling);
    assert_eq!(d.request_slot(0), Some(&42));
    d.handler_returned(Ok(ok_response(200, "42")));
    assert_eq!(d.into_response().status, 200);

    // the same middleware refusing the body: the mapped error response
    // comes back and the handler never runs.
    let mut e: Dispatch<u64> = Dispatch::begin(&built.table, &built.plan, HttpMethod::Post, "/sized");
    assert_eq!(e.next_action(), Action::CallRequestMiddleware(0));
    e.request_middleware_returned(Err(ErrorResponse {
        status: 413,
        message: b"Payload maximum exceeded".to_vec(),
    }));
    assert_eq!(e.state(), DispatchState::ShortCircuited);
    assert_eq!(e.next_action(), Action::Respond);
    let resp = e.into_response();
    assert_eq!(resp.status, 413);
    assert_eq!(resp.body, b"Payload maximum exceeded".to_vec());
}

#[test]
fn failing_middleware_short_circuits_the_pipeline() {
    // the middle one of three request middleware fails: the third and
    // the handler are never asked for, and the response is exactly the
    // error's rendering.
    let mut app = App::new();
    app.route(entry("/guarded", HttpMethod::Get, 3));
    app.middleware(mw(Phase::Request, 0, vec![]));
    app.middleware(mw(Phase::Request, 1, vec![]));
    app.middleware(mw(Phase::Request, 2, vec![]));
    let built = app.build().unwrap();

    let mut d: Dispatch<u64> = Dispatch::begin(&built.table, &built.plan, HttpMethod::Get, "/guarded");
    assert_eq!(d.next_action(), Action::CallRequestMiddleware(0));
    d.request_middleware_returned(Ok(1));
    assert_eq!(d.next_action(), Action::CallRequestMiddleware(1));
    d.request_middleware_returned(Err(ErrorResponse {
        status: 413,
        message: b"payload too large".to_vec(),
    }));
    assert_eq!(d.state(), DispatchState::ShortCircuited);
    assert_eq!(d.next_action(), Action::Respond);
    assert_eq!(d.request_slot(2), None);
    let resp = d.into_response();
    assert_eq!(resp.status, 413);
    assert_eq!(resp.body, b"payload too large".to_vec());
}

#[test]
fn handler_error_skips_response_middleware() {
    // the deliberate asymmetry: a handler failure becomes the response
    // at once and the declared response middleware never runs.
    let mut app = App::new();
    app.route(entry("/oops", HttpMethod::Get, 8));
    app.middleware(mw(Phase::Response, 0, vec![]));
    let built = app.build().unwrap();

    let mut d: Dispatch<u64> = Dispatch::begin(&built.table, &built.plan, HttpMethod::Get, "/oops");
    assert_eq!(d.state(), DispatchState::Handling);
    d.handler_returned(Err(ok_response(500, "boom")));
    assert_eq!(d.state(), DispatchState::Done);
    assert_eq!(d.next_action(), Action::Respond);
    assert_eq!(d.response_slot(0), None);
    let resp = d.into_response();
    assert_eq!(resp.status, 500);
    assert_eq!(resp.body, b"boom".to_vec());
}

#[test]
fn response_middleware_sees_and_replaces_the_response() {
    let mut app = App::new();
    app.route(entry("/wrapped", HttpMethod::Get, 4));
    app.middleware(mw(Phase::Response, 0, vec![]));
    app.middleware(mw(Phase::Response, 1, vec![]));
    let built = app.build().unwrap();

    let mut d: Dispatch<u64> = Dispatch::begin(&built.table, &built.plan, HttpMethod::Get, "/wrapped");
    d.handler_returned(Ok(ok_response(200, "plain")));
    assert_eq!(d.state(), DispatchState::RunningResponseMiddleware);
    // position keys run declared index 1 first (reverse of declaration)
    assert_eq!(d.next_action(), Action::CallResponseMiddleware(1));
    assert_eq!(d.current_response().unwrap().body, b"plain".to_vec());
    d.response_middleware_returned(Ok((7, ok_response(200, "wrapped-once"))));
    assert_eq!(d.next_action(), Action::CallResponseMiddleware(0));
    assert_eq!(d.current_response().unwrap().body, b"wrapped-once".to_vec());
    d.response_middleware_returned(Ok((8, ok_response(200, "wrapped-twice"))));
    assert_eq!(d.state(), DispatchState::Done);
    assert_eq!(d.into_response().body, b"wrapped-twice".to_vec());
}

#[test]
fn response_middleware_error_replaces_the_response() {
    let mut app = App::new();
    app.route(entry("/late", HttpMethod::Get, 4));
    app.middleware(mw(Phase::Response, 0, vec![]));
    app.middleware(mw(Phase::Response, 1, vec![]));
    let built = app.build().unwrap();

    let mut d: Dispatch<u64> = Dispatch::begin(&built.table, &built.plan, HttpMethod::Get, "/late");
    d.handler_returned(Ok(ok_response(200, "fine")));
    d.response_middleware_returned(Err(ErrorResponse {
        status: 502,
        message: b"bad gateway".to_vec(),
    }));
    assert_eq!(d.state(), DispatchState::ShortCircuited);
    assert_eq!(d.next_action(), Action::Respond);
    let resp = d.into_response();
    assert_eq!(resp.status, 502);
    assert_eq!(resp.body, b"bad gateway".to_vec());
}

#[test]
fn concurrent_requests_have_separate_slot_stores() {
    // two machines driven side by side never observe each other's slots.
    let mut app = App::new();
    app.route(entry("/pair", HttpMethod::Get, 6));
    app.middleware(mw(Phase::Request, 0, vec![]));
    let built = app.build().unwrap();

    let mut a: Dispatch<u64> = Dispatch::begin(&built.table, &built.plan, HttpMethod::Get, "/pair");
    let mut b: Dispatch<u64> = Dispatch::begin(&built.table, &built.plan, HttpMethod::Get, "/pair");
    a.request_middleware_returned(Ok(111));
    b.request_middleware_returned(Ok(222));
    assert_eq!(a.request_slot(0), Some(&111));
    assert_eq!(b.request_slot(0), Some(&222));
}
