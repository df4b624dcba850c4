use darpi::router::{HttpMethod, RouteEntry, RouteError, RouteTable};
use darpi::template::PathTemplate;

fn entry(route: &str, method: HttpMethod, handler: u64) -> RouteEntry {
    RouteEntry {
        template: PathTemplate::parse(route).unwrap(),
        method,
        handler,
    }
}

fn chars(s: &str) -> Vec<char> {
    s.chars().collect()
}

#[test]
fn build_refuses_an_empty_table() {
    assert!(matches!(
        RouteTable::build(Vec::new()),
        Err(RouteError::NoRoutesRegistered)
    ));
}

#[test]
fn resolve_is_deterministic() {
    let table = RouteTable::build(vec![
        entry("/a/{x}", HttpMethod::Get, 1),
        entry("/a/b", HttpMethod::Get, 2),
    ])
    .unwrap();
    let first = table.resolve(HttpMethod::Get, "/a/b");
    let second = table.resolve(HttpMethod::Get, "/a/b");
    assert_eq!(first.as_ref().map(|(i, _)| *i), second.as_ref().map(|(i, _)| *i));
    let miss1 = table.resolve(HttpMethod::Get, "/nowhere");
    let miss2 = table.resolve(HttpMethod::Get, "/nowhere");
    assert!(miss1.is_none() && miss2.is_none());
}

#[test]
fn static_template_wins_over_parametric() {
    // declared parametric first on purpose: the static entry must still
    // resolve for the literal path.
    let table = RouteTable::build(vec![
        entry("/a/{x}", HttpMethod::Get, 1),
        entry("/a/b", HttpMethod::Get, 2),
    ])
    .unwrap();
    let (i, m) = table.resolve(HttpMethod::Get, "/a/b").unwrap();
    assert_eq!(table.handler_at(i), 2);
    assert_eq!(m.len(), 0);
    // any other literal still reaches the parametric entry
    let (j, m2) = table.resolve(HttpMethod::Get, "/a/zzz").unwrap();
    assert_eq!(table.handler_at(j), 1);
    assert_eq!(m2.value_of("x"), Some(&chars("zzz")));
}

#[test]
fn method_mismatch_does_not_stop_the_scan() {
    let table = RouteTable::build(vec![
        entry("/a/b", HttpMethod::Post, 1),
        entry("/a/{x}", HttpMethod::Get, 2),
    ])
    .unwrap();
    // the static POST entry matches the path but not the method; the
    // scan goes on and the parametric GET entry answers.
    let (i, m) = table.resolve(HttpMethod::Get, "/a/b").unwrap();
    assert_eq!(table.handler_at(i), 2);
    assert_eq!(m.value_of("x"), Some(&chars("b")));
}

#[test]
fn no_match_yields_none() {
    let table = RouteTable::build(vec![entry("/a/b", HttpMethod::Get, 1)]).unwrap();
    assert!(table.resolve(HttpMethod::Get, "/c").is_none());
    assert!(table.resolve(HttpMethod::Post, "/a/b").is_none());
}

#[test]
fn parametric_entries_probe_larger_keys_first() {
    // both parametric for the same method; the longer template has the
    // larger `count + offsets` key and is probed first.
    let table = RouteTable::build(vec![
        entry("/p/{x}", HttpMethod::Get, 1),
        entry("/p/{x}/{y}", HttpMethod::Get, 2),
    ])
    .unwrap();
    assert_eq!(table.handler_at(0), 2);
    assert_eq!(table.handler_at(1), 1);
    let (i, _) = table.resolve(HttpMethod::Get, "/p/7").unwrap();
    assert_eq!(table.handler_at(i), 1);
    let (j, _) = table.resolve(HttpMethod::Get, "/p/7/8").unwrap();
    assert_eq!(table.handler_at(j), 2);
}
