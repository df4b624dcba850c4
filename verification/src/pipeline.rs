//! The per-request dispatch pipeline, as an explicit state machine. The
//! driver owns the transport and the middleware and handler code; this
//! machine owns every decision: which middleware to call next, where its
//! output goes, when the handler runs, and what response finally leaves.
//!
//! A request is matched when the machine is created; the machine then
//! walks the request chain in plan order, filling one write-once slot
//! per middleware, hands control to the handler, walks the response
//! chain the same way, and is done. Any middleware error short-circuits
//! at once: the error's rendered response becomes the machine's
//! response and nothing further is asked for. A handler error becomes
//! the response too, and skips the response chain entirely.

use vstd::prelude::*;

use crate::router::{spec_resolve, HttpMethod, RouteTable};
use crate::scheduler::{req_feasible, CrossRef, ExecutionPlan};
use crate::template::ParamMap;

verus! {

/// A wire response: status code and body bytes.
pub struct HttpResponse {
    pub status: u16,
    pub body: Vec<u8>,
}

/// Mathematical image of an [`HttpResponse`].
pub struct RespShape {
    pub status: u16,
    pub body: Seq<u8>,
}

impl View for HttpResponse {
    type V = RespShape;

    open spec fn view(&self) -> RespShape {
        RespShape { status: self.status, body: self.body@ }
    }
}

/// The fixed response for a request no route answers.
pub open spec fn spec_not_found() -> RespShape {
    RespShape { status: 404, body: Seq::empty() }
}

/// A recoverable failure, carrying its HTTP status mapping and its
/// rendered message.
pub struct ErrorResponse {
    pub status: u16,
    pub message: Vec<u8>,
}

/// What an error renders to: its status, its message as the body.
pub open spec fn spec_rendered(status: u16, message: Seq<u8>) -> RespShape {
    RespShape { status, body: message }
}

impl ErrorResponse {
    /// Converts the error into the response that replaces the pipeline's
    /// outcome.
    pub fn render(self) -> (r: HttpResponse)
        ensures
            r@ == spec_rendered(self.status, self.message@),
    {
        HttpResponse { status: self.status, body: self.message }
    }
}

/// Where the machine stands. Matching happens when the machine is
/// created, so a live machine is already past it.
#[derive(Clone, Copy, Debug, PartialEq, Eq, Structural)]
pub enum DispatchState {
    RunningRequestMiddleware,
    Handling,
    RunningResponseMiddleware,
    Done,
    ShortCircuited,
}

/// What the driver must do next.
#[derive(Clone, Copy, Debug, PartialEq, Eq, Structural)]
pub enum Action {
    /// Call the request middleware with this chain index and report its
    /// result.
    CallRequestMiddleware(u16),
    /// Call the handler with this identity and report its result.
    CallHandler(u64),
    /// Call the response middleware with this chain index and report its
    /// result.
    CallResponseMiddleware(u16),
    /// The pipeline is finished; take the response.
    Respond,
}

/// Mathematical image of a [`Dispatch`].
pub struct DispatchShape<V> {
    pub state: DispatchState,
    pub route: int,
    pub handler: u64,
    pub params: Seq<(Seq<char>, Seq<char>)>,
    pub req_order: Seq<u16>,
    pub res_order: Seq<u16>,
    pub req_slots: Seq<Option<V>>,
    pub res_slots: Seq<Option<V>>,
    pub pos: int,
    pub response: Option<RespShape>,
}

/// A slot is filled exactly when its owner has run: when its chain index
/// appears among the first `upto` positions of the execution order.
pub open spec fn slots_match<V>(slots: Seq<Option<V>>, order: Seq<u16>, upto: int) -> bool {
    forall|j: int|
        0 <= j < slots.len() ==> ((#[trigger] slots[j]) is Some <==> exists|q: int|
            0 <= q < upto && #[trigger] order[q] == j)
}

/// One request's dispatch machine, generic over the middleware output
/// type.
pub struct Dispatch<V> {
    state: DispatchState,
    route: usize,
    handler: u64,
    params: ParamMap,
    req_order: Vec<u16>,
    res_order: Vec<u16>,
    req_slots: Vec<Option<V>>,
    res_slots: Vec<Option<V>>,
    pos: usize,
    response: Option<HttpResponse>,
}

impl<V> View for Dispatch<V> {
    type V = DispatchShape<V>;

    closed spec fn view(&self) -> DispatchShape<V> {
        DispatchShape {
            state: self.state,
            route: self.route as int,
            handler: self.handler,
            params: self.params@,
            req_order: self.req_order@,
            res_order: self.res_order@,
            req_slots: self.req_slots@,
            res_slots: self.res_slots@,
            pos: self.pos as int,
            response: match self.response {
                Some(ref r) => Some(r@),
                None => None,
            },
        }
    }
}

impl<V> Dispatch<V> {
    /// The machine's bookkeeping stays consistent: slot stores are as
    /// long as their chains, orders index into them, the position is in
    /// range for the running chain, slots are filled exactly for what
    /// has run, and a finished machine holds a response. `begin`
    /// establishes it and every transition keeps it.
    pub closed spec fn wf(&self) -> bool {
        &&& self@.req_slots.len() == self@.req_order.len()
        &&& self@.res_slots.len() == self@.res_order.len()
        &&& forall|p: int|
            0 <= p < self@.req_order.len() ==> #[trigger] self@.req_order[p]
                < self@.req_slots.len()
        &&& forall|p: int|
            0 <= p < self@.res_order.len() ==> #[trigger] self@.res_order[p]
                < self@.res_slots.len()
        &&& match self@.state {
            DispatchState::RunningRequestMiddleware => {
                &&& self@.pos < self@.req_order.len()
                &&& slots_match(self@.req_slots, self@.req_order, self@.pos)
                &&& slots_match(self@.res_slots, self@.res_order, 0)
                &&& self@.response is None
            },
            DispatchState::Handling => {
                &&& slots_match(self@.req_slots, self@.req_order, self@.req_order.len() as int)
                &&& slots_match(self@.res_slots, self@.res_order, 0)
                &&& self@.response is None
            },
            DispatchState::RunningResponseMiddleware => {
                &&& self@.pos < self@.res_order.len()
                &&& slots_match(self@.req_slots, self@.req_order, self@.req_order.len() as int)
                &&& slots_match(self@.res_slots, self@.res_order, self@.pos)
                &&& self@.response is Some
            },
            DispatchState::Done => self@.response is Some,
            DispatchState::ShortCircuited => self@.response is Some,
        }
    }

    /// Current state, for the driving loop.
    pub fn state(&self) -> (s: DispatchState)
        ensures
            s == self@.state,
    {
        self.state
    }

    /// The extracted path parameters of the resolved route.
    pub fn params(&self) -> (p: &ParamMap)
        ensures
            p@ == self@.params,
    {
        &self.params
    }

    /// Reads a request middleware's output slot; `None` while it has not
    /// run (or for an index outside the chain).
    pub fn request_slot(&self, i: u16) -> (r: Option<&V>)
        ensures
            match r {
                Some(v) => (i as int) < self@.req_slots.len() && self@.req_slots[i as int] == Some(
                    *v,
                ),
                None => (i as int) >= self@.req_slots.len() || self@.req_slots[i as int] is None,
            },
    {
        if (i as usize) < self.req_slots.len() {
            match &self.req_slots[i as usize] {
                Some(v) => Some(v),
                None => None,
            }
        } else {
            None
        }
    }

    /// Reads a response middleware's output slot, likewise.
    pub fn response_slot(&self, i: u16) -> (r: Option<&V>)
        ensures
            match r {
                Some(v) => (i as int) < self@.res_slots.len() && self@.res_slots[i as int] == Some(
                    *v,
                ),
                None => (i as int) >= self@.res_slots.len() || self@.res_slots[i as int] is None,
            },
    {
        if (i as usize) < self.res_slots.len() {
            match &self.res_slots[i as usize] {
                Some(v) => Some(v),
                None => None,
            }
        } else {
            None
        }
    }

    /// The response as it stands, for response middleware to inspect.
    pub fn current_response(&self) -> (r: Option<&HttpResponse>)
        ensures
            match r {
                Some(v) => self@.response == Some(v@),
                None => self@.response is None,
            },
    {
        match &self.response {
            Some(v) => Some(v),
            None => None,
        }
    }

    /// What the driver must do next, a pure function of the state.
    pub fn next_action(&self) -> (a: Action)
        requires
            self.wf(),
        ensures
            self@.state == DispatchState::RunningRequestMiddleware ==> a
                == Action::CallRequestMiddleware(self@.req_order[self@.pos]),
            self@.state == DispatchState::Handling ==> a == Action::CallHandler(self@.handler),
            self@.state == DispatchState::RunningResponseMiddleware ==> a
                == Action::CallResponseMiddleware(self@.res_order[self@.pos]),
            self@.state == DispatchState::Done || self@.state == DispatchState::ShortCircuited
                ==> a == Action::Respond,
    {
        match self.state {
            DispatchState::RunningRequestMiddleware => Action::CallRequestMiddleware(
                self.req_order[self.pos],
            ),
            DispatchState::Handling => Action::CallHandler(self.handler),
            DispatchState::RunningResponseMiddleware => Action::CallResponseMiddleware(
                self.res_order[self.pos],
            ),
            DispatchState::Done => Action::Respond,
            DispatchState::ShortCircuited => Action::Respond,
        }
    }

    /// Surrenders the final response of a finished pipeline.
    pub fn into_response(self) -> (r: HttpResponse)
        requires
            self.wf(),
            self@.state == DispatchState::Done || self@.state == DispatchState::ShortCircuited,
        ensures
            Some(r@) == self@.response,
    {
        match self.response {
            Some(r) => r,
            None => {
                proof {
                    assert(false);
                }
                HttpResponse { status: 0, body: Vec::new() }
            },
        }
    }
}

/// A fresh, all-empty slot store of the given size.
fn none_slots<V>(n: usize) -> (r: Vec<Option<V>>)
    ensures
        r@.len() == n,
        forall|j: int| 0 <= j < n ==> (#[trigger] r@[j]) is None,
{
    let mut r: Vec<Option<V>> = Vec::new();
    let mut z: usize = 0;
    while z < n
        invariant
            z <= n,
            r@.len() == z,
            forall|j: int| 0 <= j < z ==> (#[trigger] r@[j]) is None,
        decreases n - z,
    {
        r.push(None);
        z = z + 1;
    }
    r
}

/// Copies an execution order out of the shared plan into the
/// per-request machine.
fn copy_indices(v: &Vec<u16>) -> (r: Vec<u16>)
    ensures
        r@ == v@,
{
    let mut r: Vec<u16> = Vec::new();
    let mut z: usize = 0;
    while z < v.len()
        invariant
            z <= v@.len(),
            r@ =~= v@.subrange(0, z as int),
        decreases v@.len() - z,
    {
        r.push(v[z]);
        proof {
            assert(r@ =~= v@.subrange(0, z + 1));
        }
        z = z + 1;
    }
    proof {
        assert(r@ =~= v@);
    }
    r
}

impl<V> Dispatch<V> {
    /// Matches the request against the table and sets the machine up.
    /// No matching entry short-circuits at once into the fixed `404`
    /// response with an empty body; otherwise the machine stands at the
    /// start of the request chain, every slot empty, or at the handler
    /// when no request middleware is declared.
    pub fn begin(
        table: &RouteTable,
        plan: &ExecutionPlan,
        method: HttpMethod,
        path: &str,
    ) -> (d: Dispatch<V>)
        ensures
            d.wf(),
            match spec_resolve(table@, method, path@) {
                None => {
                    &&& d@.state == DispatchState::ShortCircuited
                    &&& d@.response == Some(spec_not_found())
                },
                Some((i, bs)) => {
                    &&& d@.route == i
                    &&& d@.handler == table@[i].handler
                    &&& d@.params == bs
                    &&& d@.req_order == plan@.request_order
                    &&& d@.res_order == plan@.response_order
                    &&& d@.pos == 0
                    &&& d@.response is None
                    &&& forall|j: int|
                        0 <= j < d@.req_slots.len() ==> (#[trigger] d@.req_slots[j]) is None
                    &&& d@.state == (if plan@.request_order.len() > 0 {
                        DispatchState::RunningRequestMiddleware
                    } else {
                        DispatchState::Handling
                    })
                },
            },
    {
        proof {
            use_type_invariant(plan);
            plan.soundness();
        }
        match table.resolve(method, path) {
            Some((i, pm)) => {
                let req_order = copy_indices(plan.request_order_raw());
                let res_order = copy_indices(plan.response_order_raw());
                let req_slots = none_slots(req_order.len());
                let res_slots = none_slots(res_order.len());
                let state = if req_order.len() > 0 {
                    DispatchState::RunningRequestMiddleware
                } else {
                    DispatchState::Handling
                };
                let handler = table.handler_at(i);
                Dispatch {
                    state,
                    route: i,
                    handler,
                    params: pm,
                    req_order,
                    res_order,
                    req_slots,
                    res_slots,
                    pos: 0,
                    response: None,
                }
            },
            None => Dispatch {
                state: DispatchState::ShortCircuited,
                route: 0,
                handler: 0,
                params: ParamMap::empty(),
                req_order: Vec::new(),
                res_order: Vec::new(),
                req_slots: Vec::new(),
                res_slots: Vec::new(),
                pos: 0,
                response: Some(HttpResponse { status: 404, body: Vec::new() }),
            },
        }
    }

    /// Reports what the request middleware the machine asked for
    /// returned. Its output goes into its own slot, write-once, and the
    /// machine advances; on the last middleware it moves to the handler.
    /// An error short-circuits: the rendered error becomes the response
    /// and neither later middleware nor the handler is ever asked for.
    pub fn request_middleware_returned(&mut self, r: Result<V, ErrorResponse>)
        requires
            old(self).wf(),
            old(self)@.state == DispatchState::RunningRequestMiddleware,
        ensures
            final(self).wf(),
            final(self)@.route == old(self)@.route,
            final(self)@.handler == old(self)@.handler,
            final(self)@.params == old(self)@.params,
            final(self)@.req_order == old(self)@.req_order,
            final(self)@.res_order == old(self)@.res_order,
            final(self)@.res_slots == old(self)@.res_slots,
            match r {
                Ok(v) => {
                    &&& final(self)@.req_slots == old(self)@.req_slots.update(
                        old(self)@.req_order[old(self)@.pos] as int,
                        Some(v),
                    )
                    &&& final(self)@.pos == old(self)@.pos + 1
                    &&& final(self)@.response == old(self)@.response
                    &&& final(self)@.state == (if old(self)@.pos + 1 < old(
                        self,
                    )@.req_order.len() {
                        DispatchState::RunningRequestMiddleware
                    } else {
                        DispatchState::Handling
                    })
                },
                Err(e) => {
                    &&& final(self)@.state == DispatchState::ShortCircuited
                    &&& final(self)@.response == Some(spec_rendered(e.status, e.message@))
                    &&& final(self)@.req_slots == old(self)@.req_slots
                },
            },
    {
        match r {
            Ok(v) => {
                let ghost oldslots = self.req_slots@;
                let len = self.req_order.len();
                let c = self.req_order[self.pos] as usize;
                self.req_slots[c] = Some(v);
                self.pos = self.pos + 1;
                if self.pos < len {
                    self.state = DispatchState::RunningRequestMiddleware;
                } else {
                    self.state = DispatchState::Handling;
                }
                proof {
                    let upto = self.pos as int;
                    let order = self.req_order@;
                    assert forall|j: int|
                        0 <= j < self.req_slots@.len() implies ((
                    #[trigger] self.req_slots@[j]) is Some <==> exists|q: int|
                        0 <= q < upto && #[trigger] order[q] == j) by {
                        if j == c as int {
                            assert(order[upto - 1] == j);
                        } else {
                            assert(self.req_slots@[j] == oldslots[j]);
                            if exists|q: int| 0 <= q < upto && order[q] == j {
                                let q = choose|q: int| 0 <= q < upto && order[q] == j;
                                assert(q < upto - 1);
                            }
                        }
                    }
                }
            },
            Err(e) => {
                self.state = DispatchState::ShortCircuited;
                self.response = Some(e.render());
            },
        }
    }

    /// Reports the handler's outcome, already converted to a wire
    /// response on both sides. A success moves on to the response chain;
    /// a failure becomes the final response at once and the response
    /// chain is skipped entirely.
    pub fn handler_returned(&mut self, r: Result<HttpResponse, HttpResponse>)
        requires
            old(self).wf(),
            old(self)@.state == DispatchState::Handling,
        ensures
            final(self).wf(),
            final(self)@.route == old(self)@.route,
            final(self)@.handler == old(self)@.handler,
            final(self)@.params == old(self)@.params,
            final(self)@.req_order == old(self)@.req_order,
            final(self)@.res_order == old(self)@.res_order,
            final(self)@.req_slots == old(self)@.req_slots,
            final(self)@.res_slots == old(self)@.res_slots,
            match r {
                Ok(resp) => {
                    &&& final(self)@.response == Some(resp@)
                    &&& final(self)@.pos == 0
                    &&& final(self)@.state == (if old(self)@.res_order.len() > 0 {
                        DispatchState::RunningResponseMiddleware
                    } else {
                        DispatchState::Done
                    })
                },
                Err(resp) => {
                    &&& final(self)@.response == Some(resp@)
                    &&& final(self)@.state == DispatchState::Done
                },
            },
    {
        match r {
            Ok(resp) => {
                self.response = Some(resp);
                self.pos = 0;
                if self.res_order.len() > 0 {
                    self.state = DispatchState::RunningResponseMiddleware;
                } else {
                    self.state = DispatchState::Done;
                }
            },
            Err(resp) => {
                self.response = Some(resp);
                self.state = DispatchState::Done;
            },
        }
    }

    /// Reports what the response middleware the machine asked for
    /// returned: on success its output and the response as it now
    /// stands; the machine stores both and advances, finishing after the
    /// last one. An error replaces the response with the error's
    /// rendering and skips the remaining response middleware.
    pub fn response_middleware_returned(&mut self, r: Result<(V, HttpResponse), ErrorResponse>)
        requires
            old(self).wf(),
            old(self)@.state == DispatchState::RunningResponseMiddleware,
        ensures
            final(self).wf(),
            final(self)@.route == old(self)@.route,
            final(self)@.handler == old(self)@.handler,
            final(self)@.params == old(self)@.params,
            final(self)@.req_order == old(self)@.req_order,
            final(self)@.res_order == old(self)@.res_order,
            final(self)@.req_slots == old(self)@.req_slots,
            match r {
                Ok((v, resp)) => {
                    &&& final(self)@.res_slots == old(self)@.res_slots.update(
                        old(self)@.res_order[old(self)@.pos] as int,
                        Some(v),
                    )
                    &&& final(self)@.pos == old(self)@.pos + 1
                    &&& final(self)@.response == Some(resp@)
                    &&& final(self)@.state == (if old(self)@.pos + 1 < old(
                        self,
                    )@.res_order.len() {
                        DispatchState::RunningResponseMiddleware
                    } else {
                        DispatchState::Done
                    })
                },
                Err(e) => {
                    &&& final(self)@.state == DispatchState::ShortCircuited
                    &&& final(self)@.response == Some(spec_rendered(e.status, e.message@))
                    &&& final(self)@.res_slots == old(self)@.res_slots
                },
            },
    {
        match r {
            Ok((v, resp)) => {
                let ghost oldslots = self.res_slots@;
                let len = self.res_order.len();
                let c = self.res_order[self.pos] as usize;
                self.res_slots[c] = Some(v);
                self.response = Some(resp);
                self.pos = self.pos + 1;
                if self.pos < len {
                    self.state = DispatchState::RunningResponseMiddleware;
                } else {
                    self.state = DispatchState::Done;
                }
                proof {
                    let upto = self.pos as int;
                    let order = self.res_order@;
                    assert forall|j: int|
                        0 <= j < self.res_slots@.len() implies ((
                    #[trigger] self.res_slots@[j]) is Some <==> exists|q: int|
                        0 <= q < upto && #[trigger] order[q] == j) by {
                        if j == c as int {
                            assert(order[upto - 1] == j);
                        } else {
                            assert(self.res_slots@[j] == oldslots[j]);
                            if exists|q: int| 0 <= q < upto && order[q] == j {
                                let q = choose|q: int| 0 <= q < upto && order[q] == j;
                                assert(q < upto - 1);
                            }
                        }
                    }
                }
            },
            Err(e) => {
                self.state = DispatchState::ShortCircuited;
                self.response = Some(e.render());
            },
        }
    }

    /// Law: slot visibility. While the machine runs, a request
    /// middleware's slot is filled exactly when that middleware has run
    /// for this very request, so a cross-reference observes the value it
    /// returned here and never one from another request, which lives in
    /// another machine.
    pub proof fn slots_filled_as_run(&self)
        requires
            self.wf(),
            self@.state == DispatchState::RunningRequestMiddleware,
        ensures
            slots_match(self@.req_slots, self@.req_order, self@.pos),
    {
    }

    /// Law: short-circuit is terminal. A short-circuited machine holds
    /// the error's rendered response already, and none of the transition
    /// preconditions holds any more: no later middleware and no handler
    /// can report a result for this request.
    pub proof fn short_circuit_terminal(&self)
        requires
            self.wf(),
            self@.state == DispatchState::ShortCircuited,
        ensures
            self@.response is Some,
            self@.state != DispatchState::RunningRequestMiddleware,
            self@.state != DispatchState::Handling,
            self@.state != DispatchState::RunningResponseMiddleware,
    {
    }

    /// Law: when the machine asks for a request middleware, every
    /// request output that middleware cross-references under the plan is
    /// already in its slot — the scheduler ran its producers first.
    pub proof fn refs_ready(&self, plan: &ExecutionPlan)
        requires
            self.wf(),
            plan.wf(),
            self@.state == DispatchState::RunningRequestMiddleware,
            self@.req_order == plan@.request_order,
        ensures
            forall|j: int|
                0 <= j < plan@.request[plan@.request_order[self@.pos] as int].refs.len()
                    ==> match #[trigger] plan@.request[plan@.request_order[self@.pos] as int].refs[j] {
                    CrossRef::Request(i) => (i as int) < self@.req_slots.len()
                        && self@.req_slots[i as int] is Some,
                    CrossRef::Response(_) => true,
                },
    {
        plan.soundness();
        let p = self@.pos;
        let order = plan@.request_order;
        let chain = plan@.request;
        assert forall|j: int|
            0 <= j < chain[order[p] as int].refs.len() implies match #[trigger] chain[order[p] as int].refs[j] {
            CrossRef::Request(i) => (i as int) < self@.req_slots.len()
                && self@.req_slots[i as int] is Some,
            CrossRef::Response(_) => true,
        } by {
            assert(req_feasible(chain, order));
            match chain[order[p] as int].refs[j] {
                CrossRef::Request(i) => {
                    assert(exists|q: int| 0 <= q < p && #[trigger] order[q] == i as int);
                    let q = choose|q: int| 0 <= q < p && order[q] == i as int;
                    assert(order[q] < self@.req_slots.len());
                    assert(self@.req_slots[i as int] is Some);
                },
                CrossRef::Response(_) => {},
            }
        }
    }
}

} // verus!
