//! The application builder: routes and middleware are declared while the
//! program starts, then `build` fixes the route table's probe order and
//! the middleware execution plan once. The built pair is immutable and
//! shared read-only by every request. Any declaration error is fatal at
//! build time; none reaches request handling.

use vstd::prelude::*;

use crate::router::{entries_view, specificity_sorted, RouteEntry, RouteError, RouteShape, RouteTable};
use crate::scheduler::{
    plan, refs_valid, req_feasible, resp_feasible, spec_chain, spec_chain_order, specs_view,
    ExecutionPlan, MiddlewareSpec, MwShape, Phase, PlanError,
};

verus! {

/// Why an application cannot be built.
#[derive(Clone, Copy, Debug, PartialEq, Eq, Structural)]
pub enum BuildError {
    /// No route was declared at all.
    NoRoutesRegistered,
    /// Some middleware cross-reference names an output that does not
    /// exist.
    CrossRefOutOfBounds,
    /// The middleware ordering would read an output before it is
    /// written.
    CrossRefNotScheduled,
}

/// Mathematical image of an [`App`] under construction.
pub struct AppShape {
    pub routes: Seq<RouteShape>,
    pub middleware: Seq<MwShape>,
}

/// The application under construction: declared routes and middleware,
/// in declaration order.
pub struct App {
    routes: Vec<RouteEntry>,
    middleware: Vec<MiddlewareSpec>,
}

impl View for App {
    type V = AppShape;

    closed spec fn view(&self) -> AppShape {
        AppShape { routes: entries_view(self.routes@), middleware: specs_view(self.middleware@) }
    }
}

/// The built application: the probe-ordered route table and the fixed
/// middleware execution plan, shared by all requests.
pub struct BuiltApp {
    pub table: RouteTable,
    pub plan: ExecutionPlan,
}

impl App {
    /// Starts with nothing declared.
    pub fn new() -> (a: App)
        ensures
            a@.routes == Seq::<RouteShape>::empty(),
            a@.middleware == Seq::<MwShape>::empty(),
    {
        let a = App { routes: Vec::new(), middleware: Vec::new() };
        proof {
            assert(a@.routes =~= Seq::<RouteShape>::empty());
            assert(a@.middleware =~= Seq::<MwShape>::empty());
        }
        a
    }

    /// Declares one route.
    pub fn route(&mut self, entry: RouteEntry)
        ensures
            final(self)@.routes == old(self)@.routes.push(entry@),
            final(self)@.middleware == old(self)@.middleware,
    {
        self.routes.push(entry);
        proof {
            assert(self@.routes =~= old(self)@.routes.push(entry@));
            assert(self@.middleware =~= old(self)@.middleware);
        }
    }

    /// Declares one middleware.
    pub fn middleware(&mut self, spec: MiddlewareSpec)
        ensures
            final(self)@.middleware == old(self)@.middleware.push(spec@),
            final(self)@.routes == old(self)@.routes,
    {
        self.middleware.push(spec);
        proof {
            assert(self@.middleware =~= old(self)@.middleware.push(spec@));
            assert(self@.routes =~= old(self)@.routes);
        }
    }

    /// Fixes the route order and the middleware plan, once. Fails — and
    /// the application never starts — when no route was declared, when a
    /// cross-reference names a missing output, or when the computed
    /// order would read an output too early.
    pub fn build(self) -> (r: Result<BuiltApp, BuildError>)
        requires
            self@.middleware.len() <= 0xffff,
        ensures
            ({
                let req = spec_chain(self@.middleware, Phase::Request);
                let resp = spec_chain(self@.middleware, Phase::Response);
                let ro = spec_chain_order(req, true);
                let so = spec_chain_order(resp, false);
                &&& (r == Err::<BuiltApp, BuildError>(BuildError::NoRoutesRegistered)
                    <==> self@.routes.len() == 0)
                &&& (r == Err::<BuiltApp, BuildError>(BuildError::CrossRefOutOfBounds)
                    <==> self@.routes.len() > 0 && !refs_valid(req, resp))
                &&& (r == Err::<BuiltApp, BuildError>(BuildError::CrossRefNotScheduled)
                    <==> self@.routes.len() > 0 && refs_valid(req, resp) && !(req_feasible(
                    req,
                    ro,
                ) && resp_feasible(resp, so)))
                &&& (r matches Ok(built) ==> {
                    &&& specificity_sorted(self@.routes, built.table@)
                    &&& built.plan@.request == req
                    &&& built.plan@.response == resp
                    &&& built.plan@.request_order == ro
                    &&& built.plan@.response_order == so
                })
            }),
    {
        let App { routes, middleware } = self;
        if routes.len() == 0 {
            return Err(BuildError::NoRoutesRegistered);
        }
        let built_plan = match plan(middleware) {
            Ok(p) => p,
            Err(PlanError::CrossRefOutOfBounds) => {
                return Err(BuildError::CrossRefOutOfBounds);
            },
            Err(PlanError::CrossRefNotScheduled) => {
                return Err(BuildError::CrossRefNotScheduled);
            },
        };
        let table = match RouteTable::build(routes) {
            Ok(t) => t,
            Err(RouteError::NoRoutesRegistered) => {
                proof {
                    assert(false);
                }
                return Err(BuildError::NoRoutesRegistered);
            },
        };
        Ok(BuiltApp { table, plan: built_plan })
    }
}

/// Transport configuration of the surrounding server loop; the dispatch
/// core itself never reads it.
#[derive(Clone, Copy, Debug, PartialEq, Eq, Structural)]
pub struct Server {
    pub pipeline: bool,
}

} // verus!
