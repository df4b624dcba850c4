//! Request-routing and middleware-orchestration core of a small web
//! framework: path templates with named parameters, a route table probed
//! in a fixed specificity order, a middleware scheduler that orders
//! request/response chains by their declared cross-references, and the
//! per-request dispatch state machine that ties these together with
//! error short-circuiting.
#![verifier::loop_isolation(false)]

pub mod app;
pub mod body;
pub mod compress;
pub mod headers;
pub mod pipeline;
pub mod request;
pub mod router;
pub mod scheduler;
pub mod template;
pub mod text;
