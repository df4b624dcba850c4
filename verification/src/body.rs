//! Typed body wrappers. The (de)serialization work belongs to the
//! surrounding program; these wrappers carry the decoded value through
//! the dispatch core and hand it to the handler.

use core::marker::PhantomData;
use vstd::prelude::*;

verus! {

/// A value decoded from a JSON request body, or to be encoded into a
/// JSON response body.
pub struct Json<T>(pub T);

impl<T> Json<T> {
    /// Surrenders the decoded value.
    pub fn into_inner(self) -> (r: T)
        ensures
            r == self.0,
    {
        self.0
    }
}

/// A query-language request decoded from a request body, tagged with the
/// content type it arrived under.
pub struct GraphQLBody<T, C>(pub T, pub PhantomData<C>);

impl<T, C> GraphQLBody<T, C> {
    /// Wraps a decoded request.
    pub fn new(inner: T) -> (r: GraphQLBody<T, C>)
        ensures
            r.0 == inner,
    {
        GraphQLBody(inner, PhantomData)
    }

    /// Surrenders the decoded request.
    pub fn into_inner(self) -> (r: T)
        ensures
            r == self.0,
    {
        self.0
    }
}

} // verus!
