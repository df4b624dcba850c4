//! Per-request recoverable errors and the body-size gate. Every error
//! carries its HTTP status mapping; the dispatch pipeline converts an
//! error to a response at the point of failure and short-circuits.

use vstd::prelude::*;

verus! {

/// The request addressed nothing.
#[derive(Debug)]
pub enum RequestErr {
    NotFound,
}

impl RequestErr {
    /// The status this error maps to.
    pub fn status_code(&self) -> (s: u16)
        ensures
            s == 500,
    {
        500
    }

    /// The rendered message.
    pub fn message(&self) -> (m: &'static str)
        ensures
            m@ == "Not found"@,
    {
        "Not found"
    }
}

/// A request body could not be taken in.
#[derive(Debug)]
pub enum PayloadError {
    /// The body did not deserialize; the reason is kept as text.
    Deserialize(String),
    /// A body was required and none came.
    NotExist,
    /// The declared maximum, then the size the body announced.
    Size(u64, u64),
}

impl PayloadError {
    /// The status this error maps to.
    pub fn status_code(&self) -> (s: u16)
        ensures
            s == 500,
    {
        500
    }
}

/// A query string could not be read.
#[derive(Debug)]
pub enum QueryPayloadError {
    /// The query did not deserialize; the reason is kept as text.
    Deserialize(String),
    /// A query was required and none came.
    NotExist,
}

impl QueryPayloadError {
    /// The status this error maps to.
    pub fn status_code(&self) -> (s: u16)
        ensures
            s == 500,
    {
        500
    }
}

/// Path parameters did not convert to the handler's declared type.
#[derive(Debug)]
pub enum PathError {
    /// The reason, kept as text.
    Deserialize(String),
}

impl PathError {
    /// The status this error maps to.
    pub fn status_code(&self) -> (s: u16)
        ensures
            s == 500,
    {
        500
    }
}

/// The body-size gate: given the declared maximum and what the body
/// announces as its upper size bound, refuses exactly the bodies that
/// announce more than the maximum. A body of unknown extent passes.
pub fn body_size_limit(size: u64, upper: Option<u64>) -> (r: Result<(), PayloadError>)
    ensures
        match upper {
            Some(limit) => if size < limit {
                r == Err::<(), PayloadError>(PayloadError::Size(size, limit))
            } else {
                r is Ok
            },
            None => r is Ok,
        },
{
    match upper {
        Some(limit) => {
            if size < limit {
                Err(PayloadError::Size(size, limit))
            } else {
                Ok(())
            }
        },
        None => Ok(()),
    }
}

} // verus!
