//! Marker types of the body compression middleware. The byte transforms
//! themselves live with the surrounding program; what the dispatch core
//! knows of each coder is the `Content-Encoding` token it answers to.

use vstd::prelude::*;

use crate::headers::EncodingType;

verus! {

/// The brotli coder.
pub struct Brotli;

/// The deflate coder.
pub struct Deflate;

/// The gzip coder.
pub struct Gzip;

impl Brotli {
    /// The header token this coder serves.
    pub fn encoding_type(&self) -> (e: EncodingType)
        ensures
            e == EncodingType::Br,
    {
        EncodingType::Br
    }
}

impl Deflate {
    /// The header token this coder serves.
    pub fn encoding_type(&self) -> (e: EncodingType)
        ensures
            e == EncodingType::Deflate,
    {
        EncodingType::Deflate
    }
}

impl Gzip {
    /// The header token this coder serves.
    pub fn encoding_type(&self) -> (e: EncodingType)
        ensures
            e == EncodingType::Gzip,
    {
        EncodingType::Gzip
    }
}

} // verus!
