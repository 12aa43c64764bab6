//! A request line in its typed form.

use vstd::prelude::*;

verus! {

/// A request method.
#[derive(Clone, Copy, PartialEq, Eq, Structural, Debug)]
pub enum Method {
    GET,
    POST,
    PUT,
    DELETE,
    HEAD,
    OPTIONS,
    PATCH,
}

/// An HTTP version.
#[derive(Clone, Copy, PartialEq, Eq, Structural, Debug)]
pub enum Version {
    HTTP1_1,
}

/// A request line: method, version and request target.
pub struct Line {
    method: Method,
    version: Version,
    target: Vec<u8>,
}

} // verus!
