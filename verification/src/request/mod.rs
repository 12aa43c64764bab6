//! HTTP/1.1 requests: the request line and the parser that reads it.

pub mod line;
pub mod parser;

pub use self::line::Line;
pub use self::parser::{RequestParser, RequestParserError, RequestParserState};

use vstd::prelude::*;

verus! {

/// The request methods the server accepts.
#[derive(Clone, Copy, PartialEq, Eq, Structural, Debug)]
pub enum RequestMethod {
    GET,
    POST,
    PUT,
    DELETE,
    HEAD,
    OPTIONS,
    PATCH,
}

/// The HTTP versions the server accepts.
#[derive(Clone, Copy, PartialEq, Eq, Structural, Debug)]
pub enum HttpVersion {
    Http11,
}

/// A parsed request line: the method, the request target and the version.
#[derive(Debug)]
pub struct RequestLine {
    pub method: RequestMethod,
    pub request_target: Vec<u8>,
    pub http_version: HttpVersion,
}

/// What a request line holds, as plain values.
pub type RequestLineModel = (RequestMethod, Seq<u8>, HttpVersion);

impl RequestLine {
    /// The method, target bytes and version of this request line.
    pub open spec fn model(&self) -> RequestLineModel {
        (self.method, self.request_target@, self.http_version)
    }
}

/// The model of an optional request line.
pub open spec fn opt_line_model(o: Option<RequestLine>) -> Option<RequestLineModel> {
    match o {
        Some(l) => Some(l.model()),
        None => None,
    }
}

} // verus!
