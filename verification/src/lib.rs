//! An HTTP/1.1 request-line parser, a multi-valued header map and the
//! small byte utilities they rest on, with their contracts proved by Verus.

pub mod utils;
pub mod header;
pub mod search;
pub mod request;
pub mod stream_request;
pub mod readers;
pub mod config;
pub mod hashers;
pub mod connection;
