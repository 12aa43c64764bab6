use chapter_4::request::parser::{RequestParser, RequestParserError, RequestParserState, MAX_REQUEST_LINE_SIZE};
use chapter_4::request::{HttpVersion, RequestMethod};

const GOOD_REQUEST_LINE_GET: &[u8] = b"GET / HTTP/1.1";
const GOOD_REQUEST_LINE_POST: &[u8] = b"POST / HTTP/1.1";
const GOOD_REQUEST_LINE_HEAD: &[u8] = b"HEAD / HTTP/1.1";
const GOOD_REQUEST_LINE_PATCH: &[u8] = b"PATCH / HTTP/1.1";
const GOOD_REQUEST_LINE_DELETE: &[u8] = b"DELETE / HTTP/1.1";
const GOOD_REQUEST_LINE_OPTIONS: &[u8] = b"OPTIONS / HTTP/1.1";
const GOOD_REQUEST_LINE_WITH_PATH: &[u8] = b"POST /path/to/resource HTTP/1.1";

const BAD_REQUEST_LINE_INVALID_METHOD: &[u8] = b"FOO / HTTP/1.1";
const BAD_REQUEST_LINE_UNSUPPORTED_HTTP_VERSION: &[u8] = b"GET / HTTP/2.0";
const BAD_REQUEST_LINE_TOO_MANY_PARTS: &[u8] = b"GET / HTTP/1.1 extra";
const BAD_REQUEST_LINE_INVALID_TARGET: &[u8] = b"GET --hello<'-'>bye-- HTTP/1.1";

fn build_bad_request_line() -> Vec<u8> {
    let mut line = vec![b'a'; MAX_REQUEST_LINE_SIZE + 1];

    line[0] = b'G';
    line[1] = b'E';
    line[2] = b'T';
    line[3] = b' ';
    line[4] = b'/';

    let i = MAX_REQUEST_LINE_SIZE + 1 - 11;

    line[i] = b' ';
    line[i + 1] = b'H';
    line[i + 2] = b'T';
    line[i + 3] = b'T';
    line[i + 4] = b'P';
    line[i + 5] = b'/';
    line[i + 6] = b'1';
    line[i + 7] = b'.';
    line[i + 8] = b'1';
    line[i + 9] = b'\r';
    line[i + 10] = b'\n';

    line
}

#[test]
fn parse_good_request_line_get() {
    let request_line = RequestParser::parse_request_line(GOOD_REQUEST_LINE_GET).unwrap();
    assert!(matches!(request_line.method, RequestMethod::GET));
    assert_eq!(&request_line.request_target[..], b"/");
    assert!(matches!(request_line.http_version, HttpVersion::Http11));
}

#[test]
fn parse_good_request_line_post() {
    let request_line = RequestParser::parse_request_line(GOOD_REQUEST_LINE_POST).unwrap();
    assert!(matches!(request_line.method, RequestMethod::POST));
    assert_eq!(&request_line.request_target[..], b"/");
    assert!(matches!(request_line.http_version, HttpVersion::Http11));
}

#[test]
fn parse_good_request_line_head() {
    let request_line = RequestParser::parse_request_line(GOOD_REQUEST_LINE_HEAD).unwrap();
    assert!(matches!(request_line.method, RequestMethod::HEAD));
    assert_eq!(&request_line.request_target[..], b"/");
    assert!(matches!(request_line.http_version, HttpVersion::Http11));
}

#[test]
fn parse_good_request_line_patch() {
    let request_line = RequestParser::parse_request_line(GOOD_REQUEST_LINE_PATCH).unwrap();
    assert!(matches!(request_line.method, RequestMethod::PATCH));
    assert_eq!(&request_line.request_target[..], b"/");
    assert!(matches!(request_line.http_version, HttpVersion::Http11));
}

#[test]
fn parse_good_request_line_delete() {
    let request_line = RequestParser::parse_request_line(GOOD_REQUEST_LINE_DELETE).unwrap();
    assert!(matches!(request_line.method, RequestMethod::DELETE));
    assert_eq!(&request_line.request_target[..], b"/");
    assert!(matches!(request_line.http_version, HttpVersion::Http11));
}

#[test]
fn parse_good_request_line_options() {
    let request_line = RequestParser::parse_request_line(GOOD_REQUEST_LINE_OPTIONS).unwrap();
    assert!(matches!(request_line.method, RequestMethod::OPTIONS));
    assert_eq!(&request_line.request_target[..], b"/");
    assert!(matches!(request_line.http_version, HttpVersion::Http11));
}

#[test]
fn parse_request_line_good_with_path() {
    let request_line = RequestParser::parse_request_line(GOOD_REQUEST_LINE_WITH_PATH).unwrap();
    assert!(matches!(request_line.method, RequestMethod::POST));
    assert_eq!(&request_line.request_target[..], b"/path/to/resource");
    assert!(matches!(request_line.http_version, HttpVersion::Http11));
}

#[test]
fn parse_request_line_invalid_method() {
    let r = RequestParser::parse_request_line(BAD_REQUEST_LINE_INVALID_METHOD);
    assert!(r.is_err());
    assert!(matches!(r.err(), Some(RequestParserError::InvalidRequestMethod)));
}

#[test]
fn parse_request_line_invalid_version() {
    let r = RequestParser::parse_request_line(BAD_REQUEST_LINE_UNSUPPORTED_HTTP_VERSION);
    assert!(r.is_err());
    assert!(matches!(r.err(), Some(RequestParserError::UnsupportedHttpVersion)));
}

#[test]
fn parse_request_line_invalid_number_of_parts() {
    let r = RequestParser::parse_request_line(BAD_REQUEST_LINE_TOO_MANY_PARTS);
    assert!(r.is_err());
    assert!(matches!(r.err(), Some(RequestParserError::MalformedRequestLine)));
}

#[test]
fn parse_request_line_invalid_target() {
    let r = RequestParser::parse_request_line(BAD_REQUEST_LINE_INVALID_TARGET);
    assert!(r.is_err());
    assert!(matches!(r.err(), Some(RequestParserError::MalformedRequestLine)));
}

#[test]
fn parse_request_line_too_long() {
    let line = build_bad_request_line();
    let r = RequestParser::parse_request_line(&line);
    assert!(r.is_err());
    assert!(matches!(r.err(), Some(RequestParserError::RequestLineTooLong)));
}

#[test]
fn parse_request_line_method_prefix_and_structure() {
    // Methods are recognised by their leading bytes.
    let l = RequestParser::parse_request_line(b"POSTAL /x HTTP/1.1").unwrap();
    assert!(matches!(l.method, RequestMethod::POST));
    assert_eq!(&l.request_target[..], b"/x");
    // Fewer than three bytes before the first space.
    assert_eq!(RequestParser::parse_request_line(b"GE / HTTP/1.1").err(), Some(RequestParserError::MalformedRequestLine));
    // Nothing between the two spaces.
    assert_eq!(RequestParser::parse_request_line(b"GET  HTTP/1.1").err(), Some(RequestParserError::MalformedRequestLine));
    // One space only.
    assert_eq!(RequestParser::parse_request_line(b"GET /HTTP/1.1").err(), Some(RequestParserError::MalformedRequestLine));
    // The version must take exactly eight bytes.
    assert_eq!(RequestParser::parse_request_line(b"GET / HTTP/1.10").err(), Some(RequestParserError::MalformedRequestLine));
    // PATCH needs its H.
    assert_eq!(RequestParser::parse_request_line(b"PATCX / HTTP/1.1").err(), Some(RequestParserError::InvalidRequestMethod));
}

#[test]
fn parse_request_target_checks_uri_bytes() {
    assert_eq!(RequestParser::parse_request_target(b"/a/b?c=d&e=%20#f").unwrap(), b"/a/b?c=d&e=%20#f".to_vec());
    assert_eq!(RequestParser::parse_request_target(b"/a<b").err(), Some(RequestParserError::MalformedRequestLine));
    assert_eq!(RequestParser::parse_request_target(b"/a\tb").err(), Some(RequestParserError::MalformedRequestLine));
}

#[test]
fn parser_reads_the_request_line_and_finishes() {
    let mut p = RequestParser::new(2 << 20);
    assert!(!p.done());
    let buf = b"GET /coffee HTTP/1.1\r\nHost: localhost\r\n\r\n";
    let read = p.parse(buf).unwrap();
    // The bytes before the first `\n` are counted.
    assert_eq!(read, 21);
    assert!(p.done());
    let line = p.request_line.as_ref().unwrap();
    assert!(matches!(line.method, RequestMethod::GET));
    assert_eq!(&line.request_target[..], b"/coffee");
    // A done parser reads nothing more.
    assert_eq!(p.parse(buf).unwrap(), 0);
}

#[test]
fn parser_waits_for_a_line_end() {
    let mut p = RequestParser::new(10);
    assert_eq!(p.parse(b"GET / HTTP/1.1").unwrap(), 0);
    assert!(!p.done());
    assert!(p.request_line.is_none());
}

#[test]
fn parser_errors_leave_it_unchanged() {
    let mut p = RequestParser::new(10);
    assert_eq!(p.parse(b"GET / HTTP/1.1\n").err(), Some(RequestParserError::InvalidLineEnding));
    assert_eq!(p.parse(b"GET /\r\n").err(), Some(RequestParserError::MalformedRequestLine));
    assert_eq!(p.parse(b"FOO / HTTP/1.1\r\n").err(), Some(RequestParserError::InvalidRequestMethod));
    let mut long = vec![b'a'; 3000];
    long.extend_from_slice(b"\r\n");
    assert_eq!(p.parse(&long).err(), Some(RequestParserError::RequestLineTooLong));
    assert!(!p.done());
    assert!(p.request_line.is_none());
    assert!(matches!(RequestParserState::RequestLine, RequestParserState::RequestLine));
}
