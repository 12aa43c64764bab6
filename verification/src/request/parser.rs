//! The incremental request parser: it finds the request line in a buffer,
//! checks its size and ending, and parses method, target and version.

use vstd::prelude::*;

use super::{HttpVersion, RequestLine, RequestLineModel, RequestMethod, opt_line_model};
use crate::header::map::HeaderMap;
use crate::search::{find_byte, is_first_index, lacks_byte};

verus! {

/// The request line is made of three sections (without the `\r\n` that ends
/// it): the method (e.g. GET, POST), the request target (e.g. `/`,
/// `/path/to/resource`) and the HTTP version (`HTTP/1.1`). The longest method
/// (OPTIONS), the version and the two spaces take 17 bytes, which leaves the
/// rest of the 2 KiB, line ending included, for the request target.
pub const MAX_REQUEST_LINE_SIZE: usize = 2048;

/// The shortest request line: `GET / HTTP/1.1\r\n`.
pub const MIN_REQUEST_LINE_SIZE: usize = 14;

/// The most bytes of headers a request may carry.
pub const MAX_HEADER_SIZE: usize = 32768;

/// The longest header line.
pub const MAX_HEADER_LINE_SIZE: usize = 8192;

/// The shortest header line, e.g. `A: \r\n`.
pub const MIN_HEADER_LINE_SIZE: usize = 3;

/// The section of the request the parser expects next.
#[derive(Clone, Copy, PartialEq, Eq, Structural, Debug)]
pub enum RequestParserState {
    RequestLine,
    Headers,
    Body,
    Done,
}

/// Why a request was refused.
#[derive(Clone, Copy, PartialEq, Eq, Structural, Debug)]
pub enum RequestParserError {
    InvalidLineEnding,
    MalformedRequestLine,
    InvalidRequestMethod,
    UnsupportedHttpVersion,
    RequestParsingError,
    RequestLineTooLong,
    HeaderTooLarge,
    HeaderLineTooLong,
    MalformedHeaderLine,
    BodyTooLarge,
    BodyMissingBytes(usize),
}

/// `s` begins with the bytes of `p`.
pub open spec fn starts_with(s: Seq<u8>, p: Seq<u8>) -> bool {
    &&& p.len() <= s.len()
    &&& forall|k: int| 0 <= k < p.len() ==> s[k] == p[k]
}

/// The bytes of `s` from `start` on are exactly those of `p`.
pub open spec fn ends_with_at(s: Seq<u8>, start: int, p: Seq<u8>) -> bool {
    &&& 0 <= start
    &&& start + p.len() == s.len()
    &&& forall|k: int| 0 <= k < p.len() ==> s[start + k] == p[k]
}

/// The only version the server speaks.
pub open spec fn http_1_1() -> Seq<u8> {
    seq![('H' as u8), ('T' as u8), ('T' as u8), ('P' as u8), ('/' as u8), ('1' as u8), ('.' as u8), ('1' as u8)]
}

/// The method a request line starts with. Methods are recognised by their
/// leading bytes: `GET ` and `PUT ` with their space, `POST` and `HEAD` by their
/// four letters, `PATCH`, `DELETE` and `OPTIONS` by their full names.
pub open spec fn spec_method(line: Seq<u8>) -> Option<RequestMethod> {
    if starts_with(line, seq![('G' as u8), ('E' as u8), ('T' as u8), (' ' as u8)]) {
        Some(RequestMethod::GET)
    } else if starts_with(line, seq![('P' as u8), ('U' as u8), ('T' as u8), (' ' as u8)]) {
        Some(RequestMethod::PUT)
    } else if starts_with(line, seq![('P' as u8), ('O' as u8), ('S' as u8), ('T' as u8)]) {
        Some(RequestMethod::POST)
    } else if starts_with(line, seq![('H' as u8), ('E' as u8), ('A' as u8), ('D' as u8)]) {
        Some(RequestMethod::HEAD)
    } else if starts_with(line, seq![('P' as u8), ('A' as u8), ('T' as u8), ('C' as u8), ('H' as u8)]) {
        Some(RequestMethod::PATCH)
    } else if starts_with(line, seq![('D' as u8), ('E' as u8), ('L' as u8), ('E' as u8), ('T' as u8), ('E' as u8)]) {
        Some(RequestMethod::DELETE)
    } else if starts_with(line, seq![('O' as u8), ('P' as u8), ('T' as u8), ('I' as u8), ('O' as u8), ('N' as u8), ('S' as u8)]) {
        Some(RequestMethod::OPTIONS)
    } else {
        None
    }
}

/// A byte that may appear in a URI (RFC 3986): a letter, a digit, an unreserved
/// or reserved mark, or `%`.
pub open spec fn is_uri_byte(c: u8) -> bool {
    ||| (('a' as u8) <= c && c <= ('z' as u8))
    ||| (('A' as u8) <= c && c <= ('Z' as u8))
    ||| (('0' as u8) <= c && c <= ('9' as u8))
    ||| c == ('-' as u8) || c == ('.' as u8) || c == ('_' as u8) || c == ('~' as u8)
    ||| c == (':' as u8) || c == ('/' as u8) || c == ('?' as u8) || c == ('#' as u8) || c == ('[' as u8) || c == (']' as u8) || c == ('@' as u8)
    ||| c == ('!' as u8) || c == ('$' as u8) || c == ('&' as u8) || c == ('\'' as u8) || c == ('(' as u8) || c == (')' as u8)
    ||| c == ('*' as u8) || c == ('+' as u8) || c == (',' as u8) || c == (';' as u8) || c == ('=' as u8) || c == ('%' as u8)
}

/// Every byte of the request target may appear in a URI.
pub open spec fn valid_target(t: Seq<u8>) -> bool {
    forall|i: int| 0 <= i < t.len() ==> is_uri_byte(#[trigger] t[i])
}

/// `line` holds exactly two spaces, at `a` and at `b`, with `a < b`.
pub open spec fn two_spaces(line: Seq<u8>, a: int, b: int) -> bool {
    &&& 0 <= a < b < line.len()
    &&& line[a] == (' ' as u8)
    &&& line[b] == (' ' as u8)
    &&& forall|j: int| 0 <= j < line.len() && j != a && j != b ==> #[trigger] line[j] != (' ' as u8)
}

/// What parsing a request line (without its `\r\n`) gives:
/// - a line longer than `MAX_REQUEST_LINE_SIZE` less its ending is too long;
/// - a line without exactly two spaces, with fewer than three bytes before the
///   first, nothing between them, or anything but eight bytes after the second
///   is malformed;
/// - an unknown method is refused, then a target with a byte that a URI may not
///   hold (malformed), then any version but `HTTP/1.1`.
pub open spec fn spec_parse_request_line(line: Seq<u8>) -> Result<RequestLineModel, RequestParserError> {
    if line.len() > MAX_REQUEST_LINE_SIZE - 2 {
        Err(RequestParserError::RequestLineTooLong)
    } else if !(exists|a: int, b: int| two_spaces(line, a, b)) {
        Err(RequestParserError::MalformedRequestLine)
    } else {
        let (a, b) = choose|a: int, b: int| two_spaces(line, a, b);
        if a < 3 || b - a < 2 || line.len() - b != 9 {
            Err(RequestParserError::MalformedRequestLine)
        } else {
            match spec_method(line) {
                None => Err(RequestParserError::InvalidRequestMethod),
                Some(method) => if !valid_target(line.subrange(a + 1, b)) {
                    Err(RequestParserError::MalformedRequestLine)
                } else if !ends_with_at(line, b + 1, http_1_1()) {
                    Err(RequestParserError::UnsupportedHttpVersion)
                } else {
                    Ok((method, line.subrange(a + 1, b), HttpVersion::Http11))
                },
            }
        }
    }
}

/// The two spaces of a line are determined by it.
pub proof fn lemma_two_spaces_unique(line: Seq<u8>, a: int, b: int, c: int, d: int)
    requires
        two_spaces(line, a, b),
        two_spaces(line, c, d),
    ensures
        a == c && b == d,
{
    if c != a && c != b {
        assert(line[c] != (' ' as u8));
    }
    if d != a && d != b {
        assert(line[d] != (' ' as u8));
    }
}

/// What checking a line that ends at the `\n` at `nl` gives: too long past
/// `max_size - 1`, malformed below `min_size - 1` (each named after the
/// section being read), and an invalid ending unless a `\r` precedes the `\n`.
pub open spec fn spec_check_line(state: RequestParserState, buf: Seq<u8>, nl: int, max_size: int, min_size: int) -> Result<usize, RequestParserError> {
    if nl > max_size - 1 {
        if state == RequestParserState::RequestLine {
            Err(RequestParserError::RequestLineTooLong)
        } else {
            Err(RequestParserError::HeaderLineTooLong)
        }
    } else if nl < min_size - 1 {
        if state == RequestParserState::RequestLine {
            Err(RequestParserError::MalformedRequestLine)
        } else {
            Err(RequestParserError::MalformedHeaderLine)
        }
    } else if nl == 0 || buf[nl - 1] != ('\r' as u8) {
        Err(RequestParserError::InvalidLineEnding)
    } else {
        Ok(nl as usize)
    }
}

/// The inputs on which `check_line` returns: sizes of at least one, a state that
/// names a line when the size is wrong, and a line ending inside the buffer.
pub open spec fn check_line_defined(state: RequestParserState, buf: Seq<u8>, nl: int, max_size: int, min_size: int) -> bool {
    &&& max_size >= 1
    &&& min_size >= 1
    &&& (nl > max_size - 1 || nl < min_size - 1) ==> (state == RequestParserState::RequestLine
        || state == RequestParserState::Headers)
    &&& (min_size - 1 <= nl <= max_size - 1 && nl >= 1) ==> nl - 1 < buf.len()
}

/// A parser of one request.
pub struct RequestParser {
    state: RequestParserState,
    max_body_size: usize,
    pub request_line: Option<RequestLine>,
    pub headers: HeaderMap,
}

impl RequestParser {
    /// The section the parser expects next.
    pub closed spec fn spec_state(&self) -> RequestParserState {
        self.state
    }

    /// The largest body the parser accepts.
    pub closed spec fn spec_max_body_size(&self) -> usize {
        self.max_body_size
    }

    /// The request line parsed so far, as plain values.
    pub closed spec fn spec_request_line(&self) -> Option<RequestLineModel> {
        opt_line_model(self.request_line)
    }

    /// The headers parsed so far.
    pub closed spec fn spec_headers(&self) -> &HeaderMap {
        &self.headers
    }

    /// A parser expecting the request line, with no request line and no headers.
    pub fn new(max_body_size: usize) -> (p: RequestParser)
        ensures
            p.spec_state() == RequestParserState::RequestLine,
            p.spec_max_body_size() == max_body_size,
            p.spec_request_line() is None,
            p.spec_headers().wf(),
            p.spec_headers()@.size == 0,
            p.spec_headers()@.capacity == 0,
            p.spec_headers()@.values_count == 0,
    {
        RequestParser {
            state: RequestParserState::RequestLine,
            max_body_size,
            request_line: None,
            headers: HeaderMap::new(),
        }
    }

    /// Whether the whole request has been read.
    pub fn done(&self) -> (b: bool)
        ensures
            b == (self.spec_state() == RequestParserState::Done),
    {
        match self.state {
            RequestParserState::Done => true,
            _ => false,
        }
    }

    /// Checks the request target: every byte must be one a URI may hold.
    pub fn parse_request_target(target: &[u8]) -> (r: Result<Vec<u8>, RequestParserError>)
        ensures
            match r {
                Ok(t) => valid_target(target@) && t@ == target@,
                Err(e) => !valid_target(target@) && e == RequestParserError::MalformedRequestLine,
            },
    {
        let mut i: usize = 0;
        while i < target.len()
            invariant
                i <= target@.len(),
                forall|k: int| 0 <= k < i ==> is_uri_byte(#[trigger] target@[k]),
            decreases target@.len() - i,
        {
            let c = target[i];
            let ok = (('a' as u8) <= c && c <= ('z' as u8)) || (('A' as u8) <= c && c <= ('Z' as u8)) || (('0' as u8) <= c && c <= ('9' as u8))
                || c == ('-' as u8) || c == ('.' as u8) || c == ('_' as u8) || c == ('~' as u8) || c == (':' as u8) || c == ('/' as u8) || c
                == ('?' as u8) || c == ('#' as u8) || c == ('[' as u8) || c == (']' as u8) || c == ('@' as u8) || c == ('!' as u8) || c == ('$' as u8)
                || c == ('&' as u8) || c == ('\'' as u8) || c == ('(' as u8) || c == (')' as u8) || c == ('*' as u8) || c == ('+' as u8) || c
                == (',' as u8) || c == (';' as u8) || c == ('=' as u8) || c == ('%' as u8);
            if !ok {
                return Err(RequestParserError::MalformedRequestLine);
            }
            i = i + 1;
        }
        Ok(vstd::slice::slice_to_vec(target))
    }
}


/// Spaces found by successive searches, with none after the second, are the
/// line's two spaces.
proof fn lemma_spaces_found(line: Seq<u8>, sp1: int, sp2: int)
    requires
        is_first_index(line, (' ' as u8), sp1),
        is_first_index(line.subrange(sp1 + 1, line.len() as int), (' ' as u8), sp2 - sp1 - 1),
        lacks_byte(line.subrange(sp2 + 1, line.len() as int), (' ' as u8)),
    ensures
        two_spaces(line, sp1, sp2),
        (choose|a: int, b: int| two_spaces(line, a, b)) == (sp1, sp2),
{
    let r1 = line.subrange(sp1 + 1, line.len() as int);
    let r2 = line.subrange(sp2 + 1, line.len() as int);
    assert(line[sp2] == r1[sp2 - sp1 - 1]);
    assert forall|j: int| 0 <= j < line.len() && j != sp1 && j != sp2 implies #[trigger] line[j] != (' ' as u8) by {
        if j < sp1 {
        } else if j < sp2 {
            assert(line[j] == r1[j - sp1 - 1]);
        } else {
            assert(line[j] == r2[j - sp2 - 1]);
        }
    }
    assert(two_spaces(line, sp1, sp2));
    let (a, b) = choose|a: int, b: int| two_spaces(line, a, b);
    lemma_two_spaces_unique(line, a, b, sp1, sp2);
}

/// The positions of the two spaces of a line that holds exactly two, found with
/// successive searches for a space.
pub fn find_two_spaces(line: &[u8]) -> (r: Option<(usize, usize)>)
    ensures
        match r {
            Some((a, b)) => two_spaces(line@, a as int, b as int) && (choose|a: int, b: int|
                two_spaces(line@, a, b)) == (a as int, b as int),
            None => !(exists|a: int, b: int| two_spaces(line@, a, b)),
        },
{
    let n = line.len();
    let sp_1 = match find_byte((' ' as u8), line) {
        Some(i) => i,
        None => {
            return None;
        },
    };
    let rest_1 = vstd::slice::slice_subrange(line, sp_1 + 1, n);
    let sp_2 = match find_byte((' ' as u8), rest_1) {
        Some(i) => sp_1 + 1 + i,
        None => {
            proof {
                assert forall|a: int, b: int| !two_spaces(line@, a, b) by {
                    if two_spaces(line@, a, b) {
                        assert(rest_1@[b - sp_1 - 1] == line@[b]);
                    }
                }
            }
            return None;
        },
    };
    let rest_2 = vstd::slice::slice_subrange(line, sp_2 + 1, n);
    match find_byte((' ' as u8), rest_2) {
        Some(k) => {
            proof {
                assert(line@[sp_2 as int] == rest_1@[sp_2 - sp_1 - 1]);
                assert(rest_2@[k as int] == line@[sp_2 + 1 + k]);
                assert forall|a: int, b: int| !two_spaces(line@, a, b) by {
                    if two_spaces(line@, a, b) {
                        let t = sp_2 + 1 + k;
                        if t != a && t != b {
                            assert(line@[t] != (' ' as u8));
                        }
                        if sp_2 != a && sp_2 != b {
                            assert(line@[sp_2 as int] != (' ' as u8));
                        }
                        if sp_1 != a && sp_1 != b {
                            assert(line@[sp_1 as int] != (' ' as u8));
                        }
                    }
                }
            }
            return None;
        },
        None => {},
    }
    proof {
        lemma_spaces_found(line@, sp_1 as int, sp_2 as int);
    }
    Some((sp_1, sp_2))
}

impl RequestParser {
    /// Parses a request line without its `\r\n` (see `spec_parse_request_line`).
    pub fn parse_request_line(line: &[u8]) -> (r: Result<RequestLine, RequestParserError>)
        ensures
            match r {
                Ok(l) => spec_parse_request_line(line@) == Ok::<RequestLineModel, RequestParserError>(l.model()),
                Err(e) => spec_parse_request_line(line@) == Err::<RequestLineModel, RequestParserError>(e),
            },
    {
        if line.len() > MAX_REQUEST_LINE_SIZE - 2 {
            return Err(RequestParserError::RequestLineTooLong);
        }
        let (sp_1, sp_2) = match find_two_spaces(line) {
            Some(p) => p,
            None => {
                return Err(RequestParserError::MalformedRequestLine);
            },
        };
        // The first space comes after a method of at least three bytes, the
        // target takes at least one byte, and the version exactly eight.
        if sp_1 < 3 || (sp_2 - sp_1) < 2 || (line.len() - sp_2) != 9 {
            return Err(RequestParserError::MalformedRequestLine);
        }
        let method = if line[0] == ('G' as u8) && line[1] == ('E' as u8) && line[2] == ('T' as u8)
            && line[3] == (' ' as u8) {
            RequestMethod::GET
        } else if line[0] == ('P' as u8) && line[1] == ('U' as u8) && line[2] == ('T' as u8) && line[3]
            == (' ' as u8) {
            RequestMethod::PUT
        } else if line[0] == ('P' as u8) && line[1] == ('O' as u8) && line[2] == ('S' as u8) && line[3]
            == ('T' as u8) {
            RequestMethod::POST
        } else if line[0] == ('H' as u8) && line[1] == ('E' as u8) && line[2] == ('A' as u8) && line[3]
            == ('D' as u8) {
            RequestMethod::HEAD
        } else if line[0] == ('P' as u8) && line[1] == ('A' as u8) && line[2] == ('T' as u8) && line[3]
            == ('C' as u8) && line[4] == ('H' as u8) {
            RequestMethod::PATCH
        } else if line[0] == ('D' as u8) && line[1] == ('E' as u8) && line[2] == ('L' as u8) && line[3]
            == ('E' as u8) && line[4] == ('T' as u8) && line[5] == ('E' as u8) {
            RequestMethod::DELETE
        } else if line[0] == ('O' as u8) && line[1] == ('P' as u8) && line[2] == ('T' as u8) && line[3]
            == ('I' as u8) && line[4] == ('O' as u8) && line[5] == ('N' as u8) && line[6] == ('S' as u8) {
            RequestMethod::OPTIONS
        } else {
            return Err(RequestParserError::InvalidRequestMethod);
        };
        proof {
            assert(spec_method(line@) == Some(method));
        }
        let target = vstd::slice::slice_subrange(line, sp_1 + 1, sp_2);
        let request_target = match Self::parse_request_target(target) {
            Ok(t) => t,
            Err(e) => {
                return Err(e);
            },
        };
        let v = sp_2 + 1;
        if !(line[v] == ('H' as u8) && line[v + 1] == ('T' as u8) && line[v + 2] == ('T' as u8)
            && line[v + 3] == ('P' as u8) && line[v + 4] == ('/' as u8) && line[v + 5] == ('1' as u8)
            && line[v + 6] == ('.' as u8) && line[v + 7] == ('1' as u8)) {
            proof {
                if ends_with_at(line@, v as int, http_1_1()) {
                    assert(line@[v + 0] == http_1_1()[0]);
                    assert(line@[v + 1] == http_1_1()[1]);
                    assert(line@[v + 2] == http_1_1()[2]);
                    assert(line@[v + 3] == http_1_1()[3]);
                    assert(line@[v + 4] == http_1_1()[4]);
                    assert(line@[v + 5] == http_1_1()[5]);
                    assert(line@[v + 6] == http_1_1()[6]);
                    assert(line@[v + 7] == http_1_1()[7]);
                }
            }
            return Err(RequestParserError::UnsupportedHttpVersion);
        }
        Ok(RequestLine { method, request_target, http_version: HttpVersion::Http11 })
    }
}


/// What `parse` does to a parser in `state` given `buf`. Only the first `\n` of
/// the buffer is looked at. With none, nothing is read. In the request-line
/// state, the line before it is checked and parsed; on success the request line
/// is kept, the `nl` bytes before the `\n` are counted as read and the parser
/// moves on through the headers and the body to done. In any other state the
/// parser moves on to done, reading nothing. On an error the parser is unchanged.
pub open spec fn spec_parse(state: RequestParserState, buf: Seq<u8>) -> (RequestParserState, Option<RequestLineModel>, Result<usize, RequestParserError>) {
    if lacks_byte(buf, ('\n' as u8)) {
        (state, None, Ok(0))
    } else {
        let nl = choose|nl: int| #[trigger] is_first_index(buf, ('\n' as u8), nl);
        if state == RequestParserState::RequestLine {
            match spec_check_line(state, buf, nl, MAX_REQUEST_LINE_SIZE as int, MIN_REQUEST_LINE_SIZE as int) {
                Err(e) => (state, None, Err(e)),
                Ok(_) => match spec_parse_request_line(buf.subrange(0, nl - 1)) {
                    Err(e) => (state, None, Err(e)),
                    Ok(l) => (RequestParserState::Done, Some(l), Ok(nl as usize)),
                },
            }
        } else {
            (RequestParserState::Done, None, Ok(0))
        }
    }
}

/// The first position of a byte is determined by the sequence.
pub proof fn lemma_first_index_unique(s: Seq<u8>, b: u8, i: int, j: int)
    requires
        is_first_index(s, b, i),
        is_first_index(s, b, j),
    ensures
        i == j,
{
}

impl RequestParser {
    /// Checks the line ending at the `\n` at `nl` (see `spec_check_line`).
    fn check_line(&self, buf: &[u8], nl: usize, max_size: usize, min_size: usize) -> (r: Result<usize, RequestParserError>)
        requires
            check_line_defined(self.state, buf@, nl as int, max_size as int, min_size as int),
        ensures
            r == spec_check_line(self.state, buf@, nl as int, max_size as int, min_size as int),
    {
        if nl > max_size - 1 {
            return Err(
                match self.state {
                    RequestParserState::RequestLine => RequestParserError::RequestLineTooLong,
                    _ => RequestParserError::HeaderLineTooLong,
                },
            );
        }
        if nl < min_size - 1 {
            return Err(
                match self.state {
                    RequestParserState::RequestLine => RequestParserError::MalformedRequestLine,
                    _ => RequestParserError::MalformedHeaderLine,
                },
            );
        }
        if nl == 0 || buf[nl - 1] != ('\r' as u8) {
            return Err(RequestParserError::InvalidLineEnding);
        }
        Ok(nl)
    }

    /// Reads from `buf` as far as it can (see `spec_parse`) and returns how many
    /// bytes it took.
    pub fn parse(&mut self, buf: &[u8]) -> (r: Result<usize, RequestParserError>)
        ensures
            ({
                let (state, line, res) = spec_parse(old(self).spec_state(), buf@);
                &&& r == res
                &&& final(self).spec_state() == state
                &&& final(self).spec_request_line() == match line {
                    Some(l) => Some(l),
                    None => old(self).spec_request_line(),
                }
            }),
            final(self).spec_max_body_size() == old(self).spec_max_body_size(),
            final(self).spec_headers() == old(self).spec_headers(),
    {
        let mut read: usize = 0;
        let ghost state0 = self.state;
        loop
            invariant
                read == 0 || (state0 == RequestParserState::RequestLine && self.state
                    != RequestParserState::RequestLine),
                state0 == old(self).state,
                self.max_body_size == old(self).max_body_size,
                self.headers == old(self).headers,
                state0 != RequestParserState::RequestLine ==> self.request_line == old(self).request_line,
                self.state == RequestParserState::RequestLine ==> self.state == state0 && self.request_line
                    == old(self).request_line && read == 0,
                state0 != RequestParserState::RequestLine ==> self.state != RequestParserState::RequestLine,
                (state0 == RequestParserState::RequestLine && self.state != RequestParserState::RequestLine)
                    ==> {
                    let (s, l, res) = spec_parse(state0, buf@);
                    &&& res == Ok::<usize, RequestParserError>(read)
                    &&& l == opt_line_model(self.request_line)
                    &&& !lacks_byte(buf@, ('\n' as u8))
                },
                state0 != RequestParserState::RequestLine && self.state != state0 ==> !lacks_byte(buf@, ('\n' as u8)),
            ensures
                ({
                    let (state, line, res) = spec_parse(state0, buf@);
                    &&& Ok::<usize, RequestParserError>(read) == res
                    &&& self.state == state
                    &&& opt_line_model(self.request_line) == match line {
                        Some(l) => Some(l),
                        None => opt_line_model(old(self).request_line),
                    }
                }),
                self.max_body_size == old(self).max_body_size,
                self.headers == old(self).headers,
            decreases
                (match self.state {
                    RequestParserState::RequestLine => 3int,
                    RequestParserState::Headers => 2int,
                    RequestParserState::Body => 1int,
                    RequestParserState::Done => 0int,
                }),
        {
            let line_end = match find_byte(('\n' as u8), buf) {
                Some(i) => i,
                None => break,
            };
            proof {
                let nl = choose|nl: int| #[trigger] is_first_index(buf@, ('\n' as u8), nl);
                lemma_first_index_unique(buf@, ('\n' as u8), nl, line_end as int);
            }
            match self.state {
                RequestParserState::RequestLine => {
                    match self.check_line(buf, line_end, MAX_REQUEST_LINE_SIZE, MIN_REQUEST_LINE_SIZE) {
                        Ok(_) => {},
                        Err(e) => {
                            return Err(e);
                        },
                    }
                    let line = vstd::slice::slice_subrange(buf, 0, line_end - 1);
                    let request_line = match Self::parse_request_line(line) {
                        Ok(l) => l,
                        Err(e) => {
                            return Err(e);
                        },
                    };
                    self.request_line = Some(request_line);
                    self.state = RequestParserState::Headers;
                    read = read + line_end;
                },
                RequestParserState::Headers => {
                    self.state = RequestParserState::Body;
                },
                RequestParserState::Body => {
                    self.state = RequestParserState::Done;
                },
                RequestParserState::Done => break,
            }
        }
        Ok(read)
    }
}


/// The name of a method, as it is written in a request line.
pub open spec fn method_name(m: RequestMethod) -> Seq<u8> {
    match m {
        RequestMethod::GET => seq![('G' as u8), ('E' as u8), ('T' as u8)],
        RequestMethod::POST => seq![('P' as u8), ('O' as u8), ('S' as u8), ('T' as u8)],
        RequestMethod::PUT => seq![('P' as u8), ('U' as u8), ('T' as u8)],
        RequestMethod::DELETE => seq![('D' as u8), ('E' as u8), ('L' as u8), ('E' as u8), ('T' as u8), ('E' as u8)],
        RequestMethod::HEAD => seq![('H' as u8), ('E' as u8), ('A' as u8), ('D' as u8)],
        RequestMethod::OPTIONS => seq![('O' as u8), ('P' as u8), ('T' as u8), ('I' as u8), ('O' as u8), ('N' as u8), ('S' as u8)],
        RequestMethod::PATCH => seq![('P' as u8), ('A' as u8), ('T' as u8), ('C' as u8), ('H' as u8)],
    }
}

/// The request line `METHOD target HTTP/1.1`.
pub open spec fn compose_request_line(m: RequestMethod, target: Seq<u8>) -> Seq<u8> {
    method_name(m) + seq![(' ' as u8)] + target + seq![(' ' as u8)] + http_1_1()
}

/// Law (round trip): a request line written from a method, a non-empty target of
/// URI bytes and `HTTP/1.1`, within the size limit, parses back to them.
pub proof fn law_parse_composed_line(m: RequestMethod, target: Seq<u8>)
    requires
        target.len() >= 1,
        valid_target(target),
        compose_request_line(m, target).len() <= MAX_REQUEST_LINE_SIZE - 2,
    ensures
        spec_parse_request_line(compose_request_line(m, target)) == Ok::<RequestLineModel, RequestParserError>((m, target, HttpVersion::Http11)),
{
    let line = compose_request_line(m, target);
    let n = method_name(m);
    let a = n.len() as int;
    let b = a + 1 + target.len();
    assert(line.len() == b + 9);
    assert forall|j: int| 0 <= j < line.len() && j != a && j != b implies #[trigger] line[j] != (' ' as u8) by {
        if j < a {
            assert(line[j] == n[j]);
        } else if j < b {
            assert(line[j] == target[j - a - 1]);
            assert(is_uri_byte(target[j - a - 1]));
        } else {
            assert(line[j] == http_1_1()[j - b - 1]);
        }
    }
    assert(two_spaces(line, a, b));
    let (c, d) = choose|c: int, d: int| two_spaces(line, c, d);
    lemma_two_spaces_unique(line, c, d, a, b);
    assert(line.subrange(a + 1, b) =~= target);
    assert forall|k: int| 0 <= k < 8 implies line[b + 1 + k] == #[trigger] http_1_1()[k] by {}
    assert(spec_method(line) == Some(m)) by {
        assert forall|k: int| 0 <= k < n.len() implies line[k] == #[trigger] n[k] by {}
        assert(line[a] == (' ' as u8));
    }
}

/// An RFC 3986 `unreserved` character: `ALPHA / DIGIT / "-" / "." / "_" / "~"`.
pub open spec fn rfc3986_unreserved(c: u8) -> bool {
    (0x41 <= c <= 0x5a) || (0x61 <= c <= 0x7a) || (0x30 <= c <= 0x39) || c == 0x2d || c == 0x2e || c == 0x5f
        || c == 0x7e
}

/// An RFC 3986 `gen-delims` character: `":" / "/" / "?" / "#" / "[" / "]" / "@"`.
pub open spec fn rfc3986_gen_delim(c: u8) -> bool {
    c == 0x3a || c == 0x2f || c == 0x3f || c == 0x23 || c == 0x5b || c == 0x5d || c == 0x40
}

/// An RFC 3986 `sub-delims` character: `"!" / "$" / "&" / "'" / "(" / ")" / "*"
/// / "+" / "," / ";" / "="`.
pub open spec fn rfc3986_sub_delim(c: u8) -> bool {
    c == 0x21 || c == 0x24 || c == 0x26 || c == 0x27 || c == 0x28 || c == 0x29 || c == 0x2a || c == 0x2b
        || c == 0x2c || c == 0x3b || c == 0x3d
}

/// Law (URI bytes): every RFC 3986 unreserved or reserved character, and the
/// `%` that starts a percent-encoding, may stand in a request target.
pub proof fn law_rfc3986_bytes_accepted(c: u8)
    requires
        rfc3986_unreserved(c) || rfc3986_gen_delim(c) || rfc3986_sub_delim(c) || c == 0x25,
    ensures
        is_uri_byte(c),
{
}

/// Law (targets of URI characters parse): a request line written from a
/// method, a non-empty target made of RFC 3986 unreserved and reserved
/// characters and `%`, and `HTTP/1.1`, within the size limit, parses back to
/// that method, that target and HTTP/1.1.
pub proof fn law_parse_rfc3986_target(m: RequestMethod, target: Seq<u8>)
    requires
        target.len() >= 1,
        forall|i: int|
            0 <= i < target.len() ==> rfc3986_unreserved(#[trigger] target[i]) || rfc3986_gen_delim(target[i])
                || rfc3986_sub_delim(target[i]) || target[i] == 0x25,
        compose_request_line(m, target).len() <= MAX_REQUEST_LINE_SIZE - 2,
    ensures
        spec_parse_request_line(compose_request_line(m, target)) == Ok::<RequestLineModel, RequestParserError>((m, target, HttpVersion::Http11)),
{
    assert forall|i: int| 0 <= i < target.len() implies is_uri_byte(#[trigger] target[i]) by {
        law_rfc3986_bytes_accepted(target[i]);
    }
    law_parse_composed_line(m, target);
}

/// Law (request line in a buffer): parsing a buffer that starts with a request
/// line ending in `\r\n` reads the line up to its `\r`, keeps what parsing the
/// line alone gives, and finishes the request.
pub proof fn law_parse_buffer_with_line(line: Seq<u8>, rest: Seq<u8>, l: RequestLineModel)
    requires
        lacks_byte(line, ('\n' as u8)),
        spec_parse_request_line(line) == Ok::<RequestLineModel, RequestParserError>(l),
    ensures
        spec_parse(RequestParserState::RequestLine, line + seq![('\r' as u8), ('\n' as u8)] + rest)
            == (RequestParserState::Done, Some(l), Ok::<usize, RequestParserError>((line.len() + 1) as usize)),
{
    let buf = line + seq![('\r' as u8), ('\n' as u8)] + rest;
    let nl: int = line.len() as int + 1;
    assert(buf[nl] == ('\n' as u8));
    assert forall|j: int| 0 <= j < nl implies buf[j] != ('\n' as u8) by {
        if j < line.len() {
            assert(buf[j] == line[j]);
        }
    }
    assert(is_first_index(buf, ('\n' as u8), nl));
    let c = choose|c: int| #[trigger] is_first_index(buf, ('\n' as u8), c);
    lemma_first_index_unique(buf, ('\n' as u8), c, nl);
    assert(buf.subrange(0, nl - 1) =~= line);
    let (a, b) = choose|a: int, b: int| two_spaces(line, a, b);
}

} // verus!
