//! A request parser fed one line at a time, as lines arrive from a reader.
//! Every line must end with `\r` (the `\n` has been split off already); the
//! first line is the request line, which is split at its two spaces.

use vstd::prelude::*;

use crate::request::parser::{find_two_spaces, http_1_1, method_name, two_spaces};
use crate::request::RequestMethod;


verus! {

/// Why a request was refused.
#[derive(Clone, Copy, PartialEq, Eq, Structural, Debug)]
pub enum RequestError {
    InvalidLineEnding,
    MalformedRequestLine,
    InvalidRequestMethod,
    UnsupportedHttpVersion,
    RequestParsingError,
}

/// The section the parser expects next.
#[derive(Clone, Copy, PartialEq, Eq, Structural, Debug)]
pub enum RequestParserState {
    RequestLine,
    Headers,
    Body,
    Done,
}

/// The three sections of a request line, as written.
#[derive(Debug)]
pub struct RequestLine {
    pub method: Vec<u8>,
    pub request_target: Vec<u8>,
    pub http_version: Vec<u8>,
}

/// A request: so far, its request line.
#[derive(Debug)]
pub struct Request {
    pub request_line: RequestLine,
}

/// A request line's method, target and version bytes.
pub type LineModel = (Seq<u8>, Seq<u8>, Seq<u8>);

impl RequestLine {
    pub open spec fn model(&self) -> LineModel {
        (self.method@, self.request_target@, self.http_version@)
    }
}

/// The model of an optional request line.
pub open spec fn opt_model(o: Option<RequestLine>) -> Option<LineModel> {
    match o {
        Some(l) => Some(l.model()),
        None => None,
    }
}

/// `m` is the name of one of the accepted methods.
pub open spec fn is_method(m: Seq<u8>) -> bool {
    exists|k: RequestMethod| m == #[trigger] method_name(k)
}

/// What parsing a request line (without its `\r`) gives: a line without
/// exactly two spaces is malformed; its three sections must be an accepted
/// method and `HTTP/1.1`; the version is kept without its `HTTP/`.
pub open spec fn spec_parse_request_line(line: Seq<u8>) -> Result<LineModel, RequestError> {
    if !(exists|a: int, b: int| two_spaces(line, a, b)) {
        Err(RequestError::MalformedRequestLine)
    } else {
        let (a, b) = choose|a: int, b: int| two_spaces(line, a, b);
        let method = line.subrange(0, a);
        let target = line.subrange(a + 1, b);
        let version = line.subrange(b + 1, line.len() as int);
        if !is_method(method) {
            Err(RequestError::InvalidRequestMethod)
        } else if version != http_1_1() {
            Err(RequestError::UnsupportedHttpVersion)
        } else {
            Ok((method, target, version.subrange(5, 8)))
        }
    }
}

/// Whether `a` and `b` hold the same bytes.
fn bytes_eq(a: &[u8], b: &[u8]) -> (r: bool)
    ensures
        r == (a@ == b@),
{
    if a.len() != b.len() {
        return false;
    }
    let mut i: usize = 0;
    while i < a.len()
        invariant
            a@.len() == b@.len(),
            i <= a@.len(),
            forall|k: int| 0 <= k < i ==> a@[k] == b@[k],
        decreases a@.len() - i,
    {
        if a[i] != b[i] {
            return false;
        }
        i = i + 1;
    }
    assert(a@ =~= b@);
    true
}

/// The bytes of a method's name.
fn method_bytes(m: RequestMethod) -> (v: Vec<u8>)
    ensures
        v@ == method_name(m),
{
    let v: Vec<u8> = match m {
        RequestMethod::GET => vec![('G' as u8), ('E' as u8), ('T' as u8)],
        RequestMethod::POST => vec![('P' as u8), ('O' as u8), ('S' as u8), ('T' as u8)],
        RequestMethod::PUT => vec![('P' as u8), ('U' as u8), ('T' as u8)],
        RequestMethod::DELETE => vec![('D' as u8), ('E' as u8), ('L' as u8), ('E' as u8), ('T' as u8), ('E' as u8)],
        RequestMethod::HEAD => vec![('H' as u8), ('E' as u8), ('A' as u8), ('D' as u8)],
        RequestMethod::OPTIONS => vec![('O' as u8), ('P' as u8), ('T' as u8), ('I' as u8), ('O' as u8), ('N' as u8), ('S' as u8)],
        RequestMethod::PATCH => vec![('P' as u8), ('A' as u8), ('T' as u8), ('C' as u8), ('H' as u8)],
    };
    assert(v@ =~= method_name(m));
    v
}

/// Whether `m` names an accepted method.
fn is_method_name(m: &[u8]) -> (r: bool)
    ensures
        r == is_method(m@),
{
    let all = [RequestMethod::GET, RequestMethod::POST, RequestMethod::PUT, RequestMethod::DELETE,
        RequestMethod::HEAD, RequestMethod::OPTIONS, RequestMethod::PATCH];
    let mut i: usize = 0;
    while i < 7
        invariant
            i <= 7,
            all@ == seq![RequestMethod::GET, RequestMethod::POST, RequestMethod::PUT, RequestMethod::DELETE,
                RequestMethod::HEAD, RequestMethod::OPTIONS, RequestMethod::PATCH],
            forall|k: int| 0 <= k < i ==> m@ != method_name(#[trigger] all@[k]),
        decreases 7 - i,
    {
        let name = method_bytes(all[i]);
        if bytes_eq(m, name.as_slice()) {
            return true;
        }
        i = i + 1;
    }
    assert forall|k: RequestMethod| m@ != #[trigger] method_name(k) by {
        match k {
            RequestMethod::GET => assert(m@ != method_name(all@[0])),
            RequestMethod::POST => assert(m@ != method_name(all@[1])),
            RequestMethod::PUT => assert(m@ != method_name(all@[2])),
            RequestMethod::DELETE => assert(m@ != method_name(all@[3])),
            RequestMethod::HEAD => assert(m@ != method_name(all@[4])),
            RequestMethod::OPTIONS => assert(m@ != method_name(all@[5])),
            RequestMethod::PATCH => assert(m@ != method_name(all@[6])),
        }
    }
    false
}


/// Splits a request line (without its `\r`) at its two spaces and checks the
/// method and the version (see `spec_parse_request_line`).
pub fn parse_request_line(line: &[u8]) -> (r: Result<RequestLine, RequestError>)
    ensures
        match r {
            Ok(l) => spec_parse_request_line(line@) == Ok::<LineModel, RequestError>(l.model()),
            Err(e) => spec_parse_request_line(line@) == Err::<LineModel, RequestError>(e),
        },
{
    let n = line.len();
    let (sp_1, sp_2) = match find_two_spaces(line) {
        Some(p) => p,
        None => {
            return Err(RequestError::MalformedRequestLine);
        },
    };
    let method = vstd::slice::slice_subrange(line, 0, sp_1);
    let request_target = vstd::slice::slice_subrange(line, sp_1 + 1, sp_2);
    let version = vstd::slice::slice_subrange(line, sp_2 + 1, n);
    if !is_method_name(method) {
        return Err(RequestError::InvalidRequestMethod);
    }
    let http_1_1_bytes: Vec<u8> = vec![('H' as u8), ('T' as u8), ('T' as u8), ('P' as u8), ('/' as u8),
        ('1' as u8), ('.' as u8), ('1' as u8)];
    assert(http_1_1_bytes@ =~= http_1_1());
    if !bytes_eq(version, http_1_1_bytes.as_slice()) {
        return Err(RequestError::UnsupportedHttpVersion);
    }
    let http_version = vstd::slice::slice_subrange(version, 5, version.len());
    Ok(RequestLine {
        method: vstd::slice::slice_to_vec(method),
        request_target: vstd::slice::slice_to_vec(request_target),
        http_version: vstd::slice::slice_to_vec(http_version),
    })
}

/// What one line does to a parser in `state` holding `line_so_far`: a line not
/// ending in `\r` is refused; otherwise, without its `\r`, the first line is
/// parsed as the request line and every later line moves the parser on, until a
/// line read when done stops it. The result tells whether to read on.
pub open spec fn spec_step(state: RequestParserState, line_so_far: Option<LineModel>, line: Seq<u8>) -> Result<(RequestParserState, Option<LineModel>, bool), RequestError> {
    if line.len() == 0 || line.last() != ('\r' as u8) {
        Err(RequestError::InvalidLineEnding)
    } else {
        let content = line.drop_last();
        match state {
            RequestParserState::RequestLine => match spec_parse_request_line(content) {
                Err(e) => Err(e),
                Ok(l) => Ok((RequestParserState::Headers, Some(l), true)),
            },
            RequestParserState::Headers => Ok((RequestParserState::Body, line_so_far, true)),
            RequestParserState::Body => Ok((RequestParserState::Done, line_so_far, true)),
            RequestParserState::Done => Ok((RequestParserState::Done, line_so_far, false)),
        }
    }
}

/// The request made of a parsed request line, or the error for a request
/// without one.
pub open spec fn spec_finish(line_so_far: Option<LineModel>) -> Result<LineModel, RequestError> {
    match line_so_far {
        Some(l) => Ok(l),
        None => Err(RequestError::RequestParsingError),
    }
}

/// What parsing the given lines, one after another, gives.
pub open spec fn spec_parse_lines(state: RequestParserState, line_so_far: Option<LineModel>, lines: Seq<Seq<u8>>) -> Result<LineModel, RequestError>
    decreases lines.len(),
{
    if lines.len() == 0 {
        spec_finish(line_so_far)
    } else {
        match spec_step(state, line_so_far, lines[0]) {
            Err(e) => Err(e),
            Ok((s, l, read_on)) => if read_on {
                spec_parse_lines(s, l, lines.drop_first())
            } else {
                spec_finish(l)
            },
        }
    }
}

/// A parser of one request, fed the lines of a stream.
pub struct RequestParser {
    state: RequestParserState,
}

impl RequestParser {
    /// The section the parser expects next.
    pub closed spec fn spec_state(&self) -> RequestParserState {
        self.state
    }

    /// A parser expecting the request line.
    pub fn new() -> (p: RequestParser)
        ensures
            p.spec_state() == RequestParserState::RequestLine,
    {
        RequestParser { state: RequestParserState::RequestLine }
    }

    /// Takes one line (see `spec_step`); on success says whether to read on.
    /// On an error the parser and the request line are left as they were.
    pub fn step(&mut self, line: &[u8], request_line: &mut Option<RequestLine>) -> (r: Result<bool, RequestError>)
        ensures
            match spec_step(old(self).spec_state(), opt_model(*old(request_line)), line@) {
                Err(e) => r == Err::<bool, RequestError>(e) && final(self).spec_state() == old(self).spec_state()
                    && opt_model(*final(request_line)) == opt_model(*old(request_line)),
                Ok((s, l, read_on)) => r == Ok::<bool, RequestError>(read_on) && final(self).spec_state() == s
                    && opt_model(*final(request_line)) == l,
            },
    {
        if line.len() == 0 || line[line.len() - 1] != ('\r' as u8) {
            return Err(RequestError::InvalidLineEnding);
        }
        let content = vstd::slice::slice_subrange(line, 0, line.len() - 1);
        assert(content@ =~= line@.drop_last());
        match self.state {
            RequestParserState::RequestLine => {
                match parse_request_line(content) {
                    Ok(l) => {
                        *request_line = Some(l);
                    },
                    Err(e) => {
                        return Err(e);
                    },
                }
                self.state = RequestParserState::Headers;
            },
            RequestParserState::Headers => {
                self.state = RequestParserState::Body;
            },
            RequestParserState::Body => {
                self.state = RequestParserState::Done;
            },
            RequestParserState::Done => {
                return Ok(false);
            },
        }
        Ok(true)
    }

    /// The request, once the lines are over.
    pub fn finish(request_line: Option<RequestLine>) -> (r: Result<Request, RequestError>)
        ensures
            match r {
                Ok(req) => spec_finish(opt_model(request_line)) == Ok::<LineModel, RequestError>(req.request_line.model()),
                Err(e) => spec_finish(opt_model(request_line)) == Err::<LineModel, RequestError>(e),
            },
    {
        match request_line {
            Some(l) => Ok(Request { request_line: l }),
            None => Err(RequestError::RequestParsingError),
        }
    }

    /// Parses a request from its lines, in order (see `spec_parse_lines`).
    pub fn parse_lines(&mut self, lines: &Vec<Vec<u8>>) -> (r: Result<Request, RequestError>)
        ensures
            match r {
                Ok(req) => spec_parse_lines(old(self).spec_state(), None, lines@.map_values(|l: Vec<u8>| l@))
                    == Ok::<LineModel, RequestError>(req.request_line.model()),
                Err(e) => spec_parse_lines(old(self).spec_state(), None, lines@.map_values(|l: Vec<u8>| l@))
                    == Err::<LineModel, RequestError>(e),
            },
    {
        let ghost all = lines@.map_values(|l: Vec<u8>| l@);
        let mut request_line: Option<RequestLine> = None;
        let mut i: usize = 0;
        assert(all.skip(0) =~= all);
        while i < lines.len()
            invariant
                i <= lines@.len(),
                all == lines@.map_values(|l: Vec<u8>| l@),
                spec_parse_lines(old(self).spec_state(), None, all) == spec_parse_lines(
                    self.state,
                    opt_model(request_line),
                    all.skip(i as int),
                ),
            decreases lines@.len() - i,
        {
            assert(all.skip(i as int)[0] == lines@[i as int]@);
            assert(all.skip(i as int).drop_first() =~= all.skip(i + 1));
            match self.step(lines[i].as_slice(), &mut request_line) {
                Ok(true) => {},
                Ok(false) => {
                    return Self::finish(request_line);
                },
                Err(e) => {
                    return Err(e);
                },
            }
            i = i + 1;
        }
        assert(all.skip(i as int) =~= Seq::<Seq<u8>>::empty());
        Self::finish(request_line)
    }
}


/// The line `METHOD target HTTP/1.1` followed by `\r`.
pub open spec fn request_line_with_cr(m: RequestMethod, target: Seq<u8>) -> Seq<u8> {
    method_name(m) + seq![(' ' as u8)] + target + seq![(' ' as u8)] + http_1_1() + seq![('\r' as u8)]
}

/// `line` ends with `\r`.
pub open spec fn ends_with_cr(line: Seq<u8>) -> bool {
    line.len() > 0 && line.last() == ('\r' as u8)
}

/// The number of lines a parser in `state` takes after the request line before
/// it stops: one per section left, and the one that finds it done.
pub open spec fn lines_until_stop(state: RequestParserState) -> int {
    match state {
        RequestParserState::RequestLine => 4,
        RequestParserState::Headers => 3,
        RequestParserState::Body => 2,
        RequestParserState::Done => 1,
    }
}

/// `METHOD target HTTP/1.1`, for a target without spaces, parses to its method,
/// target and version `1.1`.
proof fn lemma_written_line_parses(m: RequestMethod, target: Seq<u8>)
    requires
        lacks_space(target),
    ensures
        spec_parse_request_line(request_line_with_cr(m, target).drop_last())
            == Ok::<LineModel, RequestError>((method_name(m), target, seq![('1' as u8), ('.' as u8), ('1' as u8)])),
{
    let content = request_line_with_cr(m, target).drop_last();
    let n = method_name(m);
    let a = n.len() as int;
    let b = a + 1 + target.len();
    assert(content =~= n + seq![(' ' as u8)] + target + seq![(' ' as u8)] + http_1_1());
    assert forall|j: int| 0 <= j < content.len() && j != a && j != b implies #[trigger] content[j] != (' ' as u8) by {
        if j < a {
            assert(content[j] == n[j]);
        } else if j < b {
            assert(content[j] == target[j - a - 1]);
        } else {
            assert(content[j] == http_1_1()[j - b - 1]);
        }
    }
    assert(two_spaces(content, a, b));
    let (c, d) = choose|c: int, d: int| two_spaces(content, c, d);
    crate::request::parser::lemma_two_spaces_unique(content, c, d, a, b);
    assert(content.subrange(0, a) =~= n);
    assert(content.subrange(a + 1, b) =~= target);
    assert(content.subrange(b + 1, content.len() as int) =~= http_1_1());
    assert(is_method(n));
    assert(http_1_1().subrange(5, 8) =~= seq![('1' as u8), ('.' as u8), ('1' as u8)]);
}

/// Law (round trip): lines that start with `METHOD target HTTP/1.1\r`, for a
/// target without spaces, and go on with lines ending in `\r` up to where the
/// parser stops, parse to that method, target and version `1.1`.
pub proof fn law_parse_lines_round_trip(m: RequestMethod, target: Seq<u8>, rest: Seq<Seq<u8>>)
    requires
        lacks_space(target),
        forall|k: int| 0 <= k < rest.len() && k < 3 ==> ends_with_cr(#[trigger] rest[k]),
    ensures
        spec_parse_lines(RequestParserState::RequestLine, None, seq![request_line_with_cr(m, target)] + rest)
            == Ok::<LineModel, RequestError>((method_name(m), target, seq![('1' as u8), ('.' as u8), ('1' as u8)])),
{
    lemma_written_line_parses(m, target);
    let line = request_line_with_cr(m, target);
    let l = (method_name(m), target, seq![('1' as u8), ('.' as u8), ('1' as u8)]);
    let all = seq![line] + rest;
    assert(all[0] == line);
    assert(all.drop_first() =~= rest);
    lemma_parse_after_request_line(RequestParserState::Headers, l, rest);
}

/// After the request line, lines ending in `\r` move the parser to done, and the
/// line after them stops it; the request line is kept.
proof fn lemma_parse_after_request_line(state: RequestParserState, l: LineModel, rest: Seq<Seq<u8>>)
    requires
        state != RequestParserState::RequestLine,
        forall|k: int| 0 <= k < rest.len() && k < lines_until_stop(state) ==> ends_with_cr(#[trigger] rest[k]),
    ensures
        spec_parse_lines(state, Some(l), rest) == Ok::<LineModel, RequestError>(l),
    decreases rest.len(),
{
    if rest.len() > 0 {
        assert(ends_with_cr(rest[0]));
        if state != RequestParserState::Done {
            let next = match state {
                RequestParserState::Headers => RequestParserState::Body,
                _ => RequestParserState::Done,
            };
            assert forall|k: int| 0 <= k < rest.drop_first().len() && k < lines_until_stop(next) implies ends_with_cr(#[trigger] rest.drop_first()[k]) by {
                assert(rest.drop_first()[k] == rest[k + 1]);
            }
            lemma_parse_after_request_line(next, l, rest.drop_first());
        }
    }
}

/// No byte of `s` is a space.
pub open spec fn lacks_space(s: Seq<u8>) -> bool {
    forall|i: int| 0 <= i < s.len() ==> #[trigger] s[i] != (' ' as u8)
}

/// Law: a stream of lines that ends before a request line was read gives no request.
pub proof fn law_no_lines_no_request(state: RequestParserState)
    ensures
        spec_parse_lines(state, None, Seq::empty()) == Err::<LineModel, RequestError>(RequestError::RequestParsingError),
{
}

} // verus!
