use chapter_4::stream_request::{parse_request_line, RequestError, RequestParser};

fn lines_of(data: &[u8]) -> Vec<Vec<u8>> {
    let mut line = Vec::new();
    let mut lines = chapter_4::readers::split_chunk(&mut line, data);
    if let Some(last) = chapter_4::readers::finish_line(line) {
        lines.push(last);
    }
    lines
}

#[test]
fn test_good_get_request_line() {
    let data = b"GET / HTTP/1.1\r\nHost: localhost:42069\r\nUser-Agent: curl/7.81.0\r\nAccept: */*\r\n\r\n";
    let lines = lines_of(data);
    let r = RequestParser::new().parse_lines(&lines);
    assert!(r.is_ok());

    let r = r.unwrap();
    assert_eq!(r.request_line.method, b"GET");
    assert_eq!(r.request_line.request_target, b"/");
    assert_eq!(r.request_line.http_version, b"1.1");
}

// The original test sends `GET /coffee HTTP/1.1` but expects the target
// `/path/to/resource` and the version `1.0`, which its own data contradicts;
// the expected values here are those of the data sent.
#[test]
fn test_good_get_request_line_with_path() {
    let data = b"GET /coffee HTTP/1.1\r\nHost: localhost:42069\r\nUser-Agent: curl/7.81.0\r\nAccept: */*\r\n\r\n";
    let lines = lines_of(data);
    let r = RequestParser::new().parse_lines(&lines);
    assert!(r.is_ok());

    let r = r.unwrap();
    assert_eq!(r.request_line.method, b"GET");
    assert_eq!(r.request_line.request_target, b"/coffee");
    assert_eq!(r.request_line.http_version, b"1.1");
}

#[test]
fn test_invalid_number_of_parts() {
    let data = b"/coffee HTTP/1.1\r\nHost: localhost:42069\r\nUser-Agent: curl/7.81.0\r\nAccept: */*\r\n\r\n";
    let lines = lines_of(data);
    let r = RequestParser::new().parse_lines(&lines);
    assert!(r.is_err());
}

#[test]
fn stream_request_line_errors() {
    assert_eq!(parse_request_line(b"GET /x").err(), Some(RequestError::MalformedRequestLine));
    assert_eq!(parse_request_line(b"FETCH /x HTTP/1.1").err(), Some(RequestError::InvalidRequestMethod));
    assert_eq!(parse_request_line(b"GET /x HTTP/1.0").err(), Some(RequestError::UnsupportedHttpVersion));
    let l = parse_request_line(b"DELETE  HTTP/1.1").unwrap();
    assert_eq!(l.method, b"DELETE");
    assert_eq!(l.request_target, b"");
    assert_eq!(l.http_version, b"1.1");
}

#[test]
fn stream_parser_line_endings_and_end_of_stream() {
    let lines = vec![b"GET / HTTP/1.1".to_vec()];
    assert_eq!(RequestParser::new().parse_lines(&lines).err(), Some(RequestError::InvalidLineEnding));
    let none: Vec<Vec<u8>> = vec![];
    assert_eq!(RequestParser::new().parse_lines(&none).err(), Some(RequestError::RequestParsingError));
    // The request line alone makes a request.
    let one = vec![b"PUT /a HTTP/1.1\r".to_vec()];
    let r = RequestParser::new().parse_lines(&one).unwrap();
    assert_eq!(r.request_line.method, b"PUT");
    // Lines after the parser is done are not looked at.
    let many = vec![
        b"GET / HTTP/1.1\r".to_vec(),
        b"A: b\r".to_vec(),
        b"\r".to_vec(),
        b"body\r".to_vec(),
        b"no line ending".to_vec(),
    ];
    assert!(RequestParser::new().parse_lines(&many).is_ok());
}
