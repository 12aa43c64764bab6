use chapter_4::readers::{finish_line, split_chunk, take_line};

#[test]
fn readers_test_read_lines_stream() {
    let data = b"Hello, world!\nThis is a test.\nAnother line.";
    let mut lines = Vec::new();
    let mut line = Vec::new();
    for chunk in data.chunks(8) {
        lines.extend(split_chunk(&mut line, chunk));
    }
    if let Some(last) = finish_line(line) {
        lines.push(last);
    }
    assert_eq!(lines.len(), 3);
    assert_eq!(lines[0], b"Hello, world!");
    assert_eq!(lines[1], b"This is a test.");
    assert_eq!(lines[2], b"Another line.");
}

#[test]
fn split_chunk_does_not_depend_on_chunking() {
    let data = b"ab\ncd\n\nef";
    let mut whole_line = Vec::new();
    let whole = split_chunk(&mut whole_line, data);
    for size in 1..data.len() {
        let mut line = Vec::new();
        let mut lines = Vec::new();
        for chunk in data.chunks(size) {
            lines.extend(split_chunk(&mut line, chunk));
        }
        assert_eq!(lines, whole);
        assert_eq!(line, whole_line);
    }
    assert_eq!(whole, vec![b"ab".to_vec(), b"cd".to_vec(), b"".to_vec()]);
    assert_eq!(whole_line, b"ef");
    assert_eq!(finish_line(Vec::new()), None);
}

#[test]
fn take_line_splits_at_first_newline() {
    let mut line_buf = b"Hel".to_vec();
    assert_eq!(take_line(&mut line_buf, b"lo\nwo\nrl"), Some(b"Hello".to_vec()));
    assert_eq!(line_buf, b"wo\nrl");
    assert_eq!(take_line(&mut line_buf, b"d!"), None);
    assert_eq!(line_buf, b"wo\nrld!");
}
