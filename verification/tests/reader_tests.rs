use kafka_key_guestimator::reader::jsonl_lines;

#[test]
fn reads_all_nonempty_lines() {
    let lines = jsonl_lines(b"{\"a\":1}\n{\"b\":2}\n");
    assert_eq!(lines, vec![r#"{"a":1}"#, r#"{"b":2}"#]);
}

#[test]
fn filters_blank_and_whitespace_only_lines() {
    let lines = jsonl_lines(b"{\"a\":1}\n\n   \n{\"b\":2}\n");
    assert_eq!(lines.len(), 2);
}

#[test]
fn trims_whitespace_from_lines() {
    let lines = jsonl_lines(b"  {\"a\":1}  \n");
    assert_eq!(lines[0], r#"{"a":1}"#);
}

#[test]
fn handles_invalid_utf8_with_replacement() {
    // \xFF\xFE is not valid UTF-8; from_utf8_lossy replaces with U+FFFD (non-blank)
    let lines = jsonl_lines(b"valid\n\xFF\xFE\n{\"ok\":true}\n");
    assert_eq!(lines.len(), 3);
}

#[test]
fn empty_file_returns_empty_vec() {
    let lines = jsonl_lines(b"");
    assert!(lines.is_empty());
}

#[test]
fn crlf_line_ends_and_missing_final_newline() {
    let lines = jsonl_lines(b"one\r\n\r\n two \r\nthree");
    assert_eq!(lines, vec!["one", "two", "three"]);
}

#[test]
fn invalid_bytes_become_replacement_characters() {
    let lines = jsonl_lines(b"a\xFFb");
    assert_eq!(lines, vec!["a\u{FFFD}b"]);
}
