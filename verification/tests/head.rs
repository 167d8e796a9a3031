use tpu::cmd::head::{run, HeadMode};
use tpu::cmd::tail;
use tpu::cmd::tail::TailMode;

fn lines(content: &[u8], n: usize, numbers: bool) -> Vec<u8> {
    run(content, HeadMode::Lines { n, numbers }).unwrap().bytes
}

fn bytes(content: &[u8], n: u64) -> Vec<u8> {
    run(content, HeadMode::Bytes { n }).unwrap().bytes
}

fn last_lines(content: &[u8], n: usize, numbers: bool) -> Vec<u8> {
    tail::run(content, TailMode::Lines { n, numbers }).unwrap().bytes
}

fn last_bytes(content: &[u8], n: u64) -> Vec<u8> {
    tail::run(content, TailMode::Bytes { n }).unwrap().bytes
}

/// All lines of a text that does not end in a line ending: none is added.
#[test]
fn run_lines_no_trailing_newline_all_requested_omits_final_terminator() {
    assert_eq!(lines(b"aaa\nbbb\nccc", 10, false), b"aaa\nbbb\nccc");
}

/// Fewer lines than there are: the last one shown is ended, as more follows it.
#[test]
fn run_lines_no_trailing_newline_partial_request_terminates_last_printed_line() {
    assert_eq!(lines(b"aaa\nbbb\nccc", 2, false), b"aaa\nbbb\n");
}

#[test]
fn run_bytes_zero_requested_on_nonempty_file_emits_nothing() {
    assert!(bytes(b"hello", 0).is_empty());
}

#[test]
fn run_bytes_nonzero_requested_on_empty_file_emits_nothing() {
    assert!(bytes(b"", 5).is_empty());
}

#[test]
fn head_keeps_crlf_line_endings() {
    assert_eq!(lines(b"a\r\nb\r\nc\r\n", 2, false), b"a\r\nb\r\n");
}

#[test]
fn head_numbers_lines() {
    assert_eq!(lines(b"a\nb\nc\n", 2, true), b"1\ta\n2\tb\n");
}

#[test]
fn head_bytes_are_taken_as_they_are() {
    assert_eq!(bytes(b"\xFF\x00\r\n", 3), b"\xFF\x00\r");
    assert_eq!(bytes(b"ab", 9), b"ab");
}

#[test]
fn head_hands_back_the_text() {
    let out = run(b"a\r\nb", HeadMode::Lines { n: 1, numbers: false }).unwrap();
    assert_eq!(out.text.as_deref(), Some("a\nb"));
    assert!(run(b"a", HeadMode::Bytes { n: 1 }).unwrap().text.is_none());
}

#[test]
fn tail_shows_the_last_lines() {
    assert_eq!(last_lines(b"a\nb\nc\n", 2, false), b"b\nc\n");
    assert_eq!(last_lines(b"a\nb\nc", 2, false), b"b\nc");
    assert_eq!(last_lines(b"a\r\nb\r\nc\r\n", 1, false), b"c\r\n");
    assert_eq!(last_lines(b"a\nb\nc\n", 2, true), b"2\tb\n3\tc\n");
    assert_eq!(last_lines(b"a\n", 0, false), b"");
    assert_eq!(last_lines(b"", 3, false), b"");
}

#[test]
fn tail_shows_the_last_bytes() {
    assert_eq!(last_bytes(b"hello", 2), b"lo");
    assert_eq!(last_bytes(b"hello", 9), b"hello");
    assert_eq!(last_bytes(b"", 9), b"");
}

#[test]
fn tail_decodes_utf16() {
    assert_eq!(last_lines(b"\xFF\xFEa\x00\n\x00b\x00\n\x00", 1, false), b"b\n");
}

#[test]
fn head_and_tail_make_up_the_file() {
    for content in [&b"a\nb\nc\n"[..], b"a\r\n\r\nc", b"a\rb\rc\r", b"\xEF\xBB\xBFa\nb", b"a", b""] {
        let whole = lines(content, 10, false);
        let count = whole
            .iter()
            .enumerate()
            .filter(|(i, b)| **b == b'\n' || (**b == b'\r' && whole.get(i + 1) != Some(&b'\n')))
            .count()
            + usize::from(!whole.is_empty() && !whole.ends_with(b"\n") && !whole.ends_with(b"\r"));
        for n in 0..=count {
            let mut both = lines(content, n, false);
            both.extend(last_lines(content, count - n, false));
            assert_eq!(both, whole);
        }
    }
}
