use tpu::cmd::append;
use tpu::cmd::write::{encode_new_file_content, run, run_binary};
use tpu::encoding::{BomPolicy, LineEnding, OutputEncoding};

fn write_text(existing: Option<&[u8]>, input: &str) -> Vec<u8> {
    run(
        "f.txt",
        existing,
        input,
        OutputEncoding::Preserve,
        BomPolicy::Strip,
        None,
        false,
        false,
    )
    .unwrap()
    .bytes
}

fn text_diff(existing: &[u8], input: &str) -> String {
    run(
        "f.txt",
        Some(existing),
        input,
        OutputEncoding::Preserve,
        BomPolicy::Strip,
        None,
        false,
        true,
    )
    .unwrap()
    .diff
    .unwrap()
}

// ── Text ────────────────────────────────────────────────────────────────────

#[test]
fn write_creates_new_utf8_lf_file() {
    let result = write_text(None, "hello\n");
    assert_eq!(result, b"hello\n");
}

#[test]
fn write_preserves_crlf_line_ending() {
    let result = write_text(Some(b"old\r\n"), "new\n");
    assert_eq!(result, b"new\r\n");
}

#[test]
fn write_text_diff_shows_change() {
    let diff = text_diff(b"hello world\n", "hello Rust\n");
    assert!(diff.contains("-hello world"), "missing removed: {diff:?}");
    assert!(diff.contains("+hello Rust"), "missing added: {diff:?}");
}

#[test]
fn write_text_diff_no_change_is_empty() {
    let diff = text_diff(b"unchanged\n", "unchanged\n");
    assert!(!diff.contains("@@"), "expected no diff hunks: {diff:?}");
}

#[test]
fn write_text_diff_multiple_lines() {
    let diff = text_diff(b"aaa\nbbb\nccc\n", "aaa\nXXX\nccc\n");
    assert!(diff.contains("-bbb"), "missing removed line: {diff:?}");
    assert!(diff.contains("+XXX"), "missing added line: {diff:?}");
}

#[test]
fn write_text_diff_crlf_file_normalizes() {
    let diff = text_diff(b"same\r\n", "same\n");
    assert!(!diff.contains("@@"), "no diff expected (same text): {diff:?}");
}

#[test]
fn write_keeps_a_byte_order_mark() {
    assert_eq!(write_text(Some(b"\xEF\xBB\xBFold\n"), "new\n"), b"\xEF\xBB\xBFnew\n");
}

#[test]
fn write_keeps_utf16_and_its_line_ending() {
    let old = b"\xFF\xFEa\x00\r\x00\n\x00";
    assert_eq!(write_text(Some(old), "b\n"), b"\xFF\xFEb\x00\r\x00\n\x00");
}

#[test]
fn write_as_utf8_follows_the_bom_policy() {
    let old: &[u8] = b"\xFF\xFEa\x00\n\x00";
    let w = |policy: BomPolicy| {
        run("f", Some(old), "b\n", OutputEncoding::Utf8, policy, None, false, false).unwrap().bytes
    };
    assert_eq!(w(BomPolicy::Strip), b"b\n");
    assert_eq!(w(BomPolicy::Preserve), b"\xEF\xBB\xBFb\n");
    assert_eq!(w(BomPolicy::Force), b"\xEF\xBB\xBFb\n");
}

#[test]
fn write_honours_a_line_ending() {
    let plan = run(
        "f",
        Some(b"a\r\n"),
        "b\nc\n",
        OutputEncoding::Preserve,
        BomPolicy::Strip,
        Some(LineEnding::Lf),
        true,
        false,
    )
    .unwrap();
    assert_eq!(plan.bytes, b"b\nc\n");
    assert_eq!(plan.old_text.as_deref(), Some("a\r\n"));
    assert!(plan.diff.is_none());
}

#[test]
fn a_write_to_nothing_is_a_new_file() {
    let new = encode_new_file_content("a\nb\n", OutputEncoding::Preserve, BomPolicy::Strip, None);
    assert_eq!(write_text(None, "a\nb\n"), new);
}

// ── Binary ──────────────────────────────────────────────────────────────────

#[test]
fn write_binary_diff_shows_change() {
    let diff = run_binary("f", Some(b"\xFF\x00"), b"\xAB\xCD", true).unwrap();
    assert!(diff.contains("\\xff"), "missing old bytes: {diff:?}");
    assert!(diff.contains("\\xab"), "missing new bytes: {diff:?}");
}

#[test]
fn write_binary_diff_no_change_empty_diff_body() {
    let diff = run_binary("f", Some(b"same"), b"same", true).unwrap();
    assert!(!diff.contains("@@"), "expected no diff hunks: {diff:?}");
}

#[test]
fn write_binary_diff_header_contains_filename() {
    let diff = run_binary("f", Some(b"old"), b"new", true).unwrap();
    assert!(
        diff.contains("a/") && diff.contains("b/"),
        "missing diff header: {diff:?}"
    );
}

#[test]
fn write_binary_without_a_diff() {
    assert!(run_binary("f", Some(b"old"), b"new", false).is_none());
    assert!(run_binary("f", None, b"new", true).is_none());
}

// ── Appending ───────────────────────────────────────────────────────────────

#[test]
fn append_adds_text_with_the_line_ending_of_the_file() {
    let plan = append::run("f", b"a\r\n", "b\n", None, false).unwrap();
    assert_eq!(plan.bytes.unwrap(), b"a\r\nb\r\n");
    assert_eq!(plan.old_text, "a\n");
    assert_eq!(plan.new_text, "a\nb\n");
}

#[test]
fn append_keeps_utf16_and_its_byte_order_mark() {
    let plan = append::run("f", b"\xFE\xFF\x00a\x00\n", "b\n", None, false).unwrap();
    assert_eq!(plan.bytes.unwrap(), b"\xFE\xFF\x00a\x00\n\x00b\x00\n");
}

#[test]
fn append_previews_without_writing() {
    let plan = append::run("f", b"a\n", "b\n", None, true).unwrap();
    assert!(plan.bytes.is_none());
    assert!(plan.diff.unwrap().contains("+b"));
}

#[test]
fn append_to_a_missing_file_is_refused() {
    assert!(append::check_exists("f", true).is_ok());
    assert_eq!(
        append::check_exists("f", false).unwrap_err(),
        "append: file does not exist: f; use 'tpu write' to create new files"
    );
}

#[test]
fn appending_keeps_what_is_there() {
    let plan = append::run("f", b"\xEF\xBB\xBFa\r\nb\r\n", "c\n", Some(LineEnding::Lf), false).unwrap();
    assert_eq!(plan.bytes.unwrap(), b"\xEF\xBB\xBFa\nb\nc\n");
}
