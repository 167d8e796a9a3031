use tpu::cmd::describe::{run, LineEndingSeen};

// ── LineEndingSeen::as_str ──────────────────────────────────────────────────

#[test]
fn line_ending_seen_none_when_nothing_seen() {
    let seen = LineEndingSeen { lf: false, crlf: false, cr: false };
    assert_eq!(seen.as_str(), "None");
}

#[test]
fn line_ending_seen_lf_only() {
    let seen = LineEndingSeen { lf: true, crlf: false, cr: false };
    assert_eq!(seen.as_str(), "LF");
}

#[test]
fn line_ending_seen_crlf_only() {
    let seen = LineEndingSeen { lf: false, crlf: true, cr: false };
    assert_eq!(seen.as_str(), "CRLF");
}

#[test]
fn line_ending_seen_cr_only() {
    let seen = LineEndingSeen { lf: false, crlf: false, cr: true };
    assert_eq!(seen.as_str(), "CR");
}

#[test]
fn line_ending_seen_mixed_when_more_than_one_kind() {
    let seen = LineEndingSeen { lf: true, crlf: true, cr: false };
    assert_eq!(seen.as_str(), "Mixed");
}

// ── run ─────────────────────────────────────────────────────────────────────

#[test]
fn run_reports_bom_true_when_file_has_utf8_bom() {
    let result = run("f.txt", b"\xEF\xBB\xBFhello\n").unwrap();
    assert!(result.bom, "expected bom == true for a BOM'd file");
}

#[test]
fn run_reports_bom_false_when_file_has_no_bom() {
    let result = run("f.txt", b"hello\n").unwrap();
    assert!(!result.bom, "expected bom == false for a plain file");
}

#[test]
fn describe_reports_every_field() {
    let result = run("f.txt", b"\xEF\xBB\xBFone\r\ntwo\nthree").unwrap();
    assert_eq!(result.file, "f.txt");
    assert_eq!(result.byte_count, 17);
    assert_eq!(result.line_count, 3);
    assert_eq!(result.encoding, "UTF-8");
    assert_eq!(result.line_ending, "Mixed");
}

#[test]
fn describe_counts_lines_of_utf16() {
    let result = run("u.txt", b"\xFF\xFEa\x00\r\x00\n\x00b\x00").unwrap();
    assert_eq!(result.encoding, "UTF-16LE");
    assert_eq!(result.line_count, 2);
    assert_eq!(result.line_ending, "CRLF");
    assert!(result.bom);
}

#[test]
fn describe_of_an_empty_file() {
    let result = run("e.txt", b"").unwrap();
    assert_eq!(result.line_count, 0);
    assert_eq!(result.line_ending, "None");
}

#[test]
fn describe_refuses_malformed_text() {
    let err = run("bad.txt", b"\xEF\xBB\xBFab\xFFcd").unwrap_err();
    assert!(err.starts_with("describe: read bad.txt: "), "{err}");
}
