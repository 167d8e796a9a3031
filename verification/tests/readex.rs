use tpu::cmd::readex::{run, run_binary};
use tpu::encoding::{BomPolicy, OutputEncoding};

fn readex_bytes(content: &[u8], lines_range: Option<(usize, usize)>, numbers: bool) -> String {
    let out = run(content, lines_range, numbers, OutputEncoding::Preserve, BomPolicy::Strip)
        .unwrap()
        .unwrap();
    String::from_utf8(out.bytes).unwrap()
}

fn utf8_read(content: &[u8], policy: BomPolicy) -> Vec<u8> {
    run(content, None, false, OutputEncoding::Utf8, policy).unwrap().unwrap().bytes
}

fn binary_readex(content: &[u8], byte_range: Option<(u64, u64)>) -> Vec<u8> {
    run_binary(content, byte_range).into_bytes()
}

// ── Normal cases ──────────────────────────────────────────────────────────

#[test]
fn readex_empty_file() {
    // Empty file → single actual newline (flat-line terminator, empty body).
    assert_eq!(readex_bytes(b"", None, false), "\n");
}

#[test]
fn readex_single_line_no_trailing_newline() {
    // "hello" has no trailing LF; the codec still appends the \n escape.
    assert_eq!(readex_bytes(b"hello", None, false), "hello\\n\n");
}

#[test]
fn readex_single_line_with_trailing_newline() {
    // Trailing '\n' is stripped by the split logic; output is the same.
    assert_eq!(readex_bytes(b"hello\n", None, false), "hello\\n\n");
}

#[test]
fn readex_two_lines() {
    assert_eq!(
        readex_bytes(b"line1\nline2\n", None, false),
        "line1\\nline2\\n\n"
    );
}

#[test]
fn readex_three_lines_no_trailing_newline() {
    assert_eq!(readex_bytes(b"a\nb\nc", None, false), "a\\nb\\nc\\n\n");
}

#[test]
fn readex_all_printable_ascii_passthrough() {
    // Printable ASCII (except backslash) should appear unchanged in output.
    let line = "Hello, World! 0-9 A-Z a-z !@#$%^&*()";
    let input = line.as_bytes();
    let expected = format!("{line}\\n\n");
    assert_eq!(readex_bytes(input, None, false), expected);
}

#[test]
fn readex_backslash_is_doubled() {
    assert_eq!(readex_bytes(b"a\\b", None, false), "a\\\\b\\n\n");
}

#[test]
fn readex_tab_escaped() {
    assert_eq!(readex_bytes(b"\t", None, false), "\\t\\n\n");
}

#[test]
fn readex_cr_escaped_in_line_content() {
    let result = readex_bytes(b"line1\r\nline2\r\n", None, false);
    assert_eq!(result, "line1\\nline2\\n\n");
}

#[test]
fn readex_bmp_non_ascii_char() {
    // é = U+00E9; encoded as UTF-8 0xC3 0xA9
    assert_eq!(
        readex_bytes("café\n".as_bytes(), None, false),
        "caf\\u00E9\\n\n"
    );
}

#[test]
fn readex_supplementary_plane_emoji() {
    // 😀 = U+1F600; encoded as UTF-8 0xF0 0x9F 0x98 0x80
    assert_eq!(
        readex_bytes("😀\n".as_bytes(), None, false),
        "\\U0001F600\\n\n"
    );
}

#[test]
fn readex_nul_byte_in_content() {
    // NUL (U+0000) in UTF-8 is a literal 0x00 byte; escaped as \0.
    assert_eq!(readex_bytes(b"abc\x00def\n", None, false), "abc\\0def\\n\n");
}

#[test]
fn readex_mixed_bmp_and_supplementary() {
    let s = "é😀end\n";
    assert_eq!(
        readex_bytes(s.as_bytes(), None, false),
        "\\u00E9\\U0001F600end\\n\n"
    );
}

#[test]
fn readex_all_named_escape_chars_in_line() {
    // File content: backslash, NUL, tab, CR, LF.
    // The trailing \r\n is treated by harrier as a CRLF line ending and
    // normalised to a single LF — the \r disappears from line content.
    // So the one source line contains only \, NUL, tab.
    assert_eq!(
        readex_bytes(b"\\\x00\t\r\n", None, false),
        "\\\\\\0\\t\\n\n"
    );
}

// ── BOM file ─────────────────────────────────────────────────────────────

#[test]
fn readex_bom_only_file() {
    // UTF-8 BOM with no content after it → treated as empty content.
    // harrier strips the BOM; no content lines remain.
    assert_eq!(readex_bytes(b"\xEF\xBB\xBF", None, false), "\n");
}

#[test]
fn readex_utf8_bom_with_content() {
    // UTF-8 BOM followed by text; BOM is stripped, text is escaped normally.
    assert_eq!(
        readex_bytes(b"\xEF\xBB\xBFhello\n", None, false),
        "hello\\n\n"
    );
}

// ── --lines range ─────────────────────────────────────────────────────────

#[test]
fn readex_lines_single() {
    let result = readex_bytes(b"aaa\nbbb\nccc\n", Some((2, 2)), false);
    assert_eq!(result, "bbb\\n\n");
}

#[test]
fn readex_lines_range() {
    let result = readex_bytes(b"aaa\nbbb\nccc\nddd\n", Some((2, 3)), false);
    assert_eq!(result, "bbb\\nccc\\n\n");
}

#[test]
fn readex_lines_range_past_end_is_clamped() {
    let result = readex_bytes(b"aaa\nbbb\n", Some((1, 99)), false);
    assert_eq!(result, "aaa\\nbbb\\n\n");
}

// ── --numbers ─────────────────────────────────────────────────────────────

#[test]
fn readex_numbers_single_line() {
    let result = readex_bytes(b"hello\n", None, true);
    // Prefix is "     1  " (6 digits right-aligned, two spaces).
    assert_eq!(result, "     1  hello\\n\n");
}

#[test]
fn readex_numbers_two_lines() {
    let result = readex_bytes(b"aaa\nbbb\n", None, true);
    assert_eq!(result, "     1  aaa\\n     2  bbb\\n\n");
}

#[test]
fn readex_numbers_with_lines_range() {
    // Line numbers in output reflect actual 1-based source line numbers.
    let result = readex_bytes(b"aaa\nbbb\nccc\n", Some((2, 3)), true);
    assert_eq!(result, "     2  bbb\\n     3  ccc\\n\n");
}

// ── BOM output flags ──────────────────────────────────────────────────────

#[test]
fn readex_bom_force_prepends_bom() {
    let out = utf8_read(b"hi\n", BomPolicy::Force);
    // First three bytes must be the UTF-8 BOM.
    assert_eq!(&out[..3], &[0xEF, 0xBB, 0xBF]);
    let body = String::from_utf8(out[3..].to_vec()).unwrap();
    assert_eq!(body, "hi\\n\n");
}

#[test]
fn readex_bom_strip_does_not_prepend_bom() {
    // Source has a UTF-8 BOM.
    let out = utf8_read(b"\xEF\xBB\xBFhi\n", BomPolicy::Strip);
    // No BOM in output.
    assert_ne!(&out[..3], &[0xEF, 0xBB, 0xBF]);
    let body = String::from_utf8(out).unwrap();
    assert_eq!(body, "hi\\n\n");
}

#[test]
fn readex_bom_preserve_copies_source_bom() {
    let out = utf8_read(b"\xEF\xBB\xBFhi\n", BomPolicy::Preserve);
    // Source had BOM, so output should have BOM.
    assert_eq!(&out[..3], &[0xEF, 0xBB, 0xBF]);
    let body = String::from_utf8(out[3..].to_vec()).unwrap();
    assert_eq!(body, "hi\\n\n");
}

#[test]
fn readex_bom_preserve_no_bom_in_source() {
    let out = utf8_read(b"hi\n", BomPolicy::Preserve);
    // Source had no BOM, so output should not have BOM.
    assert_ne!(out.first(), Some(&0xEF));
    let body = String::from_utf8(out).unwrap();
    assert_eq!(body, "hi\\n\n");
}

// ── Output 7-bit clean invariant ─────────────────────────────────────────

#[test]
fn readex_output_is_7bit_clean() {
    // With a file containing various non-ASCII content, every byte in the
    // escaped body must be in the range 0x20–0x7E or literal '\n' (the
    // flat-line terminator).
    let content = "café\u{1F600}\x00\t\n\\end\n";
    let result = readex_bytes(content.as_bytes(), None, false);
    // Only the final actual newline may be outside printable ASCII.
    let body = result.trim_end_matches('\n');
    for b in body.bytes() {
        assert!(
            (0x20..=0x7E).contains(&b),
            "non-printable byte 0x{b:02X} in escaped output"
        );
    }
}

// ── Binary ──────────────────────────────────────────────────────────────────

#[test]
fn binary_readex_empty_file() {
    // Empty file → single newline (the flat-line terminator with empty body).
    assert_eq!(binary_readex(b"", None), b"\n");
}

#[test]
fn binary_readex_plain_ascii() {
    assert_eq!(binary_readex(b"hello", None), b"hello\n");
}

#[test]
fn binary_readex_has_trailing_newline() {
    let out = binary_readex(b"abc", None);
    assert!(out.ends_with(b"\n"), "expected trailing newline");
    // Only one trailing newline.
    assert!(!out.ends_with(b"\n\n"), "unexpected double newline");
}

#[test]
fn binary_readex_high_bytes_escaped() {
    assert_eq!(binary_readex(b"\xFF\x00", None), b"\\xff\\0\n");
}

#[test]
fn binary_readex_lf_escaped_not_literal() {
    // A raw LF byte (0x0A) in the file must appear as \n in the output,
    // not as a literal newline (which would break the flat-line format).
    let out = binary_readex(b"a\nb", None);
    // Output should be the escape sequence for LF, not a literal newline mid-body.
    assert_eq!(out, b"a\\nb\n");
}

#[test]
fn binary_readex_partial_range() {
    assert_eq!(binary_readex(b"abcde", Some((2, 4))), b"bcd\n");
}

#[test]
fn binary_readex_single_byte() {
    assert_eq!(binary_readex(b"xyz", Some((1, 1))), b"x\n");
}

#[test]
fn binary_readex_range_clamps_to_file_end() {
    assert_eq!(binary_readex(b"abc", Some((2, 999))), b"bc\n");
}

#[test]
fn binary_readex_range_start_beyond_file_is_empty_line() {
    // Out-of-range → empty escaped body → single newline.
    assert_eq!(binary_readex(b"abc", Some((10, 20))), b"\n");
}

#[test]
fn binary_readex_output_is_7bit_clean() {
    // All byte values 0x00–0xFF should produce 7-bit clean output (except
    // the final newline terminator).
    let all: Vec<u8> = (0u8..=255u8).collect();
    let out = binary_readex(&all, None);
    let body = &out[..out.len() - 1]; // strip the trailing \n
    for &b in body {
        assert!(
            (0x20..=0x7Eu8).contains(&b),
            "non-printable byte 0x{b:02X} in output"
        );
    }
}

#[test]
fn binary_readex_round_trip_all_bytes() {
    let all: Vec<u8> = (0u8..=255u8).collect();
    let out = binary_readex(&all, None);
    // Strip the trailing newline, then decode the escaped body.
    let s = std::str::from_utf8(&out[..out.len() - 1]).unwrap();
    let decoded = tpu::escape::decode_bytes(s).unwrap();
    assert_eq!(decoded, all);
}

#[test]
fn readex_of_utf16() {
    assert_eq!(readex_bytes(b"\xFE\xFF\x00a\x00\r\x00\n\x00b", None, false), "a\\nb\\n\n");
}

#[test]
fn readex_forces_a_byte_order_mark_on_an_empty_file() {
    assert_eq!(utf8_read(b"", BomPolicy::Force), b"\xEF\xBB\xBF\n");
}

#[test]
fn what_is_shown_decodes_to_the_lines() {
    let shown = readex_bytes("é\\\r\nb\t\r\n".as_bytes(), None, false);
    assert_eq!(tpu::escape::decode(shown.trim_end_matches('\n')).unwrap(), "é\\\nb\t\n");
}
