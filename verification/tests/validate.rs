use tpu::cmd::validate::{
    byte_slice, parse_hex_bytes, parse_line_number, parse_offset_end, parse_selector, parse_size,
    run_all, run_binary_validator, run_text_validator, ValidateSelector,
};

// ── parse_size ────────────────────────────────────────────────────────────

#[test]
fn size_decimal_zero() {
    assert_eq!(parse_size("0").unwrap(), 0);
}

#[test]
fn size_decimal() {
    assert_eq!(parse_size("1024").unwrap(), 1024);
}

#[test]
fn size_hex_lower() {
    assert_eq!(parse_size("0xff").unwrap(), 255);
}

#[test]
fn size_hex_upper_prefix() {
    assert_eq!(parse_size("0XFF").unwrap(), 255);
}

#[test]
fn size_hex_mixed_case_digits() {
    assert_eq!(parse_size("0x1A2b").unwrap(), 0x1A2B);
}

#[test]
fn size_invalid_decimal() {
    assert!(parse_size("abc").is_err());
}

#[test]
fn size_invalid_hex() {
    assert!(parse_size("0xGG").is_err());
}

#[test]
fn size_empty() {
    assert!(parse_size("").is_err());
}

// ── parse_offset_end ──────────────────────────────────────────────────────

#[test]
fn offset_end_decimal() {
    assert_eq!(parse_offset_end("0-100").unwrap(), (0, 100));
}

#[test]
fn offset_end_hex() {
    assert_eq!(parse_offset_end("0x0-0x64").unwrap(), (0, 100));
}

#[test]
fn offset_end_mixed() {
    assert_eq!(parse_offset_end("0-0x64").unwrap(), (0, 100));
}

#[test]
fn offset_end_same() {
    // lo == hi is valid (empty range)
    assert_eq!(parse_offset_end("10-10").unwrap(), (10, 10));
}

#[test]
fn offset_end_missing_dash() {
    assert!(parse_offset_end("100").is_err());
}

#[test]
fn offset_end_bad_lo() {
    assert!(parse_offset_end("x-100").is_err());
}

#[test]
fn offset_end_bad_hi() {
    assert!(parse_offset_end("0-abc").is_err());
}

// ── parse_line_number ─────────────────────────────────────────────────────

#[test]
fn line_number_one() {
    assert_eq!(parse_line_number("1").unwrap(), 1);
}

#[test]
fn line_number_large() {
    assert_eq!(parse_line_number("9999").unwrap(), 9999);
}

#[test]
fn line_number_zero_rejected() {
    assert!(parse_line_number("0").is_err());
}

#[test]
fn line_number_non_numeric() {
    assert!(parse_line_number("one").is_err());
}

// ── parse_hex_bytes ───────────────────────────────────────────────────────

#[test]
fn hex_bytes_empty() {
    assert_eq!(parse_hex_bytes("").unwrap(), Vec::<u8>::new());
}

#[test]
fn hex_bytes_single() {
    assert_eq!(parse_hex_bytes("ff").unwrap(), vec![0xff]);
}

#[test]
fn hex_bytes_multiple() {
    assert_eq!(parse_hex_bytes("4d5a00").unwrap(), vec![0x4d, 0x5a, 0x00]);
}

#[test]
fn hex_bytes_uppercase() {
    assert_eq!(parse_hex_bytes("4D5A").unwrap(), vec![0x4d, 0x5a]);
}

#[test]
fn hex_bytes_odd_length() {
    assert!(parse_hex_bytes("abc").is_err());
}

#[test]
fn hex_bytes_invalid_chars() {
    assert!(parse_hex_bytes("GG").is_err());
}

// ── parse_selector ────────────────────────────────────────────────────────

#[test]
fn selector_line_text_mode() {
    let sel = parse_selector("line:3", false).unwrap();
    assert!(matches!(sel, ValidateSelector::Line(3)));
}

#[test]
fn selector_line_binary_rejected() {
    assert!(parse_selector("line:3", true).is_err());
}

#[test]
fn selector_line_contains_text_mode() {
    let sel = parse_selector("line-contains:1", false).unwrap();
    assert!(matches!(sel, ValidateSelector::LineContains(1)));
}

#[test]
fn selector_line_contains_binary_rejected() {
    assert!(parse_selector("line-contains:2", true).is_err());
}

#[test]
fn selector_bytes_binary_mode() {
    let sel = parse_selector("bytes:0-4", true).unwrap();
    assert!(matches!(sel, ValidateSelector::Bytes(0, 4)));
}

#[test]
fn selector_bytes_text_rejected() {
    assert!(parse_selector("bytes:0-4", false).is_err());
}

#[test]
fn selector_md5_binary_mode() {
    let sel = parse_selector("md5:0-100", true).unwrap();
    assert!(matches!(sel, ValidateSelector::Md5(0, 100)));
}

#[test]
fn selector_md5_text_rejected() {
    assert!(parse_selector("md5:0-100", false).is_err());
}

#[test]
fn selector_crc32_binary_mode() {
    let sel = parse_selector("crc32:0-100", true).unwrap();
    assert!(matches!(sel, ValidateSelector::Crc32(0, 100)));
}

#[test]
fn selector_crc32_text_rejected() {
    assert!(parse_selector("crc32:0-100", false).is_err());
}

#[test]
fn selector_unknown() {
    assert!(parse_selector("sha256:0-100", true).is_err());
}

#[test]
fn selector_line_zero_is_error() {
    assert!(parse_selector("line:0", false).is_err());
}

#[test]
fn selector_line_contains_hex_range() {
    // line-contains must take a line number, not a range
    assert!(parse_selector("line-contains:abc", false).is_err());
}

// ── parse_hex_bytes round-trip ─────────────────────────────────────────────

#[test]
fn hex_bytes_round_trip_known() {
    let data: &[u8] = &[0x00, 0x01, 0xFE, 0xFF];
    let hex = data.iter().map(|b| format!("{b:02x}")).collect::<String>();
    assert_eq!(parse_hex_bytes(&hex).unwrap(), data);
}

// ── byte_slice ────────────────────────────────────────────────────────────

#[test]
fn byte_slice_out_of_bounds() {
    let bytes = b"hello";
    // hi exceeds length
    assert!(byte_slice(bytes, 0, 100).is_err());
}

#[test]
fn byte_slice_inverted() {
    let bytes = b"hello";
    // lo > hi
    assert!(byte_slice(bytes, 3, 1).is_err());
}

#[test]
fn byte_slice_valid() {
    let bytes = b"hello";
    assert_eq!(byte_slice(bytes, 1, 4).unwrap(), b"ell");
}

// ── Validator functions ────────────────────────────────────────────────────

// text: line:N exact match passes
#[test]
fn text_validator_line_exact_match_pass() {
    let path = "hello\nworld\n".as_bytes();
    assert!(
        run_text_validator(&ValidateSelector::Line(1), "hello", path).is_ok()
    );
}

// text: line:N exact mismatch gives error
#[test]
fn text_validator_line_exact_mismatch_fail() {
    let path = "hello\nworld\n".as_bytes();
    assert!(
        run_text_validator(&ValidateSelector::Line(1), "world", path).is_err()
    );
}

// text: line:N second line match passes
#[test]
fn text_validator_line_second_line_pass() {
    let path = "alpha\nbeta\n".as_bytes();
    assert!(
        run_text_validator(&ValidateSelector::Line(2), "beta", path).is_ok()
    );
}

// text: line:N out-of-range gives error
#[test]
fn text_validator_line_out_of_range() {
    let path = "hello\nworld\n".as_bytes();
    assert!(
        run_text_validator(&ValidateSelector::Line(5), "anything", path)
            .is_err()
    );
}

// text: line-contains:N substring found passes
#[test]
fn text_validator_line_contains_pass() {
    let path = "hello world\n".as_bytes();
    assert!(
        run_text_validator(
            &ValidateSelector::LineContains(1),
            "world",
            path)
        .is_ok()
    );
}

// text: line-contains:N full line also passes (substring)
#[test]
fn text_validator_line_contains_full_line_pass() {
    let path = "hello\n".as_bytes();
    assert!(
        run_text_validator(
            &ValidateSelector::LineContains(1),
            "hello",
            path)
        .is_ok()
    );
}

// text: line-contains:N substring not found gives error
#[test]
fn text_validator_line_contains_not_found() {
    let path = "hello world\n".as_bytes();
    assert!(
        run_text_validator(
            &ValidateSelector::LineContains(1),
            "rust",
            path)
        .is_err()
    );
}

// text: line-contains:N out-of-range gives error
#[test]
fn text_validator_line_contains_out_of_range() {
    let path = "hello\n".as_bytes();
    assert!(
        run_text_validator(
            &ValidateSelector::LineContains(99),
            "hello",
            path)
        .is_err()
    );
}

// binary: bytes:lo-hi exact match passes
#[test]
fn binary_validator_bytes_match_pass() {
    let data = b"hello";
    let path: &[u8] = data;
    let hex: String = data.iter().map(|b| format!("{b:02x}")).collect();
    assert!(
        run_binary_validator(&ValidateSelector::Bytes(0, 5), &hex, path).is_ok()
    );
}

// binary: bytes:lo-hi middle range match passes
#[test]
fn binary_validator_bytes_middle_range_pass() {
    let data = b"abcde";
    let path: &[u8] = data;
    // b"bcd" = 62 63 64
    assert!(
        run_binary_validator(
            &ValidateSelector::Bytes(1, 4),
            "626364",
            path)
        .is_ok()
    );
}

// binary: bytes:lo-hi mismatch gives error
#[test]
fn binary_validator_bytes_mismatch_fail() {
    let path: &[u8] = b"hello";
    assert!(
        run_binary_validator(
            &ValidateSelector::Bytes(0, 5),
            "0000000000",
            path)
        .is_err()
    );
}

// binary: bytes:lo-hi beyond file end gives error
#[test]
fn binary_validator_bytes_out_of_range() {
    let path: &[u8] = b"hi";
    assert!(
        run_binary_validator(
            &ValidateSelector::Bytes(0, 100),
            "0000",
            path)
        .is_err()
    );
}

// binary: md5:lo-hi correct digest passes
#[test]
fn binary_validator_md5_match_pass() {
    let data = b"hello";
    let path: &[u8] = data;
    let expected = "5d41402abc4b2a76b9719d911017c592".to_string();
    assert!(
        run_binary_validator(&ValidateSelector::Md5(0, 5), &expected, path)
            .is_ok()
    );
}

// binary: md5:lo-hi uppercase digest also passes (case-insensitive)
#[test]
fn binary_validator_md5_uppercase_accepted() {
    let data = b"hello";
    let path: &[u8] = data;
    let expected = "5d41402abc4b2a76b9719d911017c592".to_string().to_uppercase();
    assert!(
        run_binary_validator(&ValidateSelector::Md5(0, 5), &expected, path)
            .is_ok()
    );
}

// binary: md5:lo-hi wrong digest gives error
#[test]
fn binary_validator_md5_mismatch_fail() {
    let path: &[u8] = b"hello";
    assert!(
        run_binary_validator(
            &ValidateSelector::Md5(0, 5),
            "00000000000000000000000000000000",
            path)
        .is_err()
    );
}

// binary: crc32:lo-hi correct checksum passes
#[test]
fn binary_validator_crc32_match_pass() {
    let data = b"hello";
    let path: &[u8] = data;
    let expected = format!("{:08x}", crc32fast::hash(data));
    assert!(
        run_binary_validator(
            &ValidateSelector::Crc32(0, 5),
            &expected,
            path)
        .is_ok()
    );
}

// binary: crc32:lo-hi uppercase checksum also passes (case-insensitive)
#[test]
fn binary_validator_crc32_uppercase_accepted() {
    let data = b"hello";
    let path: &[u8] = data;
    let expected = format!("{:08x}", crc32fast::hash(data)).to_uppercase();
    assert!(
        run_binary_validator(
            &ValidateSelector::Crc32(0, 5),
            &expected,
            path)
        .is_ok()
    );
}

// binary: crc32:lo-hi wrong checksum gives error
#[test]
fn binary_validator_crc32_mismatch_fail() {
    let path: &[u8] = b"hello";
    assert!(
        run_binary_validator(
            &ValidateSelector::Crc32(0, 5),
            "00000000",
            path)
        .is_err()
    );
}

// run_all: two passing validators both succeed
#[test]
fn run_all_two_passing_validators() {
    let path = "foo\nbar\n".as_bytes();
    let pairs = vec![
        "line:1".to_string(),
        "foo".to_string(),
        "line:2".to_string(),
        "bar".to_string(),
    ];
    assert!(run_all(&pairs, &Ok(path.to_vec()), false).is_ok());
}

// run_all: first validator fails, error is returned
#[test]
fn run_all_first_fails_returns_error() {
    let path = "foo\nbar\n".as_bytes();
    let pairs = vec![
        "line:1".to_string(),
        "wrong".to_string(),
        "line:2".to_string(),
        "bar".to_string(),
    ];
    assert!(run_all(&pairs, &Ok(path.to_vec()), false).is_err());
}

// run_all: file not found gives error (no panic)
#[test]
fn run_all_file_not_found() {
    let pairs = vec!["line:1".to_string(), "hello".to_string()];
    let missing = Err("__no_such_file_validate_test__.txt: No such file".to_string());
    assert!(run_all(&pairs, &missing, false).is_err());
    assert_eq!(
        run_all(&pairs, &missing, true).unwrap_err(),
        "--validate: text selector \"line:1\" cannot be used with --binary"
    );
}

#[test]
fn messages_of_failed_checks() {
    let file = b"one\r\ntwo\r\n";
    let text = |sel: ValidateSelector, value: &str| run_text_validator(&sel, value, file).unwrap_err();
    let bytes =
        |sel: ValidateSelector, value: &str| run_binary_validator(&sel, value, file).unwrap_err();
    assert_eq!(
        text(ValidateSelector::Line(3), "x"),
        "--validate line:3: file has only 2 lines"
    );
    assert!(text(ValidateSelector::Line(2), "x").contains("two"));
    assert!(bytes(ValidateSelector::Bytes(4, 2), "00").contains("start exceeds end"));
    assert!(bytes(ValidateSelector::Bytes(0, 11), "00").contains("exceeds file length 10"));
}

#[test]
fn lines_of_utf16_are_checked() {
    let file = b"\xFF\xFEa\x00\r\x00\n\x00b\x00";
    assert!(run_text_validator(&ValidateSelector::Line(1), "a", file).is_ok());
    assert!(run_text_validator(&ValidateSelector::Line(2), "b", file).is_ok());
}

#[test]
fn hex_digits_that_are_no_ascii_are_refused() {
    assert!(parse_hex_bytes("éé").is_err());
}

#[test]
fn hex_bytes_take_no_sign() {
    assert_eq!(parse_hex_bytes("+f").unwrap_err(), "invalid hex byte at position 0 in \"+f\"");
}
