use tpu::cmd::read::{
    compute_hashes, parse_bytes_arg, parse_hash_arg, parse_lines_arg, run, run_binary, ComputedHash,
    HashAlgo, HashRangeEnd, HashSpec,
};
use tpu::encoding::{BomPolicy, OutputEncoding};

fn binary_read(content: &[u8], byte_range: Option<(u64, u64)>) -> Vec<u8> {
    run_binary(content, byte_range).into_bytes()
}

// ── run_binary: normal cases ──────────────────────────────────────────────

#[test]
fn binary_read_empty_file() {
    assert_eq!(binary_read(b"", None), b"");
}

#[test]
fn binary_read_plain_ascii() {
    assert_eq!(binary_read(b"hello", None), b"hello");
}

#[test]
fn binary_read_no_trailing_newline() {
    // run_binary never appends a trailing newline.
    let out = binary_read(b"abc", None);
    assert!(!out.ends_with(b"\n"), "unexpected trailing newline");
}

#[test]
fn binary_read_high_bytes_escaped() {
    assert_eq!(binary_read(b"\xFF\x00\xAB", None), b"\\xff\\0\\xab");
}

#[test]
fn binary_read_lf_escaped() {
    assert_eq!(binary_read(b"a\nb", None), b"a\\nb");
}

#[test]
fn binary_read_backslash_doubled() {
    assert_eq!(binary_read(b"a\\b", None), b"a\\\\b");
}

#[test]
fn binary_read_full_range_equivalent_to_none() {
    let content = b"abcde";
    assert_eq!(
        binary_read(content, Some((1, 5))),
        binary_read(content, None)
    );
}

#[test]
fn binary_read_partial_range() {
    assert_eq!(binary_read(b"abcde", Some((2, 4))), b"bcd");
}

#[test]
fn binary_read_single_byte() {
    assert_eq!(binary_read(b"xyz", Some((2, 2))), b"y");
}

#[test]
fn binary_read_range_clamps_to_file_end() {
    assert_eq!(binary_read(b"abc", Some((2, 999))), b"bc");
}

#[test]
fn binary_read_range_start_beyond_file_is_empty() {
    assert_eq!(binary_read(b"abc", Some((10, 20))), b"");
}

#[test]
fn binary_read_all_256_bytes_round_trip() {
    let all: Vec<u8> = (0u8..=255u8).collect();
    let out = binary_read(&all, None);
    let s = String::from_utf8(out).unwrap();
    let decoded = tpu::escape::decode_bytes(&s).unwrap();
    assert_eq!(decoded, all);
}

// ── parse_bytes_arg: normal and edge cases ────────────────────────────────

#[test]
fn parse_bytes_single() {
    assert_eq!(parse_bytes_arg("5").unwrap(), (5, 5));
}

#[test]
fn parse_bytes_range() {
    assert_eq!(parse_bytes_arg("3-7").unwrap(), (3, 7));
}

#[test]
fn parse_bytes_range_with_spaces() {
    assert_eq!(parse_bytes_arg(" 2 - 9 ").unwrap(), (2, 9));
}

#[test]
fn parse_bytes_minimum_valid() {
    assert_eq!(parse_bytes_arg("1").unwrap(), (1, 1));
}

#[test]
fn parse_bytes_zero_is_error() {
    assert!(parse_bytes_arg("0").is_err());
}

#[test]
fn parse_bytes_start_after_end_is_error() {
    assert!(parse_bytes_arg("10-5").is_err());
}

#[test]
fn parse_bytes_non_numeric_is_error() {
    assert!(parse_bytes_arg("abc").is_err());
}

#[test]
fn parse_bytes_zero_start_in_range_is_error() {
    assert!(parse_bytes_arg("0-5").is_err());
}

// ── parse_hash_arg: normal cases ──────────────────────────────────────────

fn algo_is_crc32(spec: &HashSpec) -> bool {
    matches!(spec.algo, HashAlgo::Crc32)
}

fn algo_is_md5(spec: &HashSpec) -> bool {
    matches!(spec.algo, HashAlgo::Md5)
}

fn end_is_eof(spec: &HashSpec) -> bool {
    matches!(spec.end, HashRangeEnd::Eof)
}

fn end_absolute(spec: &HashSpec) -> u64 {
    match spec.end {
        HashRangeEnd::Absolute(v) => v,
        HashRangeEnd::Eof => panic!("expected Absolute, got Eof"),
    }
}

#[test]
fn parse_hash_crc32_zero_to_eof_dollar() {
    let spec = parse_hash_arg("crc32:0-$").unwrap();
    assert!(algo_is_crc32(&spec));
    assert_eq!(spec.start, 0);
    assert!(end_is_eof(&spec));
}

#[test]
fn parse_hash_crc32_zero_to_eof_keyword() {
    let spec = parse_hash_arg("crc32:0-EOF").unwrap();
    assert!(algo_is_crc32(&spec));
    assert_eq!(spec.start, 0);
    assert!(end_is_eof(&spec));
}

#[test]
fn parse_hash_eof_keyword_case_insensitive() {
    // "eof" and "Eof" must also be accepted.
    let lower = parse_hash_arg("crc32:0-eof").unwrap();
    assert!(end_is_eof(&lower));
    let mixed = parse_hash_arg("md5:0-Eof").unwrap();
    assert!(end_is_eof(&mixed));
}

#[test]
fn parse_hash_md5_decimal_range() {
    let spec = parse_hash_arg("md5:0-512").unwrap();
    assert!(algo_is_md5(&spec));
    assert_eq!(spec.start, 0);
    assert_eq!(end_absolute(&spec), 512);
}

#[test]
fn parse_hash_crc32_hex_range() {
    let spec = parse_hash_arg("crc32:0x100-0x200").unwrap();
    assert!(algo_is_crc32(&spec));
    assert_eq!(spec.start, 0x100);
    assert_eq!(end_absolute(&spec), 0x200);
}

#[test]
fn parse_hash_hex_uppercase_prefix() {
    let spec = parse_hash_arg("md5:0X10-0XFF").unwrap();
    assert!(algo_is_md5(&spec));
    assert_eq!(spec.start, 0x10);
    assert_eq!(end_absolute(&spec), 0xFF);
}

#[test]
fn parse_hash_nonzero_start_decimal() {
    let spec = parse_hash_arg("crc32:128-256").unwrap();
    assert_eq!(spec.start, 128);
    assert_eq!(end_absolute(&spec), 256);
}

#[test]
fn parse_hash_start_can_be_zero() {
    // 0 is a valid 0-based start offset for --hash (unlike --bytes which is 1-based).
    let spec = parse_hash_arg("crc32:0-64").unwrap();
    assert_eq!(spec.start, 0);
    assert_eq!(end_absolute(&spec), 64);
}

#[test]
fn parse_hash_single_byte_range() {
    // start == end is valid syntax (hash of one byte).
    let spec = parse_hash_arg("md5:5-6").unwrap();
    assert_eq!(spec.start, 5);
    assert_eq!(end_absolute(&spec), 6);
}

#[test]
fn parse_hash_large_hex_offset() {
    let spec = parse_hash_arg("crc32:0-0xFFFFFFFF").unwrap();
    assert_eq!(end_absolute(&spec), 0xFFFF_FFFF);
}

// ── parse_hash_arg: error cases ───────────────────────────────────────────

#[test]
fn parse_hash_missing_colon_is_error() {
    assert!(parse_hash_arg("crc32|0-EOF").is_err());
}

#[test]
fn parse_hash_unknown_algo_is_error() {
    assert!(parse_hash_arg("sha256:0-EOF").is_err());
}

#[test]
fn parse_hash_missing_range_separator_is_error() {
    assert!(parse_hash_arg("crc32:0").is_err());
}

#[test]
fn parse_hash_non_numeric_start_is_error() {
    assert!(parse_hash_arg("crc32:abc-EOF").is_err());
}

#[test]
fn parse_hash_non_numeric_end_is_error() {
    assert!(parse_hash_arg("crc32:0-xyz").is_err());
}

#[test]
fn parse_hash_empty_algo_is_error() {
    assert!(parse_hash_arg(":0-EOF").is_err());
}

#[test]
fn parse_hash_empty_string_is_error() {
    assert!(parse_hash_arg("").is_err());
}

// ── compute_hashes: helpers ───────────────────────────────────────────────

/// Build a single-spec `&[HashSpec]` from a string and run `compute_hashes`.
fn hash_one(data: &[u8], spec_str: &str) -> Result<ComputedHash, String> {
    let spec = parse_hash_arg(spec_str)?;
    let mut results = compute_hashes(data, &[spec])?;
    Ok(results.remove(0))
}

// ── compute_hashes: CRC32 ─────────────────────────────────────────────────

#[test]
fn compute_crc32_empty_slice() {
    // CRC32 of empty input is the well-known value 0x00000000.
    let h = hash_one(b"", "crc32:0-0").unwrap();
    assert_eq!(h.hex_value, "00000000");
}

#[test]
fn compute_crc32_empty_via_eof() {
    // EOF sentinel on empty file also resolves to range 0-0.
    let h = hash_one(b"", "crc32:0-EOF").unwrap();
    assert_eq!(h.hex_value, "00000000");
    assert_eq!(h.resolved_end, 0);
}

#[test]
fn compute_crc32_known_hello() {
    // crc32("hello") == 3610a686
    let h = hash_one(b"hello", "crc32:0-EOF").unwrap();
    assert_eq!(h.hex_value, "3610a686");
    assert_eq!(h.resolved_end, 5);
}

#[test]
fn compute_crc32_prefix_subset() {
    // crc32("hel") == e50bf11b
    let h = hash_one(b"hello", "crc32:0-3").unwrap();
    assert_eq!(h.hex_value, "e50bf11b");
    assert_eq!(h.start, 0);
    assert_eq!(h.resolved_end, 3);
}

#[test]
fn compute_crc32_single_null_byte() {
    // crc32([0x00]) == d202ef8d
    let h = hash_one(&[0x00], "crc32:0-1").unwrap();
    assert_eq!(h.hex_value, "d202ef8d");
}

#[test]
fn compute_crc32_output_is_exactly_8_hex_chars() {
    let h = hash_one(b"hello", "crc32:0-5").unwrap();
    assert_eq!(h.hex_value.len(), 8, "CRC32 hex must be exactly 8 chars");
}

#[test]
fn compute_crc32_output_is_lowercase() {
    // Result must be lowercase hex (no A-F).
    let h = hash_one(b"hello", "crc32:0-5").unwrap();
    assert_eq!(h.hex_value, h.hex_value.to_lowercase());
}

// ── compute_hashes: MD5 ──────────────────────────────────────────────────

#[test]
fn compute_md5_empty_slice() {
    // MD5 of empty input is the well-known value.
    let h = hash_one(b"", "md5:0-0").unwrap();
    assert_eq!(h.hex_value, "d41d8cd98f00b204e9800998ecf8427e");
}

#[test]
fn compute_md5_empty_via_eof() {
    let h = hash_one(b"", "md5:0-EOF").unwrap();
    assert_eq!(h.hex_value, "d41d8cd98f00b204e9800998ecf8427e");
}

#[test]
fn compute_md5_known_hello() {
    // md5("hello") == 5d41402abc4b2a76b9719d911017c592
    let h = hash_one(b"hello", "md5:0-EOF").unwrap();
    assert_eq!(h.hex_value, "5d41402abc4b2a76b9719d911017c592");
}

#[test]
fn compute_md5_suffix_subset() {
    // md5("llo") — bytes [2,5) of "hello"
    let h = hash_one(b"hello", "md5:2-5").unwrap();
    assert_eq!(h.hex_value, "7062da7393ecc31c3c0564020f85efd1");
    assert_eq!(h.start, 2);
    assert_eq!(h.resolved_end, 5);
}

#[test]
fn compute_md5_single_null_byte() {
    // md5([0x00]) == 93b885adfe0da089cdf634904fd59f71
    let h = hash_one(&[0x00], "md5:0-1").unwrap();
    assert_eq!(h.hex_value, "93b885adfe0da089cdf634904fd59f71");
}

#[test]
fn compute_md5_output_is_exactly_32_hex_chars() {
    let h = hash_one(b"hello", "md5:0-5").unwrap();
    assert_eq!(h.hex_value.len(), 32, "MD5 hex must be exactly 32 chars");
}

#[test]
fn compute_md5_output_is_lowercase() {
    let h = hash_one(b"hello", "md5:0-5").unwrap();
    assert_eq!(h.hex_value, h.hex_value.to_lowercase());
}

// ── compute_hashes: EOF sentinel ─────────────────────────────────────────

#[test]
fn compute_eof_sentinel_resolves_to_file_length() {
    let data = b"abcde";
    let h = hash_one(data, "crc32:0-EOF").unwrap();
    assert_eq!(h.resolved_end, 5);
}

#[test]
fn compute_eof_sentinel_dollar_sign() {
    let data = b"abcde";
    let h = hash_one(data, "crc32:0-$").unwrap();
    assert_eq!(h.resolved_end, 5);
}

#[test]
fn compute_eof_and_absolute_produce_same_digest() {
    let data = b"hello";
    let eof = hash_one(data, "crc32:0-EOF").unwrap();
    let abs = hash_one(data, "crc32:0-5").unwrap();
    assert_eq!(eof.hex_value, abs.hex_value);
    assert_eq!(eof.resolved_end, abs.resolved_end);
}

// ── compute_hashes: multiple specs ───────────────────────────────────────

#[test]
fn compute_multiple_specs_in_order() {
    let data = b"hello";
    let specs: Vec<HashSpec> = ["crc32:0-EOF", "md5:0-EOF"]
        .iter()
        .map(|s| parse_hash_arg(s).unwrap())
        .collect();
    let results = compute_hashes(data, &specs).unwrap();
    assert_eq!(results.len(), 2);
    assert_eq!(results[0].algo, HashAlgo::Crc32);
    assert_eq!(results[0].hex_value, "3610a686");
    assert_eq!(results[1].algo, HashAlgo::Md5);
    assert_eq!(results[1].hex_value, "5d41402abc4b2a76b9719d911017c592");
}

#[test]
fn compute_empty_specs_returns_empty_vec() {
    let results = compute_hashes(b"hello", &[]).unwrap();
    assert!(results.is_empty());
}

// ── compute_hashes: out-of-range errors ──────────────────────────────────

#[test]
fn compute_end_exceeds_file_length_is_error() {
    // end=6 but file is only 5 bytes.
    let spec = parse_hash_arg("crc32:0-6").unwrap();
    assert!(compute_hashes(b"hello", &[spec]).is_err());
}

#[test]
fn compute_start_exceeds_file_length_is_error() {
    // start=6 > file_len=5; also start > end (both wrong).
    let spec = parse_hash_arg("crc32:6-6").unwrap();
    assert!(compute_hashes(b"hello", &[spec]).is_err());
}

#[test]
fn compute_start_after_end_is_error() {
    // start=3, end=2: inverted range.
    let spec = parse_hash_arg("crc32:3-2").unwrap();
    // parse_hash_arg allows this (range checking is at compute time).
    assert!(compute_hashes(b"hello", &[spec]).is_err());
}

#[test]
fn compute_end_exactly_at_file_length_is_ok() {
    // end == file_len is valid (exclusive end convention).
    let spec = parse_hash_arg("crc32:0-5").unwrap();
    assert!(compute_hashes(b"hello", &[spec]).is_ok());
}

#[test]
fn compute_start_equals_end_is_ok_empty_slice() {
    // start==end yields CRC32 of empty slice.
    let spec = parse_hash_arg("crc32:2-2").unwrap();
    let results = compute_hashes(b"hello", &[spec]).unwrap();
    assert_eq!(results[0].hex_value, "00000000");
}

#[test]
fn compute_first_bad_spec_aborts_before_second() {
    // First spec is out of range; second would be fine. Both should fail.
    let specs: Vec<HashSpec> = [
        "crc32:0-99", // exceeds file
        "crc32:0-5",  // would be fine alone
    ]
    .iter()
    .map(|s| parse_hash_arg(s).unwrap())
    .collect();
    assert!(compute_hashes(b"hello", &specs).is_err());
}

// ── Text ────────────────────────────────────────────────────────────────────

fn text_read(content: &[u8], range: Option<(usize, usize)>, numbers: bool) -> String {
    let out = run(content, range, numbers, OutputEncoding::Utf8, BomPolicy::Strip).unwrap().unwrap();
    String::from_utf8(out.bytes).unwrap()
}

#[test]
fn lines_are_shown_with_lf() {
    assert_eq!(text_read(b"a\r\nb\rc", None, false), "a\nb\nc\n");
    assert_eq!(text_read(b"a\nb\nc\n", Some((2, 9)), true), "     2  b\n     3  c\n");
    assert_eq!(text_read(b"\xFF\xFEa\x00\r\x00\n\x00b\x00", None, false), "a\nb\n");
}

#[test]
fn a_range_behind_the_end_is_told_apart() {
    let r = run(b"a\n", Some((3, 4)), false, OutputEncoding::Preserve, BomPolicy::Strip).unwrap();
    assert!(r.is_none());
}

#[test]
fn a_byte_order_mark_is_shown_by_policy() {
    let read = |content: &[u8], policy: BomPolicy| {
        run(content, None, false, OutputEncoding::Utf8, policy).unwrap().unwrap().bytes
    };
    assert_eq!(read(b"\xEF\xBB\xBFa\n", BomPolicy::Strip), b"a\n");
    assert_eq!(read(b"\xEF\xBB\xBFa\n", BomPolicy::Preserve), b"\xEF\xBB\xBFa\n");
    assert_eq!(read(b"a\n", BomPolicy::Preserve), b"a\n");
    assert_eq!(read(b"a\n", BomPolicy::Force), b"\xEF\xBB\xBFa\n");
}

#[test]
fn line_ranges_are_read() {
    assert_eq!(parse_lines_arg("3").unwrap(), (3, 3));
    assert_eq!(parse_lines_arg(" 2 - 5").unwrap(), (2, 5));
    assert!(parse_lines_arg("0").is_err());
    assert!(parse_lines_arg("5-2").unwrap_err().contains("--lines: start 5 is after end 2"));
    assert_eq!(parse_lines_arg("x").unwrap_err(), "invalid line number \"x\" in --lines");
}
