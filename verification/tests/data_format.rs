use tpu::data_format::{
    decode_base64, decode_encoded, decode_hex, encode_base64, encode_base64_pem, encode_encoded,
    encode_hex,
};

// ── Hex ──────────────────────────────────────────────────────────────────

#[test]
fn hex_empty() {
    assert_eq!(decode_hex("").unwrap(), b"");
}

#[test]
fn hex_single_byte_lowercase() {
    assert_eq!(decode_hex("4d").unwrap(), &[0x4D]);
}

#[test]
fn hex_single_byte_uppercase() {
    assert_eq!(decode_hex("4D").unwrap(), &[0x4D]);
}

#[test]
fn hex_mz_header_dashes() {
    assert_eq!(
        decode_hex("4D-5A-00-00").unwrap(),
        &[0x4D, 0x5A, 0x00, 0x00]
    );
}

#[test]
fn hex_mz_header_no_dashes() {
    assert_eq!(decode_hex("4D5A0000").unwrap(), &[0x4D, 0x5A, 0x00, 0x00]);
}

#[test]
fn hex_all_zeros() {
    assert_eq!(decode_hex("000000").unwrap(), &[0x00, 0x00, 0x00]);
}

#[test]
fn hex_all_ff() {
    assert_eq!(decode_hex("FFFFFF").unwrap(), &[0xFF, 0xFF, 0xFF]);
}

#[test]
fn hex_mixed_case() {
    assert_eq!(decode_hex("aAbBcCdD").unwrap(), &[0xAA, 0xBB, 0xCC, 0xDD]);
}

#[test]
fn hex_long_dashed() {
    let s = "01-02-03-04-05-06-07-08";
    assert_eq!(decode_hex(s).unwrap(), &[1, 2, 3, 4, 5, 6, 7, 8]);
}

#[test]
fn hex_alternating_zero_ff() {
    assert_eq!(
        decode_hex("00-FF-00-FF-00-FF").unwrap(),
        &[0x00, 0xFF, 0x00, 0xFF, 0x00, 0xFF]
    );
}

#[test]
fn hex_err_odd_digits() {
    assert!(decode_hex("4D5").is_err());
}

#[test]
fn hex_err_single_digit() {
    assert!(decode_hex("A").is_err());
}

#[test]
fn hex_err_invalid_char_g() {
    assert!(decode_hex("GG").is_err());
}

#[test]
fn hex_err_invalid_char_space() {
    // Spaces are not stripped; only '-' separators are.
    assert!(decode_hex("4D 5A").is_err());
}

#[test]
fn hex_all_nibbles() {
    // 0x0F-0xF0-0xAB round-trips through lowercase and uppercase variants.
    assert_eq!(decode_hex("0ff0ab").unwrap(), &[0x0F, 0xF0, 0xAB]);
    assert_eq!(decode_hex("0FF0AB").unwrap(), &[0x0F, 0xF0, 0xAB]);
}

// ── Base64 ───────────────────────────────────────────────────────────────

#[test]
fn b64_empty() {
    assert_eq!(decode_base64("").unwrap(), b"");
}

#[test]
fn b64_hello() {
    // "Hello" base64 = "SGVsbG8="
    assert_eq!(decode_base64("SGVsbG8=").unwrap(), b"Hello");
}

#[test]
fn b64_hello_world() {
    // "Hello, World!" base64 = "SGVsbG8sIFdvcmxkIQ=="
    assert_eq!(
        decode_base64("SGVsbG8sIFdvcmxkIQ==").unwrap(),
        b"Hello, World!"
    );
}

#[test]
fn b64_man() {
    // "Man" = "TWFu" (no padding needed for 3 bytes)
    assert_eq!(decode_base64("TWFu").unwrap(), b"Man");
}

#[test]
fn b64_one_zero_byte() {
    // 1 zero byte → "AA=="
    assert_eq!(decode_base64("AA==").unwrap(), &[0]);
}

#[test]
fn b64_two_zero_bytes() {
    // 2 zero bytes → "AAA="
    assert_eq!(decode_base64("AAA=").unwrap(), &[0, 0]);
}

#[test]
fn b64_three_zero_bytes() {
    // 3 zero bytes → "AAAA"
    assert_eq!(decode_base64("AAAA").unwrap(), &[0, 0, 0]);
}

#[test]
fn b64_mz_header_two_bytes() {
    // 0x4D 0x5A → "TVo="
    assert_eq!(decode_base64("TVo=").unwrap(), &[0x4D, 0x5A]);
}

#[test]
fn b64_whitespace_stripped() {
    // Leading/trailing whitespace is stripped before decoding.
    assert_eq!(decode_base64("  SGVsbG8=  \n").unwrap(), b"Hello");
}

#[test]
fn b64_4_chars_no_pad_decodes_3_bytes() {
    // "SGVs" decodes to "Hel" (3 bytes, no padding needed).
    assert_eq!(decode_base64("SGVs").unwrap(), b"Hel");
}

#[test]
fn b64_err_wrong_length_not_mult4() {
    assert!(decode_base64("SGVsb").is_err()); // 5 chars is not a multiple of 4
}

#[test]
fn b64_err_invalid_char() {
    assert!(decode_base64("SG!s").is_err());
}

#[test]
fn b64_err_bad_padding_order() {
    // '=' at position 2 without '=' at position 3 is invalid.
    assert!(decode_base64("AA=A").is_err());
}

// ── Encoded ──────────────────────────────────────────────────────────────

#[test]
fn encoded_empty() {
    assert_eq!(decode_encoded("").unwrap(), b"");
}

#[test]
fn encoded_plain_ascii() {
    assert_eq!(decode_encoded("hello").unwrap(), b"hello");
}

#[test]
fn encoded_hex_escape() {
    assert_eq!(decode_encoded("\\x4D\\x5A").unwrap(), &[0x4D, 0x5A]);
}

#[test]
fn encoded_newline_escape() {
    assert_eq!(decode_encoded("line1\\nline2").unwrap(), b"line1\nline2");
}

#[test]
fn encoded_tab_escape() {
    assert_eq!(decode_encoded("a\\tb").unwrap(), b"a\tb");
}

#[test]
fn encoded_carriage_return_escape() {
    assert_eq!(decode_encoded("a\\rb").unwrap(), b"a\rb");
}

#[test]
fn encoded_backslash_escape() {
    assert_eq!(decode_encoded("a\\\\b").unwrap(), b"a\\b");
}

#[test]
fn encoded_null_escape() {
    assert_eq!(decode_encoded("\\0").unwrap(), &[0x00]);
}

#[test]
fn encoded_unicode_4digit() {
    // \u0041 = 'A' in UTF-8
    assert_eq!(decode_encoded("\\u0041").unwrap(), b"A");
}

#[test]
fn encoded_mixed() {
    assert_eq!(decode_encoded("Hello\\nWorld").unwrap(), b"Hello\nWorld");
}

#[test]
fn encoded_err_bad_escape() {
    assert!(decode_encoded("\\q").is_err());
}

#[test]
fn encoded_err_incomplete_hex_escape() {
    assert!(decode_encoded("\\x4").is_err());
}

// ── encode_encoded ────────────────────────────────────────────────────────

#[test]
fn encode_encoded_empty() {
    assert_eq!(encode_encoded(b""), "");
}

#[test]
fn encode_encoded_plain_ascii() {
    assert_eq!(encode_encoded(b"hello"), "hello");
}

#[test]
fn encode_encoded_backslash() {
    assert_eq!(encode_encoded(b"\\"), "\\\\");
}

#[test]
fn encode_encoded_nul() {
    assert_eq!(encode_encoded(&[0x00]), "\\x00");
}

#[test]
fn encode_encoded_tab() {
    assert_eq!(encode_encoded(b"\t"), "\\x09");
}

#[test]
fn encode_encoded_newline() {
    assert_eq!(encode_encoded(b"\n"), "\\x0A");
}

#[test]
fn encode_encoded_cr() {
    assert_eq!(encode_encoded(b"\r"), "\\x0D");
}

#[test]
fn encode_encoded_del() {
    assert_eq!(encode_encoded(&[0x7F]), "\\x7F");
}

#[test]
fn encode_encoded_high_byte() {
    assert_eq!(encode_encoded(&[0xFF]), "\\xFF");
}

#[test]
fn encode_encoded_mz_header() {
    // 0x4D = 'M', 0x5A = 'Z' — both printable ASCII.
    assert_eq!(encode_encoded(&[0x4D, 0x5A, 0x00, 0x00]), "MZ\\x00\\x00");
}

#[test]
fn encode_encoded_space_and_tilde() {
    // 0x20 (space) and 0x7E ('~') are boundary printable ASCII chars.
    assert_eq!(encode_encoded(&[0x20, 0x7E]), " ~");
}

#[test]
fn encode_encoded_printable_range_boundaries() {
    // 0x1F (below printable) and 0x7F (DEL, above printable) are escaped.
    assert_eq!(encode_encoded(&[0x1F, 0x7F]), "\\x1F\\x7F");
}

#[test]
fn encode_encoded_all_printable_ascii_no_backslash() {
    let printable: Vec<u8> = (0x20u8..=0x7Eu8).filter(|&b| b != b'\\').collect();
    let encoded = encode_encoded(&printable);
    let expected: String = printable.iter().map(|&b| b as char).collect();
    assert_eq!(encoded, expected);
}

#[test]
fn encode_encoded_uppercase_hex_digits() {
    assert_eq!(encode_encoded(&[0xAB, 0xCD, 0xEF]), "\\xAB\\xCD\\xEF");
}

#[test]
fn encode_encoded_roundtrip_all_bytes() {
    let all: Vec<u8> = (0u8..=255u8).collect();
    let encoded = encode_encoded(&all);
    let decoded = decode_encoded(&encoded).expect("round-trip must decode");
    assert_eq!(decoded, all);
}

#[test]
fn encode_encoded_roundtrip_backslash_only() {
    let input = b"a\\b\\c";
    let encoded = encode_encoded(input);
    let decoded = decode_encoded(&encoded).expect("round-trip must decode");
    assert_eq!(decoded, input);
}

// ── encode_hex ────────────────────────────────────────────────────────────

#[test]
fn encode_hex_empty() {
    assert_eq!(encode_hex(b""), "");
}

#[test]
fn encode_hex_single_byte_low() {
    assert_eq!(encode_hex(&[0x00]), "00");
}

#[test]
fn encode_hex_single_byte_high() {
    assert_eq!(encode_hex(&[0xFF]), "FF");
}

#[test]
fn encode_hex_mz_header() {
    assert_eq!(encode_hex(&[0x4D, 0x5A, 0x00, 0x00]), "4D-5A-00-00");
}

#[test]
fn encode_hex_uppercase() {
    assert_eq!(encode_hex(&[0xAB, 0xCD, 0xEF]), "AB-CD-EF");
}

#[test]
fn encode_hex_no_trailing_dash() {
    let s = encode_hex(&[0x01, 0x02]);
    assert!(!s.ends_with('-'));
}

#[test]
fn encode_hex_roundtrip_all_bytes() {
    let all: Vec<u8> = (0u8..=255u8).collect();
    let encoded = encode_hex(&all);
    let decoded = decode_hex(&encoded).expect("round-trip must decode");
    assert_eq!(decoded, all);
}

#[test]
fn encode_hex_roundtrip_mz() {
    let input = &[0x4D, 0x5A, 0x00, 0x00u8];
    assert_eq!(decode_hex(&encode_hex(input)).unwrap(), input);
}

#[test]
fn encode_hex_10_bytes_has_9_dashes() {
    let data: Vec<u8> = (0..10).collect();
    let s = encode_hex(&data);
    assert_eq!(s.chars().filter(|&c| c == '-').count(), 9);
}

// ── encode_base64_pem ─────────────────────────────────────────────────────

#[test]
fn encode_base64_pem_empty() {
    assert_eq!(encode_base64_pem(b""), "");
}

#[test]
fn encode_base64_pem_short_no_wrap() {
    // "Man" encodes to "TWFu" — 4 chars, fits in one line.
    let s = encode_base64_pem(b"Man");
    assert_eq!(s, "TWFu\r\n");
}

#[test]
fn encode_base64_pem_hello() {
    // "Hello" base64 = "SGVsbG8=" — fits in one line.
    let s = encode_base64_pem(b"Hello");
    assert_eq!(s, "SGVsbG8=\r\n");
}

#[test]
fn encode_base64_pem_exact_48_bytes_is_one_line() {
    // 48 bytes → 64 base64 chars (exactly one PEM line, no split).
    let data = vec![0u8; 48];
    let s = encode_base64_pem(&data);
    // 64 A's + "=" padding already handled — all zeros → "AAAA...".
    let lines: Vec<&str> = s.split("\r\n").filter(|l| !l.is_empty()).collect();
    assert_eq!(lines.len(), 1);
    assert_eq!(lines[0].len(), 64);
}

#[test]
fn encode_base64_pem_49_bytes_wraps_to_two_lines() {
    // 49 bytes → 68 base64 chars → first line 64, second line 4.
    let data = vec![0u8; 49];
    let s = encode_base64_pem(&data);
    let lines: Vec<&str> = s.split("\r\n").filter(|l| !l.is_empty()).collect();
    assert_eq!(lines.len(), 2);
    assert_eq!(lines[0].len(), 64);
    assert_eq!(lines[1].len(), 4);
}

#[test]
fn encode_base64_pem_all_lines_end_crlf() {
    // Every line must be terminated with \r\n.
    let data: Vec<u8> = (0u8..=255u8).collect();
    let s = encode_base64_pem(&data);
    for ch in s.split('\n') {
        if !ch.is_empty() {
            assert!(ch.ends_with('\r'), "line must end with \\r before \\n");
        }
    }
}

#[test]
fn encode_base64_pem_line_length_at_most_64() {
    let data: Vec<u8> = (0u8..=255u8).collect();
    let s = encode_base64_pem(&data);
    for line in s.split("\r\n").filter(|l| !l.is_empty()) {
        assert!(line.len() <= 64, "line too long: {}", line.len());
    }
}

#[test]
fn encode_base64_pem_roundtrip_all_bytes() {
    let all: Vec<u8> = (0u8..=255u8).collect();
    let encoded = encode_base64_pem(&all);
    let decoded = decode_base64(&encoded).expect("round-trip must decode");
    assert_eq!(decoded, all);
}

#[test]
fn encode_base64_pem_roundtrip_mz_header() {
    let input = &[0x4D, 0x5A, 0x00, 0x00u8];
    let encoded = encode_base64_pem(input);
    let decoded = decode_base64(&encoded).expect("round-trip must decode");
    assert_eq!(decoded, input);
}

#[test]
fn encode_base64_pem_96_bytes_exactly_two_full_lines() {
    // 96 bytes → 128 base64 chars → 2 lines of 64 each.
    let data = vec![0xFFu8; 96];
    let s = encode_base64_pem(&data);
    let lines: Vec<&str> = s.split("\r\n").filter(|l| !l.is_empty()).collect();
    assert_eq!(lines.len(), 2);
    assert!(lines.iter().all(|l| l.len() == 64));
}

#[test]
fn encode_base64_pem_single_byte() {
    // 1 byte encodes to 4 base64 chars with two padding '='.
    let s = encode_base64_pem(&[0x00]);
    assert_eq!(s, "AA==\r\n");
}

#[test]
fn encode_base64_pem_two_bytes() {
    // 2 bytes → 4 chars with one padding '='.
    let s = encode_base64_pem(&[0x00, 0x00]);
    assert_eq!(s, "AAA=\r\n");
}

#[test]
fn encode_base64_pem_large_roundtrip() {
    // 1000-byte payload to exercise multi-line wrap thoroughly.
    let data: Vec<u8> = (0u8..=255u8).cycle().take(1000).collect();
    let encoded = encode_base64_pem(&data);
    let decoded = decode_base64(&encoded).expect("large round-trip must decode");
    assert_eq!(decoded, data);
}

// ── decode_base64 PEM-style input (TPU-15.5 verification) ────────────────

#[test]
fn decode_base64_accepts_crlf_line_wrapped_input() {
    // decode_base64 uses is_ascii_whitespace() which covers \r (0x0D) and
    // \n (0x0A), so PEM-style CRLF-terminated lines decode transparently.
    let pem = "SGVs\r\nbG8=\r\n";
    assert_eq!(decode_base64(pem).unwrap(), b"Hello");
}

#[test]
fn decode_base64_accepts_lf_only_line_wrapped_input() {
    let lf = "SGVs\nbG8=\n";
    assert_eq!(decode_base64(lf).unwrap(), b"Hello");
}

#[test]
fn decode_base64_accepts_64char_lines_crlf() {
    // Build a PEM body manually: 64 chars per line, CRLF terminated.
    // 48 zero bytes -> 64 base64 'A' chars, "AAAA...AAAA==".
    // Actually 48 zero bytes -> exactly 64 'A' chars (no padding).
    let data = vec![0u8; 48];
    let flat = encode_base64(&data);
    assert_eq!(flat.len(), 64);
    let pem = format!("{}\r\n", flat);
    let decoded = decode_base64(&pem).unwrap();
    assert_eq!(decoded, data);
}

#[test]
fn decode_base64_accepts_multiline_crlf_all_bytes() {
    // Full roundtrip: encode with PEM wrapper, decode, must equal original.
    let all: Vec<u8> = (0u8..=255u8).collect();
    let pem = encode_base64_pem(&all);
    // Confirm it really has \r\n in it.
    assert!(pem.contains("\r\n"));
    let decoded = decode_base64(&pem).unwrap();
    assert_eq!(decoded, all);
}

#[test]
fn decode_base64_pem_empty_lines_ignored() {
    // Extra blank CRLF lines (as may appear around PEM headers) are stripped.
    let pem = "\r\nSGVsbG8=\r\n\r\n";
    assert_eq!(decode_base64(pem).unwrap(), b"Hello");
}

#[test]
fn only_the_last_base64_group_may_be_padded() {
    assert_eq!(
        decode_base64("AA==AAAA").unwrap_err(),
        "unexpected base64 data behind the padding at position 4"
    );
    assert!(decode_base64("AAA=AAA=").is_err());
    assert_eq!(decode_base64("AAAAAA==").unwrap(), [0, 0, 0, 0]);
}
