use tpu::encoding::{
    apply_line_ending_to_all, normalize_bytes_to_lf, normalize_u16_to_lf, replace_u16_pairs,
    should_write_bom, BomPolicy, LineEnding, OutputEncoding, TextEncoding, UTF8_BOM,
};

// ── should_write_bom: exhaustive truth table ─────────────────────────────

#[test]
fn should_write_bom_never_when_preserving_source_encoding() {
    // OutputEncoding::Preserve suppresses the BOM regardless of policy or
    // whether the source had one.
    for policy in [BomPolicy::Strip, BomPolicy::Preserve, BomPolicy::Force] {
        for had_bom in [false, true] {
            assert!(
                !should_write_bom(OutputEncoding::Preserve, policy, had_bom),
                "Preserve encoding must never emit a BOM ({policy:?}, had_bom={had_bom})"
            );
        }
    }
}

#[test]
fn should_write_bom_strip_is_always_false() {
    for had_bom in [false, true] {
        assert!(!should_write_bom(
            OutputEncoding::Utf8,
            BomPolicy::Strip,
            had_bom
        ));
    }
}

#[test]
fn should_write_bom_force_is_always_true_under_utf8() {
    // Including when the source had no BOM — e.g. an empty file.
    for had_bom in [false, true] {
        assert!(should_write_bom(
            OutputEncoding::Utf8,
            BomPolicy::Force,
            had_bom
        ));
    }
}

#[test]
fn should_write_bom_preserve_mirrors_the_source() {
    assert!(should_write_bom(
        OutputEncoding::Utf8,
        BomPolicy::Preserve,
        true
    ));
    assert!(!should_write_bom(
        OutputEncoding::Utf8,
        BomPolicy::Preserve,
        false
    ));
}

#[test]
fn utf8_bom_is_the_expected_byte_sequence() {
    assert_eq!(UTF8_BOM, &[0xEF, 0xBB, 0xBF]);
}

#[test]
fn bom_policy_from_str_strip() {
    assert_eq!("strip".parse::<BomPolicy>().unwrap(), BomPolicy::Strip);
}

#[test]
fn bom_policy_from_str_preserve() {
    assert_eq!(
        "preserve".parse::<BomPolicy>().unwrap(),
        BomPolicy::Preserve
    );
}

#[test]
fn bom_policy_from_str_force() {
    assert_eq!("force".parse::<BomPolicy>().unwrap(), BomPolicy::Force);
}

#[test]
fn bom_policy_from_str_invalid() {
    let err = "auto".parse::<BomPolicy>().unwrap_err();
    assert!(err.contains("invalid --bom value"));
    assert!(err.contains("\"auto\""));
}

#[test]
fn output_encoding_default_is_preserve() {
    assert_eq!(OutputEncoding::default(), OutputEncoding::Preserve);
}

#[test]
fn bom_policy_default_is_strip() {
    assert_eq!(BomPolicy::default(), BomPolicy::Strip);
}

#[test]
fn bom_policy_debug_roundtrip_strip() {
    assert!(format!("{:?}", BomPolicy::Strip).contains("Strip"));
}

#[test]
fn bom_policy_debug_roundtrip_preserve() {
    assert!(format!("{:?}", BomPolicy::Preserve).contains("Preserve"));
}

#[test]
fn bom_policy_debug_roundtrip_force() {
    assert!(format!("{:?}", BomPolicy::Force).contains("Force"));
}

#[test]
fn bom_policy_from_str_empty_string_is_error() {
    assert!("".parse::<BomPolicy>().is_err());
}

#[test]
fn bom_policy_from_str_case_sensitive() {
    // Values must be lowercase; "Strip" (titlecase) is not accepted.
    assert!("Strip".parse::<BomPolicy>().is_err());
    assert!("STRIP".parse::<BomPolicy>().is_err());
}

#[test]
fn output_encoding_variants_are_distinct() {
    assert_ne!(OutputEncoding::Preserve, OutputEncoding::Utf8);
}

// ── replace_u16_pairs (UTF-16 code-unit stepping) ────────────────────────

#[test]
fn replace_u16_pairs_replaces_aligned_needle() {
    // UTF-16LE: 'A' (U+0041) followed by an LF code unit (U+000A).
    let bytes = [0x41, 0x00, 0x0A, 0x00];
    let out = replace_u16_pairs(&bytes, [0x0A, 0x00], &[0x0D, 0x00, 0x0A, 0x00]);
    assert_eq!(out, [0x41, 0x00, 0x0D, 0x00, 0x0A, 0x00]);
}

#[test]
fn replace_u16_pairs_ignores_cross_code_unit_false_match() {
    // UTF-16LE: U+0A41 then U+0100 -> bytes 41 0A 00 01.  A 1-byte scan
    // would see [0x0A, 0x00] straddling the two code units at offset 1 and
    // corrupt the stream; a 2-byte scan must leave the input untouched.
    let bytes = [0x41, 0x0A, 0x00, 0x01];
    let out = replace_u16_pairs(&bytes, [0x0A, 0x00], &[0x0D, 0x00, 0x0A, 0x00]);
    assert_eq!(out, bytes);
}

#[test]
fn replace_u16_pairs_forwards_odd_trailing_byte() {
    // Malformed odd-length input: the trailing byte is preserved.
    let bytes = [0x0A, 0x00, 0x42];
    let out = replace_u16_pairs(&bytes, [0x0A, 0x00], &[0x0D, 0x00, 0x0A, 0x00]);
    assert_eq!(out, [0x0D, 0x00, 0x0A, 0x00, 0x42]);
}

#[test]
fn apply_line_ending_to_all_utf16le_preserves_cross_unit_bytes() {
    // U+0A41, U+0100, then an actual LF unit (U+000A).  Converting to CRLF
    // must rewrite only the real line ending and leave the first two units
    // intact (no spurious match at the odd byte boundary).
    let bytes = vec![0x41, 0x0A, 0x00, 0x01, 0x0A, 0x00];
    let out = apply_line_ending_to_all(bytes, &TextEncoding::Utf16Le, LineEnding::CrLf);
    assert_eq!(out, [0x41, 0x0A, 0x00, 0x01, 0x0D, 0x00, 0x0A, 0x00]);
}

// ── normalize_bytes_to_lf ─────────────────────────────────────────────────

#[test]
fn normalize_bytes_to_lf_empty() {
    assert_eq!(normalize_bytes_to_lf(b""), b"");
}

#[test]
fn normalize_bytes_to_lf_lone_lf_is_unchanged() {
    assert_eq!(normalize_bytes_to_lf(b"a\nb"), b"a\nb");
}

#[test]
fn normalize_bytes_to_lf_crlf_pair_becomes_single_lf() {
    assert_eq!(normalize_bytes_to_lf(b"a\r\nb"), b"a\nb");
}

/// A lone CR (not immediately followed by LF) must still become LF, and
/// the byte *after* it must be processed independently -- pins the
/// `bytes.get(idx + 1) == Some(&0x0A)` lookahead against a mutation that
/// makes it unconditionally true (which would misclassify every CR as
/// CRLF and wrongly consume the following byte).
#[test]
fn normalize_bytes_to_lf_lone_cr_not_followed_by_lf() {
    assert_eq!(normalize_bytes_to_lf(b"a\rb"), b"a\nb");
}

#[test]
fn normalize_bytes_to_lf_trailing_lone_cr() {
    assert_eq!(normalize_bytes_to_lf(b"a\r"), b"a\n");
}

#[test]
fn normalize_bytes_to_lf_mixed_terminators() {
    assert_eq!(normalize_bytes_to_lf(b"a\nb\r\nc\rd"), b"a\nb\nc\nd");
}

// ── normalize_u16_to_lf ───────────────────────────────────────────────────

const CR_LE: [u8; 2] = [0x0D, 0x00];
const LF_LE: [u8; 2] = [0x0A, 0x00];

#[test]
fn normalize_u16_to_lf_empty() {
    assert_eq!(normalize_u16_to_lf(&[], CR_LE, LF_LE), Vec::<u8>::new());
}

#[test]
fn normalize_u16_to_lf_lone_lf_unit_is_unchanged() {
    // 'a' unit, LF unit, 'b' unit (UTF-16LE).
    let bytes = [0x61, 0x00, 0x0A, 0x00, 0x62, 0x00];
    assert_eq!(normalize_u16_to_lf(&bytes, CR_LE, LF_LE), bytes);
}

#[test]
fn normalize_u16_to_lf_crlf_pair_becomes_single_lf_unit() {
    let bytes = [0x61, 0x00, 0x0D, 0x00, 0x0A, 0x00, 0x62, 0x00];
    let out = normalize_u16_to_lf(&bytes, CR_LE, LF_LE);
    assert_eq!(out, [0x61, 0x00, 0x0A, 0x00, 0x62, 0x00]);
}

/// A lone CR unit (not immediately followed by an LF unit) must still
/// become an LF unit, and the following unit must be processed on its
/// own -- pins the CRLF-lookahead comparison against a mutation that
/// makes it unconditionally true.
#[test]
fn normalize_u16_to_lf_lone_cr_unit_not_followed_by_lf_unit() {
    let bytes = [0x61, 0x00, 0x0D, 0x00, 0x62, 0x00];
    let out = normalize_u16_to_lf(&bytes, CR_LE, LF_LE);
    assert_eq!(out, [0x61, 0x00, 0x0A, 0x00, 0x62, 0x00]);
}

#[test]
fn normalize_u16_to_lf_trailing_lone_cr_unit() {
    let bytes = [0x61, 0x00, 0x0D, 0x00];
    let out = normalize_u16_to_lf(&bytes, CR_LE, LF_LE);
    assert_eq!(out, [0x61, 0x00, 0x0A, 0x00]);
}

#[test]
fn normalize_u16_to_lf_forwards_odd_trailing_byte() {
    let bytes = [0x61, 0x00, 0x42];
    let out = normalize_u16_to_lf(&bytes, CR_LE, LF_LE);
    assert_eq!(out, [0x61, 0x00, 0x42]);
}

#[test]
fn normalize_u16_to_lf_mixed_units() {
    // 'a', LF, CRLF, 'b', lone CR, 'c'.
    let bytes = [
        0x61, 0x00, // a
        0x0A, 0x00, // LF
        0x0D, 0x00, 0x0A, 0x00, // CRLF
        0x62, 0x00, // b
        0x0D, 0x00, // CR
        0x63, 0x00, // c
    ];
    let out = normalize_u16_to_lf(&bytes, CR_LE, LF_LE);
    assert_eq!(
        out,
        [
            0x61, 0x00, // a
            0x0A, 0x00, // LF
            0x0A, 0x00, // LF (from CRLF)
            0x62, 0x00, // b
            0x0A, 0x00, // LF (from lone CR)
            0x63, 0x00, // c
        ]
    );
}

// ── apply_line_ending_to_all: single-byte / UTF-8, target = Cr ───────────

/// Pins `if b == 0x0A { 0x0D } else { b }` against a mutation to `!=`,
/// which would invert which bytes get remapped to CR.
#[test]
fn apply_line_ending_to_all_utf8_target_cr_maps_lf_to_cr_only() {
    let bytes = b"a\nb".to_vec();
    let out = apply_line_ending_to_all(bytes, &TextEncoding::Utf8, LineEnding::Cr);
    assert_eq!(out, b"a\rb");
}
