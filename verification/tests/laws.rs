use tpu::cmd::write::encode_for_file;
use tpu::data_format;
use tpu::data_format::DataFormat;
use tpu::diff::unified_diff;
use tpu::encoding::{
    apply_line_ending_to_all, bom_bytes_for, decode_text_checked, decode_text_lossy,
    decode_text_replacing, decode_text_strict, denormalize_lf, encode_text_lossy,
    encode_text_strict, normalize_bytes_to_lf, normalize_native_to_lf, normalize_text_to_lf,
    parse_line_ending, LineEnding, TextEncoding,
};
use tpu::escape;
use tpu::hash::{crc32_hex, md5_hex};
use tpu::layout::TextLayout;
use tpu::lines::split_lines;
use tpu::source::{open_source, read_lines, read_text, show_text, LineView};

fn encodings() -> Vec<TextEncoding> {
    vec![
        TextEncoding::Utf8,
        TextEncoding::Utf16Le,
        TextEncoding::Utf16Be,
        TextEncoding::Legacy("windows-1252".to_string()),
    ]
}

const ENDINGS: [LineEnding; 3] = [LineEnding::Lf, LineEnding::CrLf, LineEnding::Cr];

// ── Escapes ─────────────────────────────────────────────────────────────────

#[test]
fn escaped_text_is_printable_and_comes_back() {
    let text = "a\\b\0\t\r\n\u{1}\u{7F}é世😀\u{10FFFF}";
    let escaped = escape::encode(text);
    assert!(escaped.bytes().all(|b| (0x20..=0x7E).contains(&b)), "{escaped}");
    assert_eq!(escape::decode(&escaped).unwrap(), text);
    assert_eq!(escape::decode_bytes(&escaped).unwrap(), text.as_bytes());
}

#[test]
fn escaped_bytes_are_printable_and_come_back() {
    let all: Vec<u8> = (0..=255).collect();
    let escaped = escape::encode_bytes(&all);
    assert!(escaped.bytes().all(|b| (0x20..=0x7E).contains(&b)));
    assert_eq!(escape::decode_bytes(&escaped).unwrap(), all);
}

// ── Data formats ────────────────────────────────────────────────────────────

#[test]
fn every_format_comes_back() {
    let all: Vec<u8> = (0..=255).collect();
    for format in [DataFormat::Encoded, DataFormat::Hex, DataFormat::Base64] {
        let text = data_format::encode(&format, &all);
        assert!(text.is_ascii());
        assert_eq!(data_format::decode(&format, &text).unwrap(), all);
    }
}

// ── Line endings ────────────────────────────────────────────────────────────

#[test]
fn normalised_bytes_hold_no_cr() {
    let lf = normalize_bytes_to_lf(b"a\r\nb\rc\r\r\n");
    assert!(!lf.contains(&0x0D));
    assert_eq!(normalize_bytes_to_lf(&lf), lf);
}

#[test]
fn normalising_undoes_denormalising() {
    for e in encodings() {
        let native = encode_text_lossy("a\nb\n\nc", &e).unwrap();
        for ending in ENDINGS {
            let written = denormalize_lf(native.clone(), &e, ending);
            assert_eq!(normalize_native_to_lf(&written, &e), native);
        }
    }
}

#[test]
fn the_last_line_ending_wins() {
    for e in encodings() {
        let native = encode_text_lossy("a\r\nb\nc\r", &e).unwrap();
        for first in ENDINGS {
            for last in ENDINGS {
                let once = apply_line_ending_to_all(native.clone(), &e, last);
                let twice = apply_line_ending_to_all(
                    apply_line_ending_to_all(native.clone(), &e, first),
                    &e,
                    last,
                );
                assert_eq!(once, twice);
            }
        }
    }
}

#[test]
fn converting_bytes_is_converting_text() {
    let e = TextEncoding::Utf16Be;
    let native = encode_text_lossy("a\r\n\u{0A0D}b\r", &e).unwrap();
    let lf = encode_text_lossy(&normalize_text_to_lf("a\r\n\u{0A0D}b\r"), &e).unwrap();
    assert_eq!(normalize_native_to_lf(&native, &e), lf);
}

#[test]
fn line_ending_names() {
    assert_eq!(parse_line_ending("crlf").unwrap(), LineEnding::CrLf);
    assert!(parse_line_ending("nl").is_err());
}

#[test]
fn the_projection_is_the_census_after_conversion() {
    let text = "a\nb\r\nc\rd\n";
    let layout = TextLayout::analyze(text);
    assert_eq!((layout.lf, layout.crlf, layout.cr), (2, 1, 1));
    assert!(layout.is_mixed());
    let converted = TextLayout::analyze(&normalize_text_to_lf(text).replace('\n', "\r\n"));
    assert_eq!(layout.projected_onto(LineEnding::CrLf), converted);
}

#[test]
fn lines_make_up_the_text() {
    assert_eq!(split_lines("a\n\nb"), ["a", "", "b"]);
    assert_eq!(split_lines("a\nb\n"), ["a", "b"]);
    assert!(split_lines("").is_empty());
}

// ── Encodings ───────────────────────────────────────────────────────────────

#[test]
fn encoded_text_decodes() {
    for e in encodings() {
        let bytes = encode_text_strict("é!", &e).unwrap();
        assert_eq!(decode_text_strict(&bytes, &e).unwrap(), "é!");
        assert_eq!(decode_text_replacing(&bytes, &e).unwrap(), "é!");
        assert_eq!(decode_text_lossy(&bytes, &e).unwrap(), "é!");
        assert_eq!(decode_text_checked(&bytes, &e).unwrap(), ("é!".to_string(), false));
    }
    let cp1252 = TextEncoding::Legacy("windows-1252".to_string());
    assert_eq!(encode_text_strict("é!", &cp1252).unwrap(), b"\xE9!");
    assert!(encode_text_strict("世", &cp1252).is_err());
    assert_eq!(encode_text_lossy("世", &cp1252).unwrap(), b"&#19990;");
}

#[test]
fn every_byte_of_windows_1252_comes_back() {
    let cp1252 = TextEncoding::Legacy("windows-1252".to_string());
    let all: Vec<u8> = (0..=255).collect();
    let text = decode_text_strict(&all, &cp1252).unwrap();
    assert_eq!(text.chars().count(), 256);
    assert_eq!(text.chars().nth(0x80).unwrap(), '€');
    assert_eq!(encode_text_strict(&text, &cp1252).unwrap(), all);
}

#[test]
fn written_text_reads_back() {
    let text = "grün\n\nzwei\n";
    for ending in ENDINGS {
        for bom in [false, true] {
            let bytes = encode_for_file(text, &TextEncoding::Utf8, ending, bom).unwrap();
            let read = read_text(&bytes).unwrap();
            assert_eq!(read.text, text);
            assert_eq!(read.encoding.name(), "UTF-8");
            assert_eq!(read.line_ending, ending);
            assert_eq!(read.bom_len, if bom { 3 } else { 0 });
            assert_eq!(open_source(&bytes).unwrap().line_ending, ending);
            assert_eq!(show_text(&bytes).unwrap().line_ending, ending);
        }
        for encoding in [TextEncoding::Utf16Le, TextEncoding::Utf16Be] {
            let bytes = encode_for_file(text, &encoding, ending, true).unwrap();
            let read = read_text(&bytes).unwrap();
            assert_eq!((read.text.as_str(), read.bom_len), (text, 2));
            assert_eq!(read.encoding.name(), encoding.name());
            assert_eq!(show_text(&bytes).unwrap().text, text);
        }
    }
}

#[test]
fn malformed_bytes_are_told_of() {
    assert!(decode_text_strict(b"a\xFF", &TextEncoding::Utf8).is_err());
    assert_eq!(decode_text_replacing(b"a\xFF", &TextEncoding::Utf8).unwrap(), "a\u{FFFD}");
    assert!(decode_text_checked(b"a\xFF", &TextEncoding::Utf8).unwrap().1);
    let unknown = TextEncoding::Legacy("no such".to_string());
    assert_eq!(decode_text_lossy(b"a", &unknown).unwrap_err(), "unknown encoding no such");
}

#[test]
fn byte_order_marks() {
    assert_eq!(bom_bytes_for(&TextEncoding::Utf8), b"\xEF\xBB\xBF");
    assert_eq!(bom_bytes_for(&TextEncoding::Utf16Le), b"\xFF\xFE");
    assert_eq!(bom_bytes_for(&TextEncoding::Utf16Be), b"\xFE\xFF");
    assert!(bom_bytes_for(&TextEncoding::Legacy("windows-1252".to_string())).is_empty());
    let sniffed = decode_text_lossy(b"\xFF\xFEa\x00", &TextEncoding::Utf8).unwrap();
    assert_eq!(sniffed, "a");
}

// ── Files ───────────────────────────────────────────────────────────────────

#[test]
fn files_are_detected() {
    let info = open_source(b"\xFE\xFF\x00a\x00\r\x00\n").unwrap();
    assert_eq!(info.encoding.name(), "UTF-16BE");
    assert_eq!(info.bom_len, 2);
    assert_eq!(info.line_ending, LineEnding::CrLf);
    let info = open_source("é\n".as_bytes()).unwrap();
    assert_eq!(info.encoding.name(), "UTF-8");
    assert_eq!(info.bom_len, 0);
}

#[test]
fn files_are_read() {
    let bytes = b"\xFF\xFEa\x00\r\x00\n\x00b\x00";
    assert_eq!(read_text(bytes).unwrap().text, "a\nb");
    assert_eq!(show_text(bytes).unwrap().text, "a\nb");
    assert_eq!(read_lines(bytes).unwrap(), ["a", "b"]);
    assert!(read_text(b"\xEF\xBB\xBFa\xFF").is_err());
    assert_eq!(show_text(b"\xEF\xBB\xBFa\xFF").unwrap().text, "a\u{FFFD}");
}

#[test]
fn a_view_leads_back_to_the_file() {
    let view = LineView::over(b"xxa\r\nb\rc", 2, &TextEncoding::Utf8).unwrap();
    assert_eq!(view.content(), b"a\r\nb\rc");
    assert_eq!(view.bytes().as_slice(), b"a\nb\nc");
    assert_eq!(view.encoding().name(), "UTF-8");
    let back: Vec<usize> = (0..=6).map(|n| view.to_source(n)).collect();
    assert_eq!(back, [2, 3, 4, 5, 6, 7, 8]);
}

// ── Checksums and diffs ─────────────────────────────────────────────────────

#[test]
fn checksums() {
    assert_eq!(crc32_hex(b"hello"), "3610a686");
    assert_eq!(md5_hex(b"hello"), "5d41402abc4b2a76b9719d911017c592");
}

#[test]
fn a_diff_shows_both_sides() {
    let diff = unified_diff("f", "a\nb\n", "a\nc\n");
    assert!(diff.contains("--- a/f") && diff.contains("+++ b/f"), "{diff}");
    assert!(diff.contains("-b\n+c\n"), "{diff}");
}
