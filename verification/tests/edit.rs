use std::cell::RefCell;

use tpu::cmd::edit::{
    line_range_to_source_bytes, parse_byte_pos, parse_byte_range, parse_line_num, parse_line_range,
    parse_usize_maybe_hex, run, run_line, EditOp, EOF_SENTINEL,
};
use tpu::encoding::{LineEnding, TextEncoding};
use tpu::source::{LineView, SourceInfo};

// ── parse_byte_range ──────────────────────────────────────────────────────

#[test]
fn range_single_decimal() {
    assert_eq!(parse_byte_range("5").unwrap(), (5, 6));
}

#[test]
fn range_single_zero() {
    assert_eq!(parse_byte_range("0").unwrap(), (0, 1));
}

#[test]
fn range_pair_decimal() {
    assert_eq!(parse_byte_range("3-7").unwrap(), (3, 7));
}

#[test]
fn range_pair_adjacent() {
    // Zero-length range (start == end) is syntactically valid.
    assert_eq!(parse_byte_range("5-5").unwrap(), (5, 5));
}

#[test]
fn range_single_hex() {
    assert_eq!(parse_byte_range("0x5").unwrap(), (5, 6));
}

#[test]
fn range_pair_hex() {
    assert_eq!(parse_byte_range("0x3-0xA").unwrap(), (3, 10));
}

#[test]
fn range_mixed_hex_decimal() {
    assert_eq!(parse_byte_range("0x10-32").unwrap(), (16, 32));
}

#[test]
fn range_uppercase_hex() {
    assert_eq!(parse_byte_range("0XFF").unwrap(), (255, 256));
}

#[test]
fn range_large_decimal() {
    assert_eq!(parse_byte_range("100-200").unwrap(), (100, 200));
}

#[test]
fn range_invalid_not_a_number() {
    assert!(parse_byte_range("abc").is_err());
}

#[test]
fn range_invalid_bad_end() {
    assert!(parse_byte_range("5-xyz").is_err());
}

#[test]
fn range_invalid_empty() {
    assert!(parse_byte_range("").is_err());
}

// ── parse_usize_maybe_hex ─────────────────────────────────────────────────

#[test]
fn hex_zero() {
    assert_eq!(parse_usize_maybe_hex("0x0").unwrap(), 0);
}

#[test]
fn hex_ff() {
    assert_eq!(parse_usize_maybe_hex("0xFF").unwrap(), 255);
}

#[test]
fn decimal_plain() {
    assert_eq!(parse_usize_maybe_hex("42").unwrap(), 42);
}

#[test]
fn decimal_zero() {
    assert_eq!(parse_usize_maybe_hex("0").unwrap(), 0);
}

#[test]
fn hex_invalid() {
    assert!(parse_usize_maybe_hex("0xGG").is_err());
}

#[test]
fn decimal_invalid() {
    assert!(parse_usize_maybe_hex("not_a_number").is_err());
}

// ── run_binary (via run) ──────────────────────────────────────────────────

/// The content of a file that is edited in place.
struct Held(RefCell<Vec<u8>>);

fn held(content: &[u8]) -> Held {
    Held(RefCell::new(content.to_vec()))
}

fn run_test(
    file: &Held,
    ops: Vec<EditOp>,
    binary: bool,
    line_ending_override: Option<LineEnding>,
    diff_out: Option<&mut Vec<u8>>,
) -> Result<usize, String> {
    let want_diff = diff_out.is_some();
    let content = read_file_bytes(file);
    let outcome = run("f", &content, ops, binary, line_ending_override, false, want_diff)?;
    if let Some(bytes) = outcome.bytes {
        *file.0.borrow_mut() = bytes;
    }
    if let (Some(out), Some(diff)) = (diff_out, outcome.diff) {
        out.extend_from_slice(diff.as_bytes());
    }
    Ok(outcome.op_count)
}

fn read_file_bytes(file: &Held) -> Vec<u8> {
    file.0.borrow().clone()
}

// Delete middle bytes.
#[test]
fn binary_delete_middle() {
    let p = held(b"ABCDEFGHIJ");
    // Delete bytes [3, 6): "DEF"
    let n = run_test(
        &p,
        vec![EditOp::Delete { start: 3, end: 6 }],
        true,
        None,
        None,
    )
    .unwrap();
    assert_eq!(n, 1);
    assert_eq!(read_file_bytes(&p), b"ABCGHIJ");
}

// Delete first byte.
#[test]
fn binary_delete_first() {
    let p = held(b"XABCDE");
    run_test(
        &p,
        vec![EditOp::Delete { start: 0, end: 1 }],
        true,
        None,
        None,
    )
    .unwrap();
    assert_eq!(read_file_bytes(&p), b"ABCDE");
}

// Delete last byte.
#[test]
fn binary_delete_last() {
    let p = held(b"ABCDEX");
    run_test(
        &p,
        vec![EditOp::Delete { start: 5, end: 6 }],
        true,
        None,
        None,
    )
    .unwrap();
    assert_eq!(read_file_bytes(&p), b"ABCDE");
}

// Delete all bytes.
#[test]
fn binary_delete_all() {
    let p = held(b"ABCDE");
    run_test(
        &p,
        vec![EditOp::Delete { start: 0, end: 5 }],
        true,
        None,
        None,
    )
    .unwrap();
    assert_eq!(read_file_bytes(&p), b"");
}

// Insert at beginning.
#[test]
fn binary_insert_at_start() {
    let p = held(b"BCDE");
    run_test(
        &p,
        vec![EditOp::Insert {
            offset: 0,
            data: b"A".to_vec(),
        }],
        true,
        None,
        None,
    )
    .unwrap();
    assert_eq!(read_file_bytes(&p), b"ABCDE");
}

// Insert in middle.
#[test]
fn binary_insert_middle() {
    let p = held(b"ABDE");
    run_test(
        &p,
        vec![EditOp::Insert {
            offset: 2,
            data: b"C".to_vec(),
        }],
        true,
        None,
        None,
    )
    .unwrap();
    assert_eq!(read_file_bytes(&p), b"ABCDE");
}

// Insert at end (append).
#[test]
fn binary_insert_at_end() {
    let p = held(b"ABCD");
    run_test(
        &p,
        vec![EditOp::Insert {
            offset: 4,
            data: b"E".to_vec(),
        }],
        true,
        None,
        None,
    )
    .unwrap();
    assert_eq!(read_file_bytes(&p), b"ABCDE");
}

// Splice: replace with longer content.
#[test]
fn binary_splice_grow() {
    let p = held(b"AXXXE");
    run_test(
        &p,
        vec![EditOp::Splice {
            start: 1,
            end: 4,
            data: b"BCD".to_vec(),
        }],
        true,
        None,
        None,
    )
    .unwrap();
    assert_eq!(read_file_bytes(&p), b"ABCDE");
}

// Splice: replace with shorter content.
#[test]
fn binary_splice_shrink() {
    let p = held(b"ABCCCDE");
    run_test(
        &p,
        vec![EditOp::Splice {
            start: 2,
            end: 5,
            data: b"C".to_vec(),
        }],
        true,
        None,
        None,
    )
    .unwrap();
    assert_eq!(read_file_bytes(&p), b"ABCDE");
}

// Multi-op composability: three non-overlapping ops, positions reference original.
#[test]
fn binary_multi_op_composable() {
    // Original: "A_BCXXDE"
    let p = held(b"A_BCXXDE");
    let ops = vec![
        EditOp::Delete { start: 1, end: 2 }, // remove '_'  at [1,2)
        EditOp::Splice {
            start: 4,
            end: 6,
            data: b"".to_vec(),
        }, // remove "XX" at [4,6)
        EditOp::Insert {
            offset: 8,
            data: b"!".to_vec(),
        }, // append '!'  at end
    ];
    run_test(&p, ops, true, None, None).unwrap();
    assert_eq!(read_file_bytes(&p), b"ABCDE!");
}

// Ops in forward vs reverse CLI order produce the same result.
#[test]
fn binary_order_independence() {
    let content = b"ABCDE";

    let p1 = held(content);
    run_test(
        &p1,
        vec![
            EditOp::Delete { start: 0, end: 1 },
            EditOp::Delete { start: 3, end: 4 },
        ],
        true,
        None,
        None,
    )
    .unwrap();

    let p2 = held(content);
    run_test(
        &p2,
        vec![
            EditOp::Delete { start: 3, end: 4 },
            EditOp::Delete { start: 0, end: 1 },
        ],
        true,
        None,
        None,
    )
    .unwrap();

    assert_eq!(read_file_bytes(&p1), read_file_bytes(&p2));
}

// Zero ops returns 0 without touching the file.
#[test]
fn binary_empty_ops() {
    let p = held(b"ABCDE");
    let n = run_test(&p, vec![], true, None, None).unwrap();
    assert_eq!(n, 0);
    assert_eq!(read_file_bytes(&p), b"ABCDE");
}

// Out-of-range end offset → error before file modification.
#[test]
fn binary_out_of_range_end() {
    let p = held(b"ABCDE");
    let result = run_test(
        &p,
        vec![EditOp::Delete { start: 3, end: 10 }],
        true,
        None,
        None,
    );
    assert!(result.is_err(), "expected error for out-of-range range");
    assert_eq!(read_file_bytes(&p), b"ABCDE");
}

// Insert offset past EOF → error before file modification.
#[test]
fn binary_insert_past_eof() {
    let p = held(b"ABCDE");
    let result = run_test(
        &p,
        vec![EditOp::Insert {
            offset: 99,
            data: b"X".to_vec(),
        }],
        true,
        None,
        None,
    );
    assert!(result.is_err());
    assert_eq!(read_file_bytes(&p), b"ABCDE");
}

// Overlapping ranges → error before file modification.
#[test]
fn binary_overlapping_ranges() {
    let p = held(b"ABCDE");
    let ops = vec![
        EditOp::Delete { start: 1, end: 4 },
        EditOp::Delete { start: 3, end: 5 }, // overlaps [1,4)
    ];
    let result = run_test(&p, ops, true, None, None);
    assert!(result.is_err(), "expected error for overlapping ranges");
    assert_eq!(read_file_bytes(&p), b"ABCDE");
}

// Adjacent ranges are permitted (end of one == start of next).
#[test]
fn binary_adjacent_ranges_ok() {
    let p = held(b"ABCDE");
    let ops = vec![
        EditOp::Delete { start: 0, end: 2 }, // [0,2) removes "AB"
        EditOp::Delete { start: 2, end: 4 }, // [2,4) removes "CD"
    ];
    run_test(&p, ops, true, None, None).unwrap();
    assert_eq!(read_file_bytes(&p), b"E");
}

// Invalid range: start > end → error.
#[test]
fn binary_invalid_range_start_gt_end() {
    let p = held(b"ABCDE");
    let result = run_test(
        &p,
        vec![EditOp::Delete { start: 4, end: 2 }],
        true,
        None,
        None,
    );
    assert!(result.is_err());
    assert_eq!(read_file_bytes(&p), b"ABCDE");
}

// Single-byte file: delete the only byte.
#[test]
fn binary_single_byte_file() {
    let p = held(b"X");
    run_test(
        &p,
        vec![EditOp::Delete { start: 0, end: 1 }],
        true,
        None,
        None,
    )
    .unwrap();
    assert_eq!(read_file_bytes(&p), b"");
}

// Empty ops in line mode returns 0, file unchanged.
#[test]
fn line_mode_empty_ops() {
    let p = held(b"hello\n");
    let n = run_test(&p, vec![], false, None, None).unwrap();
    assert_eq!(n, 0);
    assert_eq!(read_file_bytes(&p), b"hello\n");
}

// ── line_range_to_source_bytes ────────────────────────────────────────────

fn make_view(content: &[u8]) -> LineView {
    LineView::over(content, 0, &TextEncoding::Utf8).unwrap()
}

// First line of an LF file.
#[test]
fn lrsb_lf_first_line() {
    let view = make_view(b"abc\ndef\nghi\n");
    assert_eq!(line_range_to_source_bytes(&view, 1, 1).unwrap(), (0, 4));
}

// Middle line of an LF file.
#[test]
fn lrsb_lf_middle_line() {
    let view = make_view(b"abc\ndef\nghi\n");
    assert_eq!(line_range_to_source_bytes(&view, 2, 2).unwrap(), (4, 8));
}

// Last line of an LF file (trailing newline).
#[test]
fn lrsb_lf_last_line_with_nl() {
    let view = make_view(b"abc\ndef\nghi\n");
    assert_eq!(line_range_to_source_bytes(&view, 3, 3).unwrap(), (8, 12));
}

// Last line of an LF file (no trailing newline).
#[test]
fn lrsb_lf_last_line_no_nl() {
    let view = make_view(b"abc\ndef\nghi");
    assert_eq!(line_range_to_source_bytes(&view, 3, 3).unwrap(), (8, 11));
}

// Multi-line range spanning first two lines.
#[test]
fn lrsb_lf_multi_first_two() {
    let view = make_view(b"abc\ndef\nghi\n");
    assert_eq!(line_range_to_source_bytes(&view, 1, 2).unwrap(), (0, 8));
}

// Multi-line range spanning last two lines.
#[test]
fn lrsb_lf_multi_last_two() {
    let view = make_view(b"abc\ndef\nghi\n");
    assert_eq!(line_range_to_source_bytes(&view, 2, 3).unwrap(), (4, 12));
}

// Multi-line range spanning entire file.
#[test]
fn lrsb_lf_entire_file() {
    let view = make_view(b"abc\ndef\nghi\n");
    assert_eq!(line_range_to_source_bytes(&view, 1, 3).unwrap(), (0, 12));
}

// Single-line file with trailing newline.
#[test]
fn lrsb_lf_single_line_file_with_nl() {
    let view = make_view(b"hello\n");
    assert_eq!(line_range_to_source_bytes(&view, 1, 1).unwrap(), (0, 6));
}

// Single-line file without trailing newline.
#[test]
fn lrsb_lf_single_line_file_no_nl() {
    let view = make_view(b"hello");
    assert_eq!(line_range_to_source_bytes(&view, 1, 1).unwrap(), (0, 5));
}

// Empty line in file (blank line between two content lines).
#[test]
fn lrsb_lf_empty_line_in_middle() {
    // "abc\n\ndef\n" — line 2 is an empty line (just a newline)
    let view = make_view(b"abc\n\ndef\n");
    assert_eq!(line_range_to_source_bytes(&view, 2, 2).unwrap(), (4, 5));
}

// CRLF file — first line.
#[test]
fn lrsb_crlf_first_line() {
    let view = make_view(b"abc\r\ndef\r\nghi\r\n");
    // Line 1 = "abc\r\n" at source [0, 5)
    assert_eq!(line_range_to_source_bytes(&view, 1, 1).unwrap(), (0, 5));
}

// CRLF file — middle line.
#[test]
fn lrsb_crlf_middle_line() {
    let view = make_view(b"abc\r\ndef\r\nghi\r\n");
    // Line 2 = "def\r\n" at source [5, 10)
    assert_eq!(line_range_to_source_bytes(&view, 2, 2).unwrap(), (5, 10));
}

// CRLF file — last line.
#[test]
fn lrsb_crlf_last_line() {
    let view = make_view(b"abc\r\ndef\r\nghi\r\n");
    // Line 3 = "ghi\r\n" at source [10, 15)
    assert_eq!(line_range_to_source_bytes(&view, 3, 3).unwrap(), (10, 15));
}

// CRLF file — multi-line range.
#[test]
fn lrsb_crlf_multi_line() {
    let view = make_view(b"abc\r\ndef\r\nghi\r\n");
    // Lines 1-2 = "abc\r\ndef\r\n" at source [0, 10)
    assert_eq!(line_range_to_source_bytes(&view, 1, 2).unwrap(), (0, 10));
}

// CR file — first line.
#[test]
fn lrsb_cr_first_line() {
    let view = make_view(b"abc\rdef\rghi\r");
    // CR is 1:1 with LF so source offsets equal normalised offsets.
    // Line 1 = "abc\r" at source [0, 4)
    assert_eq!(line_range_to_source_bytes(&view, 1, 1).unwrap(), (0, 4));
}

// CR file — multi-line range.
#[test]
fn lrsb_cr_multi_line() {
    let view = make_view(b"abc\rdef\rghi\r");
    // Lines 2-3 = "def\rghi\r" at source [4, 12)
    assert_eq!(line_range_to_source_bytes(&view, 2, 3).unwrap(), (4, 12));
}

// Out-of-range start line → error.
#[test]
fn lrsb_out_of_range_start() {
    let view = make_view(b"abc\ndef\n");
    assert!(line_range_to_source_bytes(&view, 3, 3).is_err());
}

// Out-of-range end line → error.
#[test]
fn lrsb_out_of_range_end() {
    let view = make_view(b"abc\ndef\n");
    assert!(line_range_to_source_bytes(&view, 1, 5).is_err());
}

// start > end → error.
#[test]
fn lrsb_start_after_end() {
    let view = make_view(b"abc\ndef\n");
    assert!(line_range_to_source_bytes(&view, 2, 1).is_err());
}

// Line number 0 → error (1-based).
#[test]
fn lrsb_zero_line_number() {
    let view = make_view(b"abc\ndef\n");
    assert!(line_range_to_source_bytes(&view, 0, 1).is_err());
}

// Empty file → error.
#[test]
fn lrsb_empty_file() {
    let view = make_view(b"");
    assert!(line_range_to_source_bytes(&view, 1, 1).is_err());
}

// ── run_line (via run) ────────────────────────────────────────────────────

// LF file — delete first line.
#[test]
fn lm_lf_delete_first_line() {
    let p = held(b"abc\ndef\nghi\n");
    let n = run_test(
        &p,
        vec![EditOp::Delete { start: 1, end: 1 }],
        false,
        None,
        None,
    )
    .unwrap();
    assert_eq!(n, 1);
    assert_eq!(read_file_bytes(&p), b"def\nghi\n");
}

// LF file — delete last line (trailing newline case).
#[test]
fn lm_lf_delete_last_line() {
    let p = held(b"abc\ndef\nghi\n");
    run_test(
        &p,
        vec![EditOp::Delete { start: 3, end: 3 }],
        false,
        None,
        None,
    )
    .unwrap();
    assert_eq!(read_file_bytes(&p), b"abc\ndef\n");
}

// LF file — delete middle line.
#[test]
fn lm_lf_delete_middle_line() {
    let p = held(b"abc\ndef\nghi\n");
    run_test(
        &p,
        vec![EditOp::Delete { start: 2, end: 2 }],
        false,
        None,
        None,
    )
    .unwrap();
    assert_eq!(read_file_bytes(&p), b"abc\nghi\n");
}

// LF file — delete multi-line range.
#[test]
fn lm_lf_delete_multi_line() {
    let p = held(b"abc\ndef\nghi\njkl\n");
    run_test(
        &p,
        vec![EditOp::Delete { start: 2, end: 3 }],
        false,
        None,
        None,
    )
    .unwrap();
    assert_eq!(read_file_bytes(&p), b"abc\njkl\n");
}

// LF file — insert before first line.
#[test]
fn lm_lf_insert_before_first() {
    let p = held(b"abc\ndef\n");
    run_test(
        &p,
        vec![EditOp::Insert {
            offset: 1,
            data: b"ZZZ\n".to_vec(),
        }],
        false,
        None,
        None,
    )
    .unwrap();
    assert_eq!(read_file_bytes(&p), b"ZZZ\nabc\ndef\n");
}

// LF file — insert before middle line.
#[test]
fn lm_lf_insert_before_middle() {
    let p = held(b"abc\nghi\n");
    run_test(
        &p,
        vec![EditOp::Insert {
            offset: 2,
            data: b"def\n".to_vec(),
        }],
        false,
        None,
        None,
    )
    .unwrap();
    assert_eq!(read_file_bytes(&p), b"abc\ndef\nghi\n");
}

// LF file — splice (replace) single line with shorter content.
#[test]
fn lm_lf_splice_shrink() {
    let p = held(b"abc\nXXXXX\nghi\n");
    run_test(
        &p,
        vec![EditOp::Splice {
            start: 2,
            end: 2,
            data: b"def\n".to_vec(),
        }],
        false,
        None,
        None,
    )
    .unwrap();
    assert_eq!(read_file_bytes(&p), b"abc\ndef\nghi\n");
}

// LF file — splice multi-line range with single replacement.
#[test]
fn lm_lf_splice_multi_to_one() {
    let p = held(b"abc\nXXX\nYYY\nghi\n");
    run_test(
        &p,
        vec![EditOp::Splice {
            start: 2,
            end: 3,
            data: b"def\n".to_vec(),
        }],
        false,
        None,
        None,
    )
    .unwrap();
    assert_eq!(read_file_bytes(&p), b"abc\ndef\nghi\n");
}

// CRLF file — delete a line, verify CRLF endings preserved.
#[test]
fn lm_crlf_delete_middle_line() {
    let p = held(b"abc\r\ndef\r\nghi\r\n");
    run_test(
        &p,
        vec![EditOp::Delete { start: 2, end: 2 }],
        false,
        None,
        None,
    )
    .unwrap();
    assert_eq!(read_file_bytes(&p), b"abc\r\nghi\r\n");
}

// CRLF file — insert a line; data \n is denormalised to \r\n.
#[test]
fn lm_crlf_insert_line() {
    let p = held(b"abc\r\nghi\r\n");
    run_test(
        &p,
        vec![EditOp::Insert {
            offset: 2,
            data: b"def\n".to_vec(),
        }],
        false,
        None,
        None,
    )
    .unwrap();
    assert_eq!(read_file_bytes(&p), b"abc\r\ndef\r\nghi\r\n");
}

// CRLF file — splice a line; data \n denormalised to \r\n.
#[test]
fn lm_crlf_splice_line() {
    let p = held(b"abc\r\nXXX\r\nghi\r\n");
    run_test(
        &p,
        vec![EditOp::Splice {
            start: 2,
            end: 2,
            data: b"def\n".to_vec(),
        }],
        false,
        None,
        None,
    )
    .unwrap();
    assert_eq!(read_file_bytes(&p), b"abc\r\ndef\r\nghi\r\n");
}

// CR file — delete a line.
#[test]
fn lm_cr_delete_line() {
    let p = held(b"abc\rdef\rghi\r");
    run_test(
        &p,
        vec![EditOp::Delete { start: 2, end: 2 }],
        false,
        None,
        None,
    )
    .unwrap();
    assert_eq!(read_file_bytes(&p), b"abc\rghi\r");
}

// Multi-op composability: delete lines 1 and 3 in original coords.
#[test]
fn lm_multi_op_composable() {
    let p = held(b"aa\nbb\ncc\ndd\n");
    let ops = vec![
        EditOp::Delete { start: 1, end: 1 }, // remove "aa\n"
        EditOp::Delete { start: 3, end: 3 }, // remove "cc\n" (original coord)
    ];
    run_test(&p, ops, false, None, None).unwrap();
    assert_eq!(read_file_bytes(&p), b"bb\ndd\n");
}

// Order independence: same deletes in reverse CLI order.
#[test]
fn lm_order_independence() {
    let content = b"aa\nbb\ncc\ndd\n";
    let p1 = held(content);
    run_test(
        &p1,
        vec![
            EditOp::Delete { start: 1, end: 1 },
            EditOp::Delete { start: 3, end: 3 },
        ],
        false,
        None,
        None,
    )
    .unwrap();

    let p2 = held(content);
    run_test(
        &p2,
        vec![
            EditOp::Delete { start: 3, end: 3 },
            EditOp::Delete { start: 1, end: 1 },
        ],
        false,
        None,
        None,
    )
    .unwrap();

    assert_eq!(read_file_bytes(&p1), read_file_bytes(&p2));
}

// Overlapping line ranges → error, file unchanged.
#[test]
fn lm_overlapping_ranges() {
    let p = held(b"aa\nbb\ncc\ndd\n");
    let ops = vec![
        EditOp::Delete { start: 2, end: 3 },
        EditOp::Delete { start: 3, end: 4 }, // overlaps at line 3
    ];
    assert!(run_test(&p, ops, false, None, None).is_err());
    assert_eq!(read_file_bytes(&p), b"aa\nbb\ncc\ndd\n");
}

// Out-of-range line → error, file unchanged.
#[test]
fn lm_out_of_range() {
    let p = held(b"abc\ndef\n");
    assert!(
        run_test(
            &p,
            vec![EditOp::Delete { start: 5, end: 5 }],
            false,
            None,
            None
        )
        .is_err()
    );
    assert_eq!(read_file_bytes(&p), b"abc\ndef\n");
}

// Line-ending override: splice in LF file, force CRLF on replacement.
#[test]
fn lm_line_ending_override() {
    let p = held(b"abc\ndef\nghi\n");
    run_test(
        &p,
        vec![EditOp::Splice {
            start: 2,
            end: 2,
            data: b"XXX\n".to_vec(),
        }],
        false,
        Some(LineEnding::CrLf),
        None,
    )
    .unwrap();
    // The replacement "XXX\n" must be written as "XXX\r\n".
    let got = read_file_bytes(&p);
    assert!(
        got.contains(&b'\r'),
        "expected \\r in replaced line after override"
    );
    assert!(
        got.windows(2).any(|w| w == b"\r\n"),
        "expected \\r\\n sequence"
    );
}

// No-trailing-newline LF file — delete last line.
#[test]
fn lm_lf_delete_last_line_no_nl() {
    let p = held(b"abc\ndef");
    run_test(
        &p,
        vec![EditOp::Delete { start: 2, end: 2 }],
        false,
        None,
        None,
    )
    .unwrap();
    assert_eq!(read_file_bytes(&p), b"abc\n");
}

// parse_line_range: single decimal.
#[test]
fn plr_single() {
    assert_eq!(parse_line_range("5").unwrap(), (5, 5));
}

// parse_line_range: pair.
#[test]
fn plr_pair() {
    assert_eq!(parse_line_range("3-7").unwrap(), (3, 7));
}

// parse_line_range: zero → error.
#[test]
fn plr_zero() {
    assert!(parse_line_range("0").is_err());
}

// parse_line_range: start > end → error.
#[test]
fn plr_start_after_end() {
    assert!(parse_line_range("5-3").is_err());
}

// parse_line_num: valid.
#[test]
fn pln_valid() {
    assert_eq!(parse_line_num("10").unwrap(), 10);
}

// parse_line_num: zero → error.
#[test]
fn pln_zero() {
    assert!(parse_line_num("0").is_err());
}

// ── EOF sentinel ──────────────────────────────────────────────────

// parse_line_num: "$" → EOF_SENTINEL.
#[test]
fn pln_dollar_sentinel() {
    assert_eq!(parse_line_num("$").unwrap(), EOF_SENTINEL);
}

// parse_line_num: "EOF" (case-insensitive) → EOF_SENTINEL.
#[test]
fn pln_eof_ci() {
    assert_eq!(parse_line_num("EOF").unwrap(), EOF_SENTINEL);
    assert_eq!(parse_line_num("eof").unwrap(), EOF_SENTINEL);
    assert_eq!(parse_line_num("Eof").unwrap(), EOF_SENTINEL);
}

// parse_line_range: "$" → (EOF_SENTINEL, EOF_SENTINEL).
#[test]
fn plr_dollar_single() {
    assert_eq!(parse_line_range("$").unwrap(), (EOF_SENTINEL, EOF_SENTINEL));
}

// parse_line_range: "3-$" → (3, EOF_SENTINEL).
#[test]
fn plr_n_to_dollar() {
    assert_eq!(parse_line_range("3-$").unwrap(), (3, EOF_SENTINEL));
}

// parse_line_range: "EOF" single → (EOF_SENTINEL, EOF_SENTINEL).
#[test]
fn plr_eof_single() {
    assert_eq!(
        parse_line_range("EOF").unwrap(),
        (EOF_SENTINEL, EOF_SENTINEL)
    );
}

// parse_line_range: "2-eof" → (2, EOF_SENTINEL).
#[test]
fn plr_n_to_eof() {
    assert_eq!(parse_line_range("2-eof").unwrap(), (2, EOF_SENTINEL));
}

// parse_byte_pos: "$" → EOF_SENTINEL.
#[test]
fn pbp_dollar() {
    assert_eq!(parse_byte_pos("$").unwrap(), EOF_SENTINEL);
}

// parse_byte_pos: "EOF" → EOF_SENTINEL.
#[test]
fn pbp_eof() {
    assert_eq!(parse_byte_pos("EOF").unwrap(), EOF_SENTINEL);
    assert_eq!(parse_byte_pos("eof").unwrap(), EOF_SENTINEL);
}

// parse_byte_pos: hex number still works.
#[test]
fn pbp_hex() {
    assert_eq!(parse_byte_pos("0xff").unwrap(), 255);
}

// parse_byte_range: "$" → (EOF_SENTINEL, EOF_SENTINEL) — no overflow.
#[test]
fn pbr_dollar_single() {
    assert_eq!(parse_byte_range("$").unwrap(), (EOF_SENTINEL, EOF_SENTINEL));
}

// parse_byte_range: "5-$" → (5, EOF_SENTINEL).
#[test]
fn pbr_n_to_dollar() {
    assert_eq!(parse_byte_range("5-$").unwrap(), (5, EOF_SENTINEL));
}

// parse_byte_range: "eof" single → (EOF_SENTINEL, EOF_SENTINEL).
#[test]
fn pbr_eof_single() {
    assert_eq!(
        parse_byte_range("eof").unwrap(),
        (EOF_SENTINEL, EOF_SENTINEL)
    );
}

// line_range_to_source_bytes: EOF_SENTINEL as end → last line's end.
#[test]
fn lrtsb_eof_end() {
    let view = make_view(b"line1\nline2\nline3\n");
    // EOF_SENTINEL end resolves to total_lines=3; range 1-3.
    let (start, end) = line_range_to_source_bytes(&view, 1, EOF_SENTINEL).unwrap();
    let content = b"line1\nline2\nline3\n";
    assert_eq!(&content[start..end], b"line1\nline2\nline3\n");
}

// line_range_to_source_bytes: EOF_SENTINEL as both → last line only.
#[test]
fn lrtsb_eof_both() {
    let view = make_view(b"line1\nline2\nline3\n");
    let (start, end) = line_range_to_source_bytes(&view, EOF_SENTINEL, EOF_SENTINEL).unwrap();
    let content = b"line1\nline2\nline3\n";
    assert_eq!(&content[start..end], b"line3\n");
}

// run() line Delete $: deletes the last line.
#[test]
fn ed10_line_delete_dollar() {
    let p = held(b"aaa\nbbb\nccc\n");
    run_test(
        &p,
        vec![EditOp::Delete {
            start: EOF_SENTINEL,
            end: EOF_SENTINEL,
        }],
        false,
        None,
        None,
    )
    .unwrap();
    assert_eq!(read_file_bytes(&p), b"aaa\nbbb\n");
}

// run() line Delete N-$: deletes from line N to end.
#[test]
fn ed10_line_delete_n_to_dollar() {
    let p = held(b"aaa\nbbb\nccc\nddd\n");
    run_test(
        &p,
        vec![EditOp::Delete {
            start: 3,
            end: EOF_SENTINEL,
        }],
        false,
        None,
        None,
    )
    .unwrap();
    assert_eq!(read_file_bytes(&p), b"aaa\nbbb\n");
}

// run() line Insert $: appends a line at end.
#[test]
fn ed10_line_insert_dollar() {
    let p = held(b"aaa\nbbb\n");
    run_test(
        &p,
        vec![EditOp::Insert {
            offset: EOF_SENTINEL,
            data: b"ccc\n".to_vec(),
        }],
        false,
        None,
        None,
    )
    .unwrap();
    assert_eq!(read_file_bytes(&p), b"aaa\nbbb\nccc\n");
}

// run() binary Delete N-$: deletes from byte N to end.
#[test]
fn ed10_binary_delete_n_to_dollar() {
    let p = held(b"ABCDEFGH");
    run_test(
        &p,
        vec![EditOp::Delete {
            start: 3,
            end: EOF_SENTINEL,
        }],
        true,
        None,
        None,
    )
    .unwrap();
    assert_eq!(read_file_bytes(&p), b"ABC");
}

// run() binary Insert $: appends bytes at end.
#[test]
fn ed10_binary_insert_dollar() {
    let p = held(b"HELLO");
    run_test(
        &p,
        vec![EditOp::Insert {
            offset: EOF_SENTINEL,
            data: b" WORLD".to_vec(),
        }],
        true,
        None,
        None,
    )
    .unwrap();
    assert_eq!(read_file_bytes(&p), b"HELLO WORLD");
}

// ── validate integration ───────────────────────────────────────────

// Text-mode validate passes → edit proceeds normally.
#[test]
fn ed4_text_validate_passes() {
    let p = held(b"abc\ndef\n");
    tpu::cmd::validate::run_all(&["line:1".into(), "abc".into()], &Ok(read_file_bytes(&p)), false)
        .unwrap();
    run_test(
        &p,
        vec![EditOp::Delete { start: 2, end: 2 }],
        false,
        None,
        None,
    )
    .unwrap();
    assert_eq!(read_file_bytes(&p), b"abc\n");
}

// Text-mode validate fails → run() never called; file and .bak unchanged.
#[test]
fn ed4_text_validate_fails_file_unchanged() {
    let p = held(b"abc\ndef\n");
    let before = read_file_bytes(&p);
    let err = tpu::cmd::validate::run_all(
        &["line:1".into(), "xyz".into()], &Ok(read_file_bytes(&p)), false);
    assert!(err.is_err(), "validate should fail");
    assert_eq!(read_file_bytes(&p), before);
}

// Binary-mode validate passes → edit proceeds normally.
#[test]
fn ed4_binary_validate_passes() {
    let p = held(b"\xDE\xAD\xBE\xEF");
    tpu::cmd::validate::run_all(
        &["bytes:0-4".into(), "deadbeef".into()], &Ok(read_file_bytes(&p)), true)
    .unwrap();
    run_test(
        &p,
        vec![EditOp::Splice {
            start: 0,
            end: 1,
            data: b"\xFF".to_vec(),
        }],
        true,
        None,
        None,
    )
    .unwrap();
    assert_eq!(read_file_bytes(&p), b"\xFF\xAD\xBE\xEF");
}

// Binary-mode validate fails → run() never called; file and .bak unchanged.
#[test]
fn ed4_binary_validate_fails_file_unchanged() {
    let p = held(b"\xDE\xAD\xBE\xEF");
    let before = read_file_bytes(&p);
    // "00000000" ≠ "deadbeef".
    let err = tpu::cmd::validate::run_all(
        &["bytes:0-4".into(), "00000000".into()], &Ok(read_file_bytes(&p)), true);
    assert!(err.is_err(), "validate should fail");
    assert_eq!(read_file_bytes(&p), before);
}

// ── diff output ───────────────────────────────────────────────────

// diff_out receives a unified diff after a line-mode delete.
#[test]
fn ed5_diff_on_delete() {
    let p = held(b"aaa\nbbb\nccc\n");
    let mut diff_buf: Vec<u8> = Vec::new();
    run_test(
        &p,
        vec![EditOp::Delete { start: 2, end: 2 }],
        false,
        None,
        Some(&mut diff_buf),
    )
    .unwrap();
    let diff_str = String::from_utf8(diff_buf).unwrap();
    // Diff must contain the removed line marked with '-'.
    assert!(
        diff_str.contains("-bbb"),
        "expected '-bbb' in diff: {diff_str:?}"
    );
    // The retained lines must NOT appear as removed.
    assert!(!diff_str.contains("-aaa"), "unexpected '-aaa' in diff");
    assert!(!diff_str.contains("-ccc"), "unexpected '-ccc' in diff");
}

// diff_out receives a unified diff after a line-mode splice.
#[test]
fn ed5_diff_on_splice() {
    let p = held(b"aaa\nbbb\nccc\n");
    let mut diff_buf: Vec<u8> = Vec::new();
    run_test(
        &p,
        vec![EditOp::Splice {
            start: 2,
            end: 2,
            data: b"NEW\n".to_vec(),
        }],
        false,
        None,
        Some(&mut diff_buf),
    )
    .unwrap();
    let diff_str = String::from_utf8(diff_buf).unwrap();
    assert!(
        diff_str.contains("-bbb"),
        "expected '-bbb' in diff: {diff_str:?}"
    );
    assert!(
        diff_str.contains("+NEW"),
        "expected '+NEW' in diff: {diff_str:?}"
    );
}

// diff_out receives a unified diff after a line-mode insert.
#[test]
fn ed5_diff_on_insert() {
    let p = held(b"aaa\nbbb\n");
    let mut diff_buf: Vec<u8> = Vec::new();
    run_test(
        &p,
        vec![EditOp::Insert {
            offset: 2,
            data: b"NEW\n".to_vec(),
        }],
        false,
        None,
        Some(&mut diff_buf),
    )
    .unwrap();
    let diff_str = String::from_utf8(diff_buf).unwrap();
    assert!(
        diff_str.contains("+NEW"),
        "expected '+NEW' in diff: {diff_str:?}"
    );
    // Existing lines must not appear as removed.
    assert!(!diff_str.contains("-aaa"), "unexpected '-aaa' in diff");
    assert!(!diff_str.contains("-bbb"), "unexpected '-bbb' in diff");
}

// diff_out is empty when diff_out is None (no-op allocation path).
#[test]
fn ed5_no_diff_when_none() {
    let p = held(b"aaa\nbbb\n");
    // Pass None — must not panic and file must still be modified.
    run_test(
        &p,
        vec![EditOp::Delete { start: 1, end: 1 }],
        false,
        None,
        None,
    )
    .unwrap();
    assert_eq!(read_file_bytes(&p), b"bbb\n");
}

// Binary mode: diff_out is ignored even when Some (no diff emitted).
#[test]
fn ed5_binary_diff_skipped() {
    let p = held(b"\x01\x02\x03\x04");
    let mut diff_buf: Vec<u8> = Vec::new();
    run_test(
        &p,
        vec![EditOp::Delete { start: 1, end: 2 }],
        true,
        None,
        Some(&mut diff_buf),
    )
    .unwrap();
    assert_eq!(read_file_bytes(&p), b"\x01\x03\x04");
    // diff_buf stays empty: binary mode never emits a diff.
    assert!(
        diff_buf.is_empty(),
        "expected no diff output in binary mode"
    );
}

// CRLF file: diff is LF-normalised (no \\r in diff output).
#[test]
fn ed5_crlf_diff_normalised() {
    let p = held(b"aaa\r\nbbb\r\nccc\r\n");
    let mut diff_buf: Vec<u8> = Vec::new();
    run_test(
        &p,
        vec![EditOp::Delete { start: 2, end: 2 }],
        false,
        None,
        Some(&mut diff_buf),
    )
    .unwrap();
    let diff_str = String::from_utf8(diff_buf).unwrap();
    // The diff content lines must not contain bare \r.
    assert!(
        !diff_str.contains('\r'),
        "expected no \\r in diff: {diff_str:?}"
    );
    assert!(diff_str.contains("-bbb"), "expected '-bbb' in diff");
}

// ── data-format decode for binary mode ─────────────────────────────
//
// Data is decoded before an edit is made with it.

// Hex data in --splice binary mode.
#[test]
fn ed6_hex_splice() {
    let p = held(b"\xAA\xBB\xCC\xDD");
    let decoded =
        tpu::data_format::decode(&tpu::data_format::DataFormat::Hex, "CAFE").unwrap();
    run_test(
        &p,
        vec![EditOp::Splice {
            start: 1,
            end: 3,
            data: decoded,
        }],
        true,
        None,
        None,
    )
    .unwrap();
    assert_eq!(read_file_bytes(&p), b"\xAA\xCA\xFE\xDD");
}

// Hex data with dash separators in --insert binary mode.
#[test]
fn ed6_hex_with_dashes_insert() {
    let p = held(b"\x01\x04");
    let decoded =
        tpu::data_format::decode(&tpu::data_format::DataFormat::Hex, "02-03").unwrap();
    run_test(
        &p,
        vec![EditOp::Insert {
            offset: 1,
            data: decoded,
        }],
        true,
        None,
        None,
    )
    .unwrap();
    assert_eq!(read_file_bytes(&p), b"\x01\x02\x03\x04");
}

// Base64 data in --splice binary mode.
#[test]
fn ed6_base64_splice() {
    // "AQID" is base64 for [0x01, 0x02, 0x03].
    let p = held(b"\xFF\xFF\xFF\xFF");
    let decoded =
        tpu::data_format::decode(&tpu::data_format::DataFormat::Base64, "AQID").unwrap();
    run_test(
        &p,
        vec![EditOp::Splice {
            start: 0,
            end: 3,
            data: decoded,
        }],
        true,
        None,
        None,
    )
    .unwrap();
    assert_eq!(read_file_bytes(&p), b"\x01\x02\x03\xFF");
}

// Encoded (tpu escape codec) data in --splice binary mode.
#[test]
fn ed6_encoded_splice() {
    let p = held(b"hello world");
    // "\x41\x42\x43" = "ABC" in tpu escape codec.
    let decoded =
        tpu::data_format::decode(&tpu::data_format::DataFormat::Encoded, r"\x41\x42\x43")
            .unwrap();
    run_test(
        &p,
        vec![EditOp::Splice {
            start: 6,
            end: 11,
            data: decoded,
        }],
        true,
        None,
        None,
    )
    .unwrap();
    assert_eq!(read_file_bytes(&p), b"hello ABC");
}

// Invalid hex → decode error; run() never called; file unchanged.
#[test]
fn ed6_invalid_hex_error() {
    let p = held(b"\x01\x02\x03");
    let before = read_file_bytes(&p);
    // Odd number of hex digits.
    let err = tpu::data_format::decode(&tpu::data_format::DataFormat::Hex, "ABC");
    assert!(err.is_err(), "expected decode error for odd-length hex");
    // File must be untouched (run() was never called).
    assert_eq!(read_file_bytes(&p), before);
}

// Invalid base64 → decode error; file unchanged.
#[test]
fn ed6_invalid_base64_error() {
    let err = tpu::data_format::decode(&tpu::data_format::DataFormat::Base64, "!!!");
    assert!(err.is_err(), "expected decode error for invalid base64");
}

// ── Errors and laws ─────────────────────────────────────────────────────────

#[test]
fn messages_of_edits_that_are_refused() {
    let edit = |ops: Vec<EditOp>, binary: bool| {
        run("f", b"abc\ndef\n", ops, binary, None, false, false).unwrap_err()
    };
    assert_eq!(
        edit(vec![EditOp::Delete { start: 5, end: 5 }], false),
        "--delete: edit: line 5 is out of range (file has 2 lines)"
    );
    assert!(edit(
        vec![EditOp::Delete { start: 0, end: 3 }, EditOp::Delete { start: 2, end: 5 }],
        true
    )
    .contains("edit: overlapping ranges [0, 3) and [2, 5)"));
    assert_eq!(parse_line_num("x").unwrap_err(), "invalid line number \"x\"");
    assert_eq!(parse_usize_maybe_hex("0xg").unwrap_err(), "invalid hex integer \"0xg\"");
}

#[test]
fn an_insert_may_stand_where_a_deleted_range_begins() {
    for flip in [false, true] {
        let p = held(b"ABC");
        let mut ops = vec![
            EditOp::Delete { start: 1, end: 2 },
            EditOp::Insert { offset: 1, data: b"x".to_vec() },
        ];
        if flip {
            ops.reverse();
        }
        run_test(&p, ops, true, None, None).unwrap();
        assert_eq!(read_file_bytes(&p), b"AxC");
    }
}

#[test]
fn an_insert_is_an_empty_splice() {
    let p = held(b"ABC");
    run_test(&p, vec![EditOp::Insert { offset: 2, data: b"x".to_vec() }], true, None, None).unwrap();
    let q = held(b"ABC");
    let ops = vec![EditOp::Splice { start: 2, end: 2, data: b"x".to_vec() }];
    run_test(&q, ops, true, None, None).unwrap();
    assert_eq!(read_file_bytes(&p), read_file_bytes(&q));
}

#[test]
fn texts_are_handed_out_for_a_check() {
    let ops = vec![EditOp::Delete { start: 1, end: 1 }];
    let outcome = run("f", b"a\r\nb\r\n", ops, false, None, true, false).unwrap();
    assert_eq!(outcome.bytes.unwrap(), b"b\r\n");
    let (old, new) = outcome.texts.unwrap();
    assert_eq!(old, "a\nb\n");
    assert_eq!(new, "b\r\n");
}

#[test]
fn a_byte_order_mark_is_kept() {
    let p = held(b"\xEF\xBB\xBFa\nb\n");
    run_test(&p, vec![EditOp::Delete { start: 1, end: 1 }], false, None, None).unwrap();
    assert_eq!(read_file_bytes(&p), b"\xEF\xBB\xBFb\n");
}

/// A text in UTF-16 behind its byte-order mark.
fn utf16(text: &str, big: bool) -> Vec<u8> {
    let mut bytes = Vec::new();
    for unit in std::iter::once(0xFEFF).chain(text.encode_utf16()) {
        if big {
            bytes.extend_from_slice(&unit.to_be_bytes());
        } else {
            bytes.extend_from_slice(&unit.to_le_bytes());
        }
    }
    bytes
}

#[test]
fn a_line_edit_keeps_utf16() {
    // Both bytes of U+0A0A, and one byte of U+0D0A and U+010A, are those of a line ending.
    let text = "\u{0A0A}a\r\n\u{0D0A}\u{010A}\r\nc\r\n";
    for big in [false, true] {
        let p = held(&utf16(text, big));
        run_test(&p, vec![EditOp::Delete { start: 2, end: 2 }], false, None, None).unwrap();
        assert_eq!(read_file_bytes(&p), utf16("\u{0A0A}a\r\nc\r\n", big));

        let p = held(&utf16(text, big));
        let data = "é😀\n".as_bytes().to_vec();
        run_test(&p, vec![EditOp::Insert { offset: 2, data }], false, Some(LineEnding::CrLf), None)
            .unwrap();
        let expected = "\u{0A0A}a\r\né😀\r\n\u{0D0A}\u{010A}\r\nc\r\n";
        assert_eq!(read_file_bytes(&p), utf16(expected, big));

        let p = held(&utf16("a\rb\rc", big));
        let ops = vec![EditOp::Splice { start: 2, end: EOF_SENTINEL, data: b"x\n".to_vec() }];
        run_test(&p, ops, false, Some(LineEnding::Cr), None).unwrap();
        assert_eq!(read_file_bytes(&p), utf16("a\rx\r", big));
    }
}

#[test]
fn a_line_edit_shows_decoded_text() {
    let ops = vec![EditOp::Splice { start: 1, end: 1, data: "ü\n".as_bytes().to_vec() }];
    let outcome = run("f", &utf16("ä\nb\n", false), ops, false, Some(LineEnding::Lf), true, true);
    let outcome = outcome.unwrap();
    assert_eq!(outcome.texts.unwrap(), ("ä\nb\n".to_string(), "ü\nb\n".to_string()));
    assert!(outcome.diff.unwrap().contains("-ä\n+ü\n b\n"));
}

#[test]
fn bytes_that_are_no_utf8_are_inserted_as_they_are() {
    let p = held(&utf16("a\n", false));
    let data = vec![0x00, 0xD8, 0x01, 0xDC, 0x0A, 0x00];
    let ops = vec![EditOp::Insert { offset: 1, data }];
    run_test(&p, ops, false, Some(LineEnding::CrLf), None).unwrap();
    assert_eq!(read_file_bytes(&p), utf16("\u{10001}\r\na\n", false));

    let info = SourceInfo {
        encoding: TextEncoding::Legacy("windows-1252".to_string()),
        line_ending: LineEnding::Lf,
        bom_len: 0,
    };
    let ops = vec![EditOp::Splice { start: 1, end: 1, data: b"\xFC\n".to_vec() }];
    let outcome = run_line("f", b"\xE9\n", &info, ops, None, false, false).unwrap();
    assert_eq!(outcome.bytes.unwrap(), b"\xFC\n");
}

#[test]
fn a_line_edit_encodes_for_a_code_page() {
    let info = SourceInfo {
        encoding: TextEncoding::Legacy("windows-1252".to_string()),
        line_ending: LineEnding::Lf,
        bom_len: 0,
    };
    let insert = |text: &str| {
        let ops = vec![EditOp::Insert { offset: 1, data: text.as_bytes().to_vec() }];
        run_line("f", b"\xE9\n", &info, ops, None, false, false)
    };
    assert_eq!(insert("é\n").unwrap().bytes.unwrap(), b"\xE9\n\xE9\n");
    assert!(insert("世").unwrap_err().starts_with("--insert: edit: "));
}

#[test]
fn lines_are_those_of_the_normalised_content() {
    for (encoding, raw) in [
        (TextEncoding::Utf8, &b"a\r\nb\rc\n"[..]),
        (TextEncoding::Utf16Le, &b"a\0\r\0\n\0b\0\r\0c\0\n\0"[..]),
        (TextEncoding::Utf16Be, &b"\0a\0\r\0\n\0b\0\r\0c\0\n"[..]),
    ] {
        let view = LineView::over(raw, 0, &encoding).unwrap();
        let norm = view.bytes();
        let flat = LineView::over(&norm, 0, &encoding).unwrap();
        for n in 1..=3 {
            let (at, _) = line_range_to_source_bytes(&view, n, n).unwrap();
            let (to, _) = line_range_to_source_bytes(&flat, n, n).unwrap();
            let before = LineView::over(&raw[..at], 0, &encoding).unwrap().bytes();
            assert_eq!(before, norm[..to].to_vec());
        }
        assert!(line_range_to_source_bytes(&view, 4, 4).is_err());
        assert!(line_range_to_source_bytes(&flat, 4, 4).is_err());
    }
}
