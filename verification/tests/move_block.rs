use tpu::cmd::move_block::{
    compile_patterns, decode_dest, find_block, move_lines, run, MovePlan,
};

fn moved(
    src: &str,
    dst: Option<&str>,
    start: &str,
    end: Option<&str>,
    header: Option<&str>,
) -> Result<MovePlan, String> {
    run("src.txt", "dst.txt", src.as_bytes(), dst.map(|d| d.as_bytes()), start, end, header)
}

#[test]
fn mb_1_basic_move_with_header() {
    let r = moved(
        "# Header\n\
         ## Keep\n\
         keep line\n\
         ## Move\n\
         move line 1\n\
         move line 2\n\
         ## After\n\
         after line\n",
        Some("# Dest\n"),
        r"^## Move",
        Some(r"^## After"),
        Some("## Moved 2026-01-01"),
    )
    .unwrap();
    assert_eq!(r.result.moved_lines, 3);
    assert_eq!(r.result.source_file, "src.txt");
    assert_eq!(r.result.dest_file, "dst.txt");
    let src_after = r.source_text;
    assert!(!src_after.contains("## Move\n"), "section moved out of source");
    assert!(src_after.contains("## Keep"), "keep section still present");
    assert!(src_after.contains("## After"), "after section still present");
    let dst_after = r.dest_text;
    assert!(dst_after.contains("## Moved 2026-01-01"), "dest_header in dest");
    assert!(dst_after.contains("## Move\n"), "original heading in dest");
    assert!(dst_after.contains("move line 1"), "move line 1 in dest");
    assert!(dst_after.contains("move line 2"), "move line 2 in dest");
    assert!(!dst_after.contains("## Keep"), "keep section not in dest");
    assert_eq!(dst_after, "# Dest\n## Moved 2026-01-01\n## Move\nmove line 1\nmove line 2\n");
}

#[test]
fn mb_2_no_end_pattern_eof() {
    let r = moved("preamble\n## Section\nitem a\nitem b\n", None, r"^## Section", None, None).unwrap();
    assert_eq!(r.result.moved_lines, 3);
    assert!(r.source_text.contains("preamble"), "preamble remains");
    assert!(!r.source_text.contains("## Section"), "section gone from source");
    assert!(r.dest_text.contains("## Section"), "section in dest");
    assert!(r.dest_text.contains("item a"), "item a in dest");
}

#[test]
fn mb_3_dest_created() {
    let r = moved("line one\nline two\n", None, r"line two", None, None).unwrap();
    assert_eq!(r.result.moved_lines, 1);
    assert!(r.dest_text.contains("line two"));
}

#[test]
fn mb_4_appended_to_existing_dest() {
    let r = moved("alpha\nbeta\ngamma\n", Some("existing content\n"), r"^beta", None, None).unwrap();
    assert!(r.dest_text.starts_with("existing content\n"), "original dest preserved");
    assert!(r.dest_text.contains("beta"), "moved line appended");
}

#[test]
fn mb_5_single_line_block() {
    let r = moved("before\ntarget line\nafter\n", None, r"target line", Some(r"after"), None).unwrap();
    assert_eq!(r.result.moved_lines, 1);
    assert!(!r.source_text.contains("target line"), "target removed from source");
    assert!(r.source_text.contains("before"), "before remains");
    assert!(r.source_text.contains("after"), "after remains");
}

#[test]
fn mb_6_crlf_preserved() {
    let r = moved("line1\r\nMOVE\r\nline3\r\n", None, r"^MOVE", None, None).unwrap();
    assert!(r.dest_text.contains("\r\n"), "CRLF preserved in dest");
    assert!(r.dest_text.contains("MOVE\r\n"), "MOVE line with CRLF in dest");
}

#[test]
fn mb_7_no_dest_header() {
    let r = moved("stay\ngo\n", Some("already\n"), r"^go", None, None).unwrap();
    assert_eq!(r.dest_text, "already\ngo\n", "no extra header line inserted");
}

#[test]
fn mb_8_first_end_match_wins() {
    let r = moved(
        "## A\nstay a1\nstay a2\n## B\nmove b1\n## C\nstay c1\n## D\nstay d1\n",
        None,
        r"^## B",
        Some(r"^## [A-Z]"),
        None,
    )
    .unwrap();
    assert_eq!(r.result.moved_lines, 2);
    assert!(!r.source_text.contains("## B"), "section B gone");
    assert!(r.source_text.contains("## C"), "section C still present");
    assert!(r.source_text.contains("## D"), "section D still present");
}

#[test]
fn mb_9_first_section_moved() {
    let r = moved(
        "## First\nitem f1\n## Second\nitem s1\n",
        None,
        r"^## First",
        Some(r"^## Second"),
        None,
    )
    .unwrap();
    assert_eq!(r.result.moved_lines, 2);
    assert!(r.source_text.starts_with("## Second"), "second section now at top");
    assert!(!r.source_text.contains("## First"), "first section gone");
}

#[test]
fn mb_10_near_end_section() {
    let r = moved("preamble\nmore\n## Last\nlast item\n", None, r"^## Last", None, None).unwrap();
    assert_eq!(r.result.moved_lines, 2);
    assert_eq!(r.source_text, "preamble\nmore\n");
}

#[test]
fn mb_11_dest_missing_trailing_newline() {
    let r = moved("stay\ngo\n", Some("no-newline-at-end"), r"^go", None, None).unwrap();
    let dst_str = r.dest_text;
    assert!(
        !dst_str.contains("no-newline-at-endgo"),
        "newline added before appended content; got: {dst_str:?}"
    );
    assert!(dst_str.contains("go"), "moved content present");
}

#[test]
fn mb_12_source_no_trailing_newline() {
    let r = moved("keep\ngo", None, r"^go", None, None).unwrap();
    assert_eq!(r.result.moved_lines, 1);
    assert_eq!(r.source_text, "keep\n");
    assert!(r.dest_text.contains("go"), "partial line moved");
}

#[test]
fn mb_e1_start_pattern_not_found() {
    let err = moved("line one\nline two\n", None, "DOES_NOT_EXIST", None, None)
        .expect_err("must fail when pattern missing");
    assert!(err.contains("not found"), "error mentions 'not found': {err}");
    assert_eq!(err, "start_pattern \"DOES_NOT_EXIST\" not found in src.txt");
}

#[test]
fn mb_e2_invalid_start_regex() {
    let err =
        moved("hello\n", None, r"[invalid", None, None).expect_err("must fail on invalid regex");
    assert!(
        err.contains("invalid --start-pattern"),
        "error mentions start-pattern: {err}"
    );
}

#[test]
fn mb_e3_invalid_end_regex() {
    let err = moved("hello\nworld\n", None, r"hello", Some(r"[invalid"), None)
        .expect_err("must fail on invalid end regex");
    assert!(err.contains("invalid --end-pattern"), "error mentions end-pattern: {err}");
}

#[test]
fn bytes_that_are_no_utf8_are_refused() {
    let err = run("s", "d", b"\xFF", None, "x", None, None).unwrap_err();
    assert_eq!(err, "source file is not valid UTF-8: s");
    let err = run("s", "d", b"x\n", Some(b"\xFF"), "x", None, None).unwrap_err();
    assert_eq!(err, "dest file is not valid UTF-8: d");
}

#[test]
fn lines_that_are_made_up_have_the_dominant_ending_of_the_source() {
    let r = moved("a\r\nb\r\nc\ngo", Some("d"), "^go", None, Some("H")).unwrap();
    assert_eq!(r.dest_text, "d\r\nH\r\ngo\r\n");
    let r = moved("a\r\nb\nc\ngo", Some("d"), "^go", None, Some("H")).unwrap();
    assert_eq!(r.dest_text, "d\nH\ngo\n");
}

#[test]
fn a_move_loses_nothing() {
    let text = "a\r\nb\n\nc\rd\ne";
    let r = moved(text, None, "^b$", Some("^e"), None).unwrap();
    assert_eq!(r.source_text, "a\r\ne");
    assert_eq!(r.dest_text, "b\n\nc\rd\n");
}

#[test]
fn a_range_of_lines_moves() {
    let r = move_lines("s", "d", "a\nb\nc\nd\n", Some("z"), 1, 3, Some("H"));
    assert_eq!(r.source_text, "a\nd\n");
    assert_eq!(r.dest_text, "z\nH\nb\nc\n");
    assert_eq!(r.result.moved_lines, 2);
    assert_eq!((r.result.source_file.as_str(), r.result.dest_file.as_str()), ("s", "d"));
    let r = move_lines("s", "d", "a\nb\n", None, 0, 2, None);
    assert_eq!((r.source_text.as_str(), r.dest_text.as_str()), ("", "a\nb\n"));
}

#[test]
fn a_move_is_refused_step_by_step() {
    let err = compile_patterns("[", Some("[")).unwrap_err();
    assert!(err.starts_with("invalid --start-pattern: "), "{err}");
    let err = compile_patterns("a", Some("[")).unwrap_err();
    assert!(err.starts_with("invalid --end-pattern: "), "{err}");
    let (start, end) = compile_patterns("^b", Some("^d")).unwrap();
    let (text, a, b) = find_block("s", b"a\nb\nc\nd\n", "^b", &start, &end).unwrap();
    assert_eq!((text.as_str(), a, b), ("a\nb\nc\nd\n", 1, 3));
    let err = find_block("s", b"a\n", "^b", &start, &end).unwrap_err();
    assert_eq!(err, "start_pattern \"^b\" not found in s");
    let err = find_block("s", b"\xFF", "^b", &start, &end).unwrap_err();
    assert_eq!(err, "source file is not valid UTF-8: s");
    assert_eq!(decode_dest("d", None).unwrap(), None);
    assert_eq!(decode_dest("d", Some(b"x")).unwrap().unwrap(), "x");
    assert_eq!(decode_dest("d", Some(b"\xFF")).unwrap_err(), "dest file is not valid UTF-8: d");
}
