use tpu::cmd::copy::OnError;
use tpu::cmd::doctor::{
    annotate_matches, annotate_replacement_char_matches, decode_body, diagnose_file, emit_human,
    finish, normalize_eol_bytes, note_repair, plan_eol_fix, plan_peel, run, run_with_policy,
    DoctorFix, DoctorFormat, DoctorIssue, DoctorMatch, DoctorOptions, DoctorReport, EolMismatch,
    FileOutcome, Findings, Pattern, RawMatch, RawReplacement, Repair,
};
use tpu::cmd::doctor_paths::{
    expand_paths, expand_paths_with_policy, given_or_here, is_binary_extension, is_skipped_dir,
    load_gitignore, push_unique, split_glob_root, DoctorPath,
};
use tpu::encoding::LineEnding;
use tpu::walk::{EntryKind, WalkEntry};

fn nothing() -> Findings {
    Findings {
        allowed: false,
        matches: Vec::new(),
        replacements_allowed: false,
        replacements: Vec::new(),
        peeled: None,
    }
}

/// What a scan finds in a text that holds `é`, misread.
fn misread(text: &str) -> Findings {
    let mut f = nothing();
    for (byte_offset, _) in text.match_indices("Ã©") {
        f.matches.push(RawMatch { byte_offset, pattern: Pattern::Latin1 });
    }
    if !f.matches.is_empty() {
        f.peeled = Some(text.replace("Ã©", "é"));
    }
    f
}

fn diagnose(path: &str, bytes: &[u8], eol: Option<EolMismatch>) -> Option<DoctorIssue> {
    let body = decode_body(bytes).unwrap();
    diagnose_file(path, &body, &misread(&body.text), eol)
}

fn outcome(path: &str, bytes: &[u8]) -> FileOutcome {
    FileOutcome { path: path.to_string(), result: Ok(diagnose(path, bytes, None)) }
}

fn path_spec(spec: &str, stat: Result<EntryKind, String>) -> DoctorPath {
    DoctorPath {
        spec: spec.to_string(),
        is_absolute: false,
        stat,
        ignore: None,
        entries: Vec::new(),
    }
}

fn found(rel: &str) -> WalkEntry {
    WalkEntry::Found {
        kind: EntryKind::File,
        rel: rel.to_string(),
        path: format!("root/{rel}"),
    }
}

fn plain_issue(path: &str) -> DoctorIssue {
    DoctorIssue {
        path: path.to_string(),
        encoding_detected: "UTF-8".to_string(),
        valid_in_detected_encoding: true,
        mojibake_matches: Vec::new(),
        replacement_char_matches: Vec::new(),
        peel_suggested: None,
        repaired: false,
        eol_mismatch: None,
        eol_repaired: false,
    }
}

// ── Selecting files ─────────────────────────────────────────────────────────

#[test]
fn expand_paths_warn_mode_all_missing_returns_error() {
    let missing = || Err("No such file or directory (os error 2)".to_string());
    let specs = vec![
        path_spec("definitely_does_not_exist_a", missing()),
        path_spec("definitely_does_not_exist_b", missing()),
    ];
    let mut warnings: Vec<String> = Vec::new();
    let result = expand_paths_with_policy(&specs, OnError::Warn, &mut warnings);
    assert!(result.is_err(), "expected an error when all paths are missing");
    let msg = result.unwrap_err();
    assert!(
        msg.contains("no files to scan"),
        "error should mention 'no files to scan', got: {msg}"
    );
    assert_eq!(warnings.len(), 2);
    assert_eq!(
        warnings[0],
        "doctor: cannot stat definitely_does_not_exist_a: No such file or directory (os error 2)"
    );
}

#[test]
fn expand_paths_warn_mode_partial_missing_succeeds() {
    let specs = vec![
        path_spec("real.txt", Ok(EntryKind::File)),
        path_spec("definitely_does_not_exist", Err("missing".to_string())),
    ];
    let mut warnings: Vec<String> = Vec::new();
    let result = expand_paths_with_policy(&specs, OnError::Warn, &mut warnings);
    assert!(result.is_ok());
    assert_eq!(result.unwrap().len(), 1);
    assert_eq!(warnings.len(), 1, "one warning for the missing path");
}

#[test]
fn a_single_missing_path_is_an_error() {
    let specs = vec![path_spec("gone", Err("missing".to_string()))];
    let mut warnings: Vec<String> = Vec::new();
    let err = expand_paths_with_policy(&specs, OnError::Warn, &mut warnings).unwrap_err();
    assert_eq!(err, "doctor: cannot stat gone: missing");
    assert_eq!(expand_paths(&specs).unwrap_err(), "doctor: cannot stat gone: missing");
}

#[test]
fn binary_extensions_skipped() {
    assert!(is_binary_extension("foo.png"));
    assert!(is_binary_extension("foo.PNG"));
    assert!(is_binary_extension("a/b/c.exe"));
    assert!(!is_binary_extension("foo.txt"));
    assert!(!is_binary_extension("Cargo.toml"));
}

#[test]
fn extensions_are_those_of_names() {
    assert!(!is_binary_extension(".png"));
    assert!(!is_binary_extension("a.png/b"));
    assert!(is_binary_extension("a.png/"));
    assert!(is_binary_extension("a.png/."));
    assert!(!is_binary_extension("a.png/.."));
    assert!(!is_binary_extension(""));
    assert!(is_binary_extension("x.tar.gz"));
}

#[test]
fn skipped_dir_recognises_target_and_git() {
    let mut spec = path_spec("root", Ok(EntryKind::Directory));
    spec.entries = vec![found("src/keep.txt"), found(".git/config"), found("target/out.txt")];
    assert_eq!(expand_paths(&vec![spec]).unwrap(), ["root/src/keep.txt"]);
    assert!(is_skipped_dir(".git") && is_skipped_dir("node_modules") && is_skipped_dir("target"));
    assert!(!is_skipped_dir("src"));
}

#[test]
fn gitignore_skips_matching_paths() {
    let mut spec = path_spec("root", Ok(EntryKind::Directory));
    spec.ignore = Some("ignored/\n*.log\n".to_string());
    spec.entries = vec![
        found(".gitignore"),
        found("ignored/bad.txt"),
        found("noise.log"),
        found("kept.txt"),
        found("image.png"),
    ];
    assert_eq!(expand_paths(&vec![spec]).unwrap(), ["root/.gitignore", "root/kept.txt"]);
}

#[test]
fn an_ignore_file_stands_for_globs() {
    let globs = load_gitignore("# c\n\n!keep\r\n  build/ \r\n*.o");
    assert_eq!(globs, ["build/**", "**/build/**", "*.o", "**/*.o"]);
}

#[test]
fn glob_spec_matches_files_under_cwd() {
    let mut spec = path_spec("*.txt", Err("no such path".to_string()));
    spec.entries = vec![found("a.txt"), found("b.md")];
    assert_eq!(expand_paths(&vec![spec]).unwrap(), ["root/a.txt"]);
}

#[test]
fn an_absolute_glob_is_anchored() {
    assert_eq!(split_glob_root("/a/b/*.t", true), ("/a/b/".to_string(), "*.t".to_string()));
    assert_eq!(split_glob_root("a/b/*.t", false), (".".to_string(), "a/b/*.t".to_string()));
}

#[test]
fn an_invalid_glob_is_an_error() {
    let spec = path_spec("a[", Ok(EntryKind::File));
    let err = expand_paths(&vec![spec]).unwrap_err();
    assert!(err.starts_with("doctor: invalid glob \"a[\": "), "{err}");
}

#[test]
fn what_a_walk_cannot_read_follows_the_policy() {
    let spec = || {
        let mut spec = path_spec("root", Ok(EntryKind::Directory));
        spec.entries = vec![
            found("a.txt"),
            WalkEntry::Failed { hint: "root/x".to_string(), message: "denied".to_string() },
        ];
        vec![spec]
    };
    assert_eq!(expand_paths(&spec()).unwrap_err(), "doctor: walk error: denied");
    let mut warnings: Vec<String> = Vec::new();
    let paths = expand_paths_with_policy(&spec(), OnError::Warn, &mut warnings).unwrap();
    assert_eq!(paths, ["root/a.txt"]);
    assert_eq!(warnings, ["doctor: cannot access root/x: denied"]);
}

#[test]
fn each_file_is_kept_once() {
    let v = |items: &[&str]| items.iter().map(|s| s.to_string()).collect::<Vec<String>>();
    let paths = push_unique(&v(&["a", "./a", "b", "a"]), &v(&["/a", "/a", "/b", "/a"]));
    assert_eq!(paths, ["a", "b"]);
}

#[test]
fn without_paths_the_current_directory_is_looked_at() {
    assert_eq!(given_or_here(Vec::new()), ["."]);
    assert_eq!(given_or_here(vec!["x".to_string()]), ["x"]);
}

// ── Diagnosis ───────────────────────────────────────────────────────────────

#[test]
fn run_with_policy_counts_only_successfully_diagnosed_files() {
    let files = vec![outcome("a.txt", b"clean utf-8\n"), outcome("b.txt", b"also clean\n")];
    let mut warnings: Vec<String> = Vec::new();
    let report = run_with_policy(files, OnError::Warn, &mut warnings).unwrap();
    assert_eq!(report.total_files_scanned, 2);
    assert!(warnings.is_empty());
}

#[test]
fn files_that_cannot_be_read_follow_the_policy() {
    let bad = |path: &str| FileOutcome { path: path.to_string(), result: Err("denied".to_string()) };
    let mut warnings: Vec<String> = Vec::new();
    let files = vec![outcome("a.txt", b"clean\n"), bad("b.txt")];
    let report = run_with_policy(files, OnError::Warn, &mut warnings).unwrap();
    assert_eq!(report.total_files_scanned, 1);
    assert_eq!(warnings, ["doctor: b.txt: denied"]);
    assert_eq!(run(vec![outcome("a", b"x"), bad("b")]).unwrap_err(), "doctor: b: denied");
    let mut warnings: Vec<String> = Vec::new();
    let err = run_with_policy(vec![bad("b")], OnError::Warn, &mut warnings).unwrap_err();
    assert_eq!(err, "doctor: b: denied");
    let err = run_with_policy(vec![bad("b"), bad("c")], OnError::Warn, &mut warnings).unwrap_err();
    assert_eq!(
        err,
        "doctor: no files could be scanned; all selected files were missing or unreadable"
    );
}

#[test]
fn diagnose_clean_utf8_file_returns_none() {
    assert!(diagnose("clean.txt", "hello world\n".as_bytes(), None).is_none());
}

#[test]
fn diagnose_mojibake_file_returns_issue_with_line_col() {
    let issue = diagnose("bad.txt", "first\ncafÃ©\n".as_bytes(), None).expect("flagged");
    assert!(issue.valid_in_detected_encoding);
    assert_eq!(issue.mojibake_matches.len(), 1);
    let m = &issue.mojibake_matches[0];
    assert_eq!(m.pattern, Pattern::Latin1);
    assert_eq!(m.line, 2);
    assert_eq!(m.col, 4);
    assert!(issue.peel_suggested.is_some());
}

#[test]
fn diagnose_invalid_utf8_returns_invalid_issue_with_no_matches() {
    let res = diagnose("broken.bin", b"hello\xFFworld", None);
    if let Some(issue) = res {
        if !issue.valid_in_detected_encoding {
            assert!(issue.mojibake_matches.is_empty());
        }
    }
}

#[test]
fn allow_marker_suppresses_diagnosis() {
    let body = decode_body("this line has cafÃ© in it\n".as_bytes()).unwrap();
    let mut f = misread(&body.text);
    f.allowed = true;
    assert!(diagnose_file("ok.txt", &body, &f, None).is_none());
}

#[test]
fn allow_marker_does_not_suppress_encoding_invalid() {
    let mut bytes = vec![0xEF, 0xBB, 0xBF];
    bytes.extend_from_slice(b"// marker\n");
    bytes.extend_from_slice(b"broken\xFFhere\n");
    let body = decode_body(&bytes).unwrap();
    let mut f = misread(&body.text);
    f.allowed = true;
    let issue = diagnose_file("marked-but-invalid.txt", &body, &f, None)
        .expect("encoding-invalid file must still be flagged despite the marker");
    assert!(!issue.valid_in_detected_encoding);
    assert!(issue.mojibake_matches.is_empty());
}

#[test]
fn empty_file_is_clean() {
    assert!(diagnose("empty.txt", b"", None).is_none());
}

#[test]
fn valid_utf8_is_read_as_utf8() {
    let text = "── – → “é” ──\n".repeat(400);
    let body = decode_body(text.as_bytes()).unwrap();
    assert_eq!(body.encoding, "UTF-8");
    assert_eq!(body.text, text);
    assert!(!body.malformed);
}

#[test]
fn utf16_is_decoded() {
    let body = decode_body(b"\xFE\xFF\x00a\x00\n").unwrap();
    assert_eq!(body.encoding, "UTF-16BE");
    assert_eq!(body.text, "a\n");
}

#[test]
fn lost_characters_are_placed_and_may_be_passed_over() {
    let body = decode_body("é\nab\u{FFFD}".as_bytes()).unwrap();
    let mut f = nothing();
    f.replacements.push(RawReplacement {
        byte_offset: 5,
        context: "ab".to_string(),
        suggested: Some('—'),
    });
    let issue = diagnose_file("x", &body, &f, None).unwrap();
    let m = &issue.replacement_char_matches[0];
    assert_eq!((m.byte_offset, m.line, m.col), (5, 2, 3));
    assert_eq!(m.context, "ab");
    assert_eq!(m.suggested, Some('—'));
    assert!(issue.peel_suggested.is_none());
    f.replacements_allowed = true;
    assert!(diagnose_file("x", &body, &f, None).is_none());
}

#[test]
fn offsets_inside_a_character_cannot_be_placed() {
    let raw = |offsets: &[usize]| {
        offsets
            .iter()
            .map(|&o| RawMatch { byte_offset: o, pattern: Pattern::Named("p".to_string()) })
            .collect::<Vec<RawMatch>>()
    };
    let v = annotate_matches("aé\nb", &raw(&[4, 0, 5, 1]));
    assert_eq!((v[0].line, v[0].col), (2, 1));
    assert_eq!((v[1].line, v[1].col), (1, 1));
    assert_eq!((v[2].line, v[2].col), (2, 2));
    assert_eq!((v[3].line, v[3].col), (1, 2));
    let v = annotate_matches("aé\nb", &raw(&[4, 2, 1]));
    assert_eq!(v[0], DoctorMatch { byte_offset: 0, line: 0, col: 0, pattern: Pattern::Latin1 });
    assert_eq!((v[1].byte_offset, v[1].line), (0, 0));
    assert_eq!((v[2].byte_offset, v[2].line, v[2].col), (1, 1, 2));
    let r = RawReplacement { byte_offset: 2, context: "c".to_string(), suggested: None };
    let v = annotate_replacement_char_matches("aé\nb", &vec![r]);
    assert_eq!((v[0].byte_offset, v[0].line, v[0].col), (2, 0, 0));
    assert_eq!(v[0].context, "c");
}

#[test]
fn issue_is_problem_distinguishes_mojibake_and_invalid() {
    let mut i = plain_issue("x");
    assert!(!i.is_problem());
    i.valid_in_detected_encoding = false;
    assert!(i.is_problem());
    i.valid_in_detected_encoding = true;
    i.mojibake_matches.push(DoctorMatch {
        byte_offset: 0,
        line: 1,
        col: 1,
        pattern: Pattern::Latin1,
    });
    assert!(i.is_problem());
}

#[test]
fn report_total_issues_counts_only_problems() {
    let mut r = DoctorReport::default();
    let mut issue = plain_issue("a");
    issue.mojibake_matches = vec![DoctorMatch {
        byte_offset: 0,
        line: 1,
        col: 1,
        pattern: Pattern::Latin1,
    }];
    r.issues.push(issue);
    assert_eq!(r.total_issues(), 1);
    r.issues.push(plain_issue("b"));
    assert_eq!(r.total_issues(), 1);
}

#[test]
fn options_default_is_human_no_fix_not_quiet() {
    let o = DoctorOptions::default();
    assert_eq!(o.format, DoctorFormat::Human);
    assert_eq!(o.fix, DoctorFix::Off);
    assert!(!o.quiet);
}

// ── Report ──────────────────────────────────────────────────────────────────

fn bad_and_clean() -> DoctorReport {
    run(vec![
        outcome("clean.txt", b"hello\n"),
        outcome("bad.txt", "cafÃ©\n".as_bytes()),
    ])
    .unwrap()
}

#[test]
fn run_default_path_walks_cwd_and_reports_summary() {
    let mut s = String::new();
    let report = finish(bad_and_clean(), DoctorOptions::default(), false, &mut s);
    assert_eq!(report.total_files_scanned, 2);
    assert_eq!(report.total_issues(), 1);
    assert!(s.contains("bad.txt"));
    assert!(s.contains("doctor: scanned 2 file(s)"));
    assert_eq!(
        s,
        "bad.txt: 1 (latin1=1) [UTF-8]\n  1:4: [latin1] (byte offset 3)\n\
         doctor: scanned 2 file(s), 1 flagged, 0 repaired\n"
    );
}

#[test]
fn run_quiet_suppresses_per_file_lines_in_human_mode() {
    let mut s = String::new();
    let options = DoctorOptions { quiet: true, ..DoctorOptions::default() };
    finish(bad_and_clean(), options, false, &mut s);
    assert!(!s.contains("bad.txt"), "quiet should suppress per-file lines: {s}");
    assert!(s.contains("doctor: scanned"), "summary still emitted: {s}");
}

#[test]
fn a_json_report_is_not_shown_in_lines() {
    let mut s = String::new();
    let options = DoctorOptions { format: DoctorFormat::Json, ..DoctorOptions::default() };
    finish(bad_and_clean(), options, false, &mut s);
    assert_eq!(s, "");
}

#[test]
fn every_kind_of_issue_is_shown() {
    let mut invalid = plain_issue("i");
    invalid.valid_in_detected_encoding = false;
    let mut lost = plain_issue("l");
    let body = "\u{FFFD}\u{FFFD}";
    let raw = |byte_offset: usize, suggested: Option<char>| RawReplacement {
        byte_offset,
        context: String::new(),
        suggested,
    };
    lost.replacement_char_matches = annotate_replacement_char_matches(
        body,
        &vec![raw(0, Some('\u{1F600}')), raw(3, None)],
    );
    let mut eol = plain_issue("e");
    eol.eol_mismatch =
        Some(EolMismatch { expected: LineEnding::CrLf, actual: LineEnding::Lf });
    let mut mixed = plain_issue("m");
    let m = |name: &str, col: usize| DoctorMatch {
        byte_offset: col - 1,
        line: 1,
        col,
        pattern: Pattern::Named(name.to_string()),
    };
    mixed.mojibake_matches = vec![m("b", 1), m("a", 2), m("b", 3)];
    mixed.repaired = true;
    let mut report = DoctorReport::default();
    report.issues = vec![invalid, lost, eol, mixed];
    report.eol_fix_requested = true;
    let mut s = String::new();
    emit_human(&mut s, &report, false);
    assert_eq!(
        s,
        "i: invalid bytes in detected encoding (UTF-8)\n\
         l: 2 lossy-replacement chars (U+FFFD residue; manual repair only) [UTF-8]\n  \
         1:1: [lossy-replacement] (byte offset 0) (suggest: U+1F600 '\u{1F600}')\n  \
         1:2: [lossy-replacement] (byte offset 3)\n\
         e: line endings (LF) differ from git's expected CRLF (per .gitattributes / \
         core.autocrlf / core.eol) [NOT NORMALIZED]\n\
         m: 3 (a=1 b=2) [UTF-8] [REPAIRED]\n  1:1: [b] (byte offset 0)\n  \
         1:2: [a] (byte offset 1)\n  1:3: [b] (byte offset 2)\n\
         doctor: scanned 0 file(s), 4 flagged, 0 repaired\n"
    );
}

// ── Repair ──────────────────────────────────────────────────────────────────

#[test]
fn fix_peel_repairs_double_mojibake_and_writes_bak() {
    let single = "cafÃ©\n";
    let mut report = run(vec![outcome("fix.txt", single.as_bytes())]).unwrap();
    let mut s = String::new();
    let plan = plan_peel(&report.issues[0], single.as_bytes()).unwrap().unwrap();
    assert_eq!(plan.bytes, "café\n".as_bytes());
    note_repair(&mut report.issues[0], Repair::Peel, Ok(true), DoctorFormat::Human, &mut s);
    let options = DoctorOptions { fix: DoctorFix::Peel, quiet: true, ..DoctorOptions::default() };
    let report = finish(report, options, false, &mut s);
    assert_eq!(report.total_repaired, 1);
    assert_eq!(s, "doctor: scanned 1 file(s), 1 flagged, 1 repaired\n");
}

#[test]
fn fix_peel_leaves_clean_files_alone() {
    let report = run(vec![outcome("clean.txt", b"hello world\n")]).unwrap();
    assert!(report.issues.is_empty());
    let mut s = String::new();
    let options = DoctorOptions { fix: DoctorFix::Peel, quiet: true, ..DoctorOptions::default() };
    assert_eq!(finish(report, options, false, &mut s).total_repaired, 0);
    assert!(plan_peel(&plain_issue("x"), b"a").unwrap().is_none());
}

#[test]
fn a_repair_that_fails_is_told_of() {
    let mut s = String::new();
    let mut issue = plain_issue("x");
    note_repair(&mut issue, Repair::Eol, Err("denied".to_string()), DoctorFormat::Human, &mut s);
    assert_eq!(s, "doctor: eol-fix failed for x: denied\n");
    note_repair(&mut issue, Repair::Peel, Err("no".to_string()), DoctorFormat::Json, &mut s);
    assert_eq!(s, "doctor: eol-fix failed for x: denied\n");
    note_repair(&mut issue, Repair::Peel, Err("no".to_string()), DoctorFormat::Human, &mut s);
    assert!(s.ends_with("doctor: peel-fix failed for x: no\n"));
    assert!(!issue.repaired && !issue.eol_repaired);
}

fn wants_crlf() -> Option<EolMismatch> {
    Some(EolMismatch { expected: LineEnding::CrLf, actual: LineEnding::Lf })
}

#[test]
fn git_eol_mismatch_is_detected_without_fix() {
    let issue = diagnose("note.txt", b"alpha\nbeta\n", wants_crlf()).expect("note.txt flagged");
    let m = issue.eol_mismatch.expect("eol mismatch present");
    assert_eq!(m.expected, LineEnding::CrLf);
    assert_eq!(m.actual, LineEnding::Lf);
    assert!(!issue.eol_repaired, "no fix requested");
}

#[test]
fn git_eol_fix_normalises_and_writes_bak() {
    let mut issue = diagnose("note.txt", b"alpha\nbeta\n", wants_crlf()).unwrap();
    assert_eq!(plan_eol_fix(&issue, b"alpha\nbeta\n").unwrap(), b"alpha\r\nbeta\r\n");
    assert!(plan_eol_fix(&issue, b"alpha\r\nbeta\r\n").is_none());
    let mut s = String::new();
    note_repair(&mut issue, Repair::Eol, Ok(true), DoctorFormat::Human, &mut s);
    let mut report = DoctorReport::default();
    report.issues.push(issue);
    let report = finish(report, DoctorOptions::default(), true, &mut s);
    assert_eq!(report.total_repaired, 1);
    assert!(s.contains("core.eol) [NORMALIZED]\n"));
}

#[test]
fn git_eol_no_mismatch_when_endings_match() {
    assert!(diagnose("note.txt", b"alpha\nbeta\n", None).is_none());
}

#[test]
fn git_eol_skips_utf16_even_with_fix() {
    let mut bytes = vec![0xFF, 0xFE];
    for ch in "a\r\nb\r\n".chars() {
        bytes.push(ch as u8);
        bytes.push(0x00);
    }
    let mismatch = Some(EolMismatch { expected: LineEnding::Lf, actual: LineEnding::CrLf });
    assert!(
        diagnose("u16.txt", &bytes, mismatch).is_none(),
        "UTF-16 file must never be flagged for an EOL mismatch"
    );
    let mut issue = plain_issue("u16.txt");
    issue.encoding_detected = "UTF-16LE".to_string();
    issue.eol_mismatch = mismatch;
    assert!(plan_eol_fix(&issue, &bytes).is_none());
}

#[test]
fn every_line_ending_is_replaced() {
    let bytes = b"\xEF\xBB\xBFa\r\nb\rc\nd\r\r\n";
    assert_eq!(normalize_eol_bytes(bytes, LineEnding::Lf), b"\xEF\xBB\xBFa\nb\nc\nd\n\n");
    assert_eq!(
        normalize_eol_bytes(bytes, LineEnding::CrLf),
        b"\xEF\xBB\xBFa\r\nb\r\nc\r\nd\r\n\r\n"
    );
    assert_eq!(normalize_eol_bytes(bytes, LineEnding::Cr), b"\xEF\xBB\xBFa\rb\rc\rd\r\r");
    let once = normalize_eol_bytes(bytes, LineEnding::CrLf);
    assert_eq!(normalize_eol_bytes(&once, LineEnding::CrLf), once);
}
