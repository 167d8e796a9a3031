use tpu::cmd::copy::OnError;
use tpu::cmd::find::{
    build_patterns, expand_paths, expand_paths_with_policy, run, run_single_file, run_with_policy,
    FindOptions, PathSpec, SearchInput,
};
use tpu::walk::{EntryKind, WalkEntry};

fn plain() -> FindOptions {
    FindOptions {
        fixed_string: false,
        multiline: false,
        ignore_case: false,
        all_match: false,
        invert: false,
        lines_before: 0,
        lines_after: 0,
        count_only: false,
        numbers: false,
    }
}

fn strings(items: &[&str]) -> Vec<String> {
    items.iter().map(|s| s.to_string()).collect()
}

fn missing(path: &str) -> SearchInput {
    SearchInput { name: path.to_string(), content: Err("No such file".to_string()) }
}

fn directory(spec: &str, is_absolute: bool, files: &[&str]) -> Vec<PathSpec> {
    vec![PathSpec {
        spec: spec.to_string(),
        is_dir: true,
        is_absolute,
        entries: files
            .iter()
            .map(|rel| WalkEntry::Found {
                kind: EntryKind::File,
                rel: rel.to_string(),
                path: format!("{spec}/{rel}"),
            })
            .collect(),
    }]
}

#[test]
fn run_with_policy_warn_mode_all_missing_returns_error() {
    // When every supplied file is unreadable/missing in warn mode,
    // run_with_policy must error rather than silently returning Ok with
    // total_matches == 0 (which would look like a legitimate no-match).
    let mut out = String::new();
    let mut warnings: Vec<String> = Vec::new();
    let result = run_with_policy(
        &vec![
            missing("definitely_does_not_exist_a.txt"),
            missing("definitely_does_not_exist_b.txt"),
        ],
        &strings(&["pattern"]),
        &plain(),
        OnError::Warn,
        &mut out,
        &mut warnings,
    );
    assert!(
        result.is_err(),
        "expected error when all files are unreadable"
    );
    let msg = result.unwrap_err();
    assert!(
        msg.contains("no files could be searched"),
        "error should mention 'no files could be searched', got: {msg}"
    );
    // Individual failures should have been recorded as warnings.
    assert_eq!(warnings.len(), 2);
}

fn search_bytes(
    content: &[u8],
    patterns: &[&str],
    fixed_string: bool,
    multiline: bool,
    all_match: bool,
    invert: bool,
    lines_before: usize,
    lines_after: usize,
    count_only: bool,
    numbers: bool,
) -> (String, usize) {
    let opts = FindOptions {
        fixed_string,
        multiline,
        ignore_case: false,
        all_match,
        invert,
        lines_before,
        lines_after,
        count_only,
        numbers,
    };
    let regexes = build_patterns(&strings(patterns), &opts).unwrap();
    let mut buf = String::new();
    let count = run_single_file(content, &regexes, None, &opts, &mut buf).unwrap();
    (buf, count)
}

// Build a 10-line UTF-8/LF file: "line 1\nline 2\n...\nline 10\n"
fn ten_line_file() -> Vec<u8> {
    (1..=10)
        .map(|i| format!("line {i}\n"))
        .collect::<String>()
        .into_bytes()
}

// ── Normal cases ──────────────────────────────────────────────────────────

#[test]
fn simple_match_finds_all_matching_lines() {
    let content = ten_line_file();
    let (out, count) = search_bytes(
        &content,
        &["line"],
        false,
        false,
        false,
        false,
        0,
        0,
        false,
        false,
    );
    assert_eq!(count, 10);
    assert_eq!(out.lines().count(), 10);
}

#[test]
fn specific_pattern_finds_single_line() {
    let (out, count) = search_bytes(
        &ten_line_file(),
        &["line 5"],
        false,
        false,
        false,
        false,
        0,
        0,
        false,
        false,
    );
    assert_eq!(count, 1);
    assert!(out.contains("line 5"));
}

#[test]
fn numbers_flag_prefixes_line_number() {
    let (out, _) = search_bytes(
        &ten_line_file(),
        &["line 7"],
        false,
        false,
        false,
        false,
        0,
        0,
        false,
        true,
    );
    assert!(out.starts_with("7:line 7"), "got: {out:?}");
}

#[test]
fn count_mode_emits_number_only() {
    let (out, count) = search_bytes(
        &ten_line_file(),
        &["line"],
        false,
        false,
        false,
        false,
        0,
        0,
        true,
        false,
    );
    assert_eq!(count, 10);
    assert_eq!(out.trim(), "10");
}

#[test]
fn invert_excludes_matching_lines() {
    let (out, count) = search_bytes(
        &ten_line_file(),
        &["line 5"],
        false,
        false,
        false,
        true,
        0,
        0,
        false,
        false,
    );
    assert_eq!(count, 9);
    assert!(!out.contains("line 5"));
}

#[test]
fn fixed_strings_treats_metacharacters_as_literals() {
    // "line 5." with fixed_string should match "line 5." literally, not "line 50"
    let content = b"line 5.\nline 50\n";
    let (out, count) = search_bytes(
        content,
        &["line 5."],
        true,
        false,
        false,
        false,
        0,
        0,
        false,
        false,
    );
    assert_eq!(count, 1);
    assert!(out.contains("line 5."));
    assert!(!out.contains("line 50"));
}

#[test]
fn every_metacharacter_of_a_fixed_string_stands_for_itself() {
    for c in ["\\", ".", "+", "*", "?", "(", ")", "|", "[", "]", "{", "}", "^", "$", "#", "&", "-", "~"] {
        let content = format!("a{c}b\nab\naxb\n");
        let wanted = format!("a{c}b");
        let (out, count) = search_bytes(
            content.as_bytes(),
            &[wanted.as_str()],
            true,
            false,
            false,
            false,
            0,
            0,
            false,
            false,
        );
        assert_eq!(count, 1, "{c}");
        assert!(out.contains(&wanted), "{out}");
    }
}

#[test]
fn no_match_returns_zero() {
    let (out, count) = search_bytes(
        &ten_line_file(),
        &["NOMATCH"],
        false,
        false,
        false,
        false,
        0,
        0,
        false,
        false,
    );
    assert_eq!(count, 0);
    assert!(out.is_empty());
}

#[test]
fn after_context_emits_lines_after_match() {
    let (out, _) = search_bytes(
        &ten_line_file(),
        &["line 3"],
        false,
        false,
        false,
        false,
        0,
        1,
        false,
        false,
    );
    let lines: Vec<&str> = out.lines().collect();
    assert_eq!(lines.len(), 2);
    assert!(lines[0].contains("line 3"));
    assert!(lines[1].contains("line 4"));
}

#[test]
fn before_context_emits_lines_before_match() {
    let (out, _) = search_bytes(
        &ten_line_file(),
        &["line 3"],
        false,
        false,
        false,
        false,
        1,
        0,
        false,
        false,
    );
    let lines: Vec<&str> = out.lines().collect();
    assert_eq!(lines.len(), 2);
    assert!(lines[0].contains("line 2"));
    assert!(lines[1].contains("line 3"));
}

#[test]
fn multiline_caret_dollar_at_lf_boundaries() {
    let content = b"hello\nworld\n";
    // With multiline, "^world$" should match the second line.
    let (_, count) = search_bytes(
        content,
        &["^world$"],
        false,
        true,
        false,
        false,
        0,
        0,
        false,
        false,
    );
    assert_eq!(count, 1);
}

#[test]
fn or_mode_matches_either_pattern() {
    let (_, count) = search_bytes(
        &ten_line_file(),
        &["line 1$", "line 2$"],
        false,
        true,
        false,
        false,
        0,
        0,
        false,
        false,
    );
    // "line 1" (end-anchored) → should match "line 1" but not "line 10".
    // "line 2" → matches "line 2".
    // Total: 2 matches (line 1 and line 2).
    assert_eq!(count, 2);
}

#[test]
fn and_mode_requires_all_patterns() {
    // "line" AND "5" must both match the same line.
    let (out, count) = search_bytes(
        &ten_line_file(),
        &["line", "5"],
        false,
        false,
        true,
        false,
        0,
        0,
        false,
        false,
    );
    assert_eq!(count, 1);
    assert!(out.contains("line 5"));
}

// ── Edge cases ────────────────────────────────────────────────────────────

#[test]
fn empty_file_returns_zero_matches() {
    let (out, count) = search_bytes(
        b"",
        &["anything"],
        false,
        false,
        false,
        false,
        0,
        0,
        false,
        false,
    );
    assert_eq!(count, 0);
    assert!(out.is_empty());
}

#[test]
fn empty_file_count_mode_emits_zero() {
    let (out, count) = search_bytes(b"", &["x"], false, false, false, false, 0, 0, true, false);
    assert_eq!(count, 0);
    assert_eq!(out.trim(), "0");
}

#[test]
fn count_invert_nomatch_counts_all_lines() {
    // --count --invert --pattern "NOMATCH" → all lines match the inverted predicate
    let (out, count) = search_bytes(
        &ten_line_file(),
        &["NOMATCH"],
        false,
        false,
        false,
        true,
        0,
        0,
        true,
        false,
    );
    assert_eq!(count, 10);
    assert_eq!(out.trim(), "10");
}

#[test]
fn context_deduplication_no_double_emit() {
    // Match on lines 3 and 5 with -A 2 / -B 2; line 4 is both after-context
    // of 3 and before-context of 5 — it must appear only once.
    let content = b"a\nb\nc\nd\ne\nf\n";
    let (out, _) = search_bytes(
        content,
        &["^c$|^e$"],
        false,
        true,
        false,
        false,
        1,
        1,
        false,
        true,
    );
    // Expected emitted lines: b(ctx), c(match), d(ctx), e(match), f(ctx)
    let lines: Vec<&str> = out.lines().collect();
    // --- line "d" must appear only once
    let d_count = lines.iter().filter(|l| l.contains("d")).count();
    assert_eq!(
        d_count, 1,
        "line 'd' should appear exactly once; output:\n{out}"
    );
}

#[test]
fn separator_emitted_between_non_adjacent_groups() {
    let content = ten_line_file();
    // Match lines 2 and 8 with -A 1; there should be a "--" separator between groups.
    let (out, _) = search_bytes(
        &content,
        &["line 2$|line 8$"],
        false,
        true,
        false,
        false,
        0,
        1,
        false,
        false,
    );
    assert!(
        out.contains("--"),
        "expected '--' separator; output:\n{out}"
    );
}

#[test]
fn invert_and_all_match_emits_lines_failing_at_least_one_pattern() {
    // --invert --all-match: emit lines that fail at least one pattern.
    // Pattern "line" matches everything; pattern "5" matches only "line 5".
    // With all_match+invert: lines where NOT all match → 9 lines (all except "line 5").
    let (_, count) = search_bytes(
        &ten_line_file(),
        &["line", "5"],
        false,
        false,
        true,
        true,
        0,
        0,
        false,
        false,
    );
    assert_eq!(count, 9);
}

#[test]
fn single_line_file_no_terminator() {
    // A file with a single line and no trailing newline.
    let (out, count) = search_bytes(
        b"hello",
        &["hello"],
        false,
        false,
        false,
        false,
        0,
        0,
        false,
        false,
    );
    assert_eq!(count, 1);
    assert_eq!(out.trim(), "hello");
}

#[test]
fn match_on_line_1_before_context_is_empty() {
    // With -B 2, a match on line 1 has no before-context.
    let (out, _) = search_bytes(
        &ten_line_file(),
        &["line 1$"],
        false,
        true,
        false,
        false,
        2,
        0,
        false,
        true,
    );
    let lines: Vec<&str> = out.lines().collect();
    assert_eq!(lines.len(), 1);
    assert!(lines[0].contains("line 1"));
}

#[test]
fn match_on_last_line_after_context_is_empty() {
    let (out, _) = search_bytes(
        &ten_line_file(),
        &["line 10"],
        false,
        false,
        false,
        false,
        0,
        2,
        false,
        true,
    );
    let lines: Vec<&str> = out.lines().collect();
    assert_eq!(lines.len(), 1);
    assert!(lines[0].contains("line 10"));
}

#[test]
fn line_match_uses_colon_context_uses_dash() {
    let (out, _) = search_bytes(
        &ten_line_file(),
        &["line 5"],
        false,
        false,
        false,
        false,
        1,
        1,
        false,
        true,
    );
    let lines: Vec<&str> = out.lines().collect();
    // Line 4: context (dash), line 5: match (colon), line 6: context (dash)
    assert!(
        lines.iter().any(|l| l.starts_with("4-")),
        "before-context should use '-'; output:\n{out}"
    );
    assert!(
        lines.iter().any(|l| l.starts_with("5:")),
        "match should use ':'; output:\n{out}"
    );
    assert!(
        lines.iter().any(|l| l.starts_with("6-")),
        "after-context should use '-'; output:\n{out}"
    );
}

// ── expand_paths: directory-spec error behavior ───────────────────────────

#[test]
fn expand_paths_dot_slash_suggests_star_star() {
    // "./" normalises to "" after stripping the "./" prefix; the suggested
    // glob should be "**" (not the broken "/**").
    let err = expand_paths(&directory("./", false, &[])).unwrap_err();
    let msg = err;
    assert!(msg.contains("is a directory"), "got: {msg}");
    assert!(
        msg.contains("\"**\""),
        "expected '\"**\"' in suggestion; got: {msg}"
    );
    assert!(
        !msg.contains("\"/**\""),
        "must not suggest '\"/**\"'; got: {msg}"
    );
}

#[test]
fn expand_paths_dot_alone_suggests_star_star() {
    // "." is the walker root; same rule as "./" applies.
    let err = expand_paths(&directory(".", false, &[])).unwrap_err();
    let msg = err;
    assert!(msg.contains("is a directory"), "got: {msg}");
    assert!(
        msg.contains("\"**\""),
        "expected '\"**\"' in suggestion; got: {msg}"
    );
}

#[test]
fn expand_paths_relative_dir_suggests_subdir_glob() {
    let dirname = "tpu_test_expand_";
    let err = expand_paths(&directory(dirname, false, &[])).unwrap_err();
    let msg = err;
    assert!(msg.contains("is a directory"), "got: {msg}");
    // The suggestion should end with "/**" and not start with "/"
    assert!(
        msg.contains(&format!("\"{dirname}/**\"")),
        "expected '{dirname}/**' in suggestion; got: {msg}"
    );
}

#[test]
fn expand_paths_absolute_dir_suggests_glob_param() {
    let err = expand_paths(&directory("/tmp/x", true, &[])).unwrap_err();
    let msg = err;
    assert!(msg.contains("is a directory"), "got: {msg}");
    // The new guidance points the caller at the `glob` parameter,
    // which walks the supplied directory directly.
    assert!(
        msg.contains("`glob`"),
        "should mention the `glob` parameter; got: {msg}"
    );
}

// ── expand_paths_with_policy: --glob mode ─────────────────────────────────

#[test]
fn expand_paths_glob_walks_absolute_directory() {
    // The motivating bug: an absolute directory + glob filter should
    // walk that directory and return only files matching the glob.
    let dir = directory("/abs", true, &[
        "md31_t1.ndjson",
        "md31_t2.ndjson",
        "other.ndjson",
        "subdir/md31_t3.ndjson",
        "subdir/notes.txt",
    ]);
    let mut warnings: Vec<String> = Vec::new();
    let paths = expand_paths_with_policy(
        &dir,
        Some("**/md31_t*.ndjson"),
        OnError::Warn,
        &mut warnings,
    )
    .unwrap();
    assert_eq!(paths.len(), 3, "got: {paths:?}");
    for p in &paths {
        let name = p.rsplit('/').next().unwrap();
        assert!(name.starts_with("md31_t"), "unexpected: {name}");
    }
}

#[test]
fn expand_paths_glob_matches_no_files_errors() {
    let dir = directory("/abs", true, &["a.txt", "b.txt"]);
    let mut warnings: Vec<String> = Vec::new();
    let err = expand_paths_with_policy(
        &dir,
        Some("**/*.ndjson"),
        OnError::Warn,
        &mut warnings,
    )
    .unwrap_err();
    let msg = err;
    assert!(msg.contains("matched no files"), "got: {msg}");
}

#[test]
fn expand_paths_glob_passes_through_file_specs() {
    // A literal file path is included as-is when `glob` is supplied;
    // the glob does not filter explicitly-named files.
    let file = "/abs/only.txt";
    let mut dir = directory(file, true, &[]);
    dir[0].is_dir = false;
    let mut warnings: Vec<String> = Vec::new();
    let paths = expand_paths_with_policy(
        &dir,
        Some("**/*.ndjson"),
        OnError::Warn,
        &mut warnings,
    )
    .unwrap();
    assert_eq!(paths.len(), 1);
    assert_eq!(paths[0], file);
}

#[test]
fn expand_paths_glob_rejects_glob_in_path_spec() {
    // Mixing a glob-shaped path spec with a separate `glob` is
    // ambiguous and must be rejected.
    let mut warnings: Vec<String> = Vec::new();
    let err = expand_paths_with_policy(
        &directory("some/**/path", false, &[]),
        Some("*.txt"),
        OnError::Warn,
        &mut warnings,
    )
    .unwrap_err();
    let msg = err;
    assert!(
        msg.contains("glob metacharacters") && msg.contains("pick one form"),
        "got: {msg}"
    );
}

// ── Several files ───────────────────────────────────────────────────────────

fn input(path: &str, content: &[u8]) -> SearchInput {
    SearchInput { name: path.to_string(), content: Ok(content.to_vec()) }
}

#[test]
fn names_are_shown_where_there_are_several_files() {
    let mut out = String::new();
    let inputs = vec![input("a", b"x\ny\n"), input("b", b"\xFF\xFEx\x00\n\x00")];
    let r = run(&inputs, &strings(&["x"]), &plain(), &mut out).unwrap();
    assert_eq!(r.total_matches, 2);
    assert_eq!(out, "a:x\nb:x\n");
}

#[test]
fn a_file_that_cannot_be_read_follows_the_policy() {
    let mut out = String::new();
    let inputs = vec![missing("gone"), input("b", b"x\n")];
    assert!(run(&inputs, &strings(&["x"]), &plain(), &mut out).is_err());
    let mut warnings: Vec<String> = Vec::new();
    let mut out = String::new();
    let r = run_with_policy(
        &inputs,
        &strings(&["x"]),
        &plain(),
        OnError::Warn,
        &mut out,
        &mut warnings,
    )
    .unwrap();
    assert_eq!(r.total_matches, 1);
    assert_eq!(warnings.len(), 1);
    assert!(warnings[0].contains("gone"));
}

#[test]
fn an_invalid_pattern_is_an_error() {
    let mut out = String::new();
    assert!(run(&vec![], &strings(&["["]), &plain(), &mut out).is_err());
}

#[test]
fn case_is_ignored_where_asked() {
    let mut out = String::new();
    let opts = FindOptions { ignore_case: true, ..plain() };
    run(&vec![input("a", b"AbC\nd\n")], &strings(&["aBc"]), &opts, &mut out).unwrap();
    assert_eq!(out, "AbC\n");
}

#[test]
fn inverting_finds_the_other_lines() {
    let content = b"a\nb\nab\n";
    let (_, hits) = search_bytes(content, &["a"], false, false, false, false, 0, 0, false, false);
    let (_, rest) = search_bytes(content, &["a"], false, false, false, true, 0, 0, false, false);
    assert_eq!(hits + rest, 3);
}

#[test]
fn globs_select_among_what_a_walk_finds() {
    let mut specs = directory("x/*.txt", false, &[]);
    specs[0].is_dir = false;
    specs[0].entries = vec![
        WalkEntry::Found {
            kind: EntryKind::File,
            rel: "x/a.txt".to_string(),
            path: "./x/a.txt".to_string(),
        },
        WalkEntry::Found {
            kind: EntryKind::Directory,
            rel: "x/d.txt".to_string(),
            path: "./x/d.txt".to_string(),
        },
        WalkEntry::Found {
            kind: EntryKind::File,
            rel: "x/a.md".to_string(),
            path: "./x/a.md".to_string(),
        },
    ];
    assert_eq!(expand_paths(&specs).unwrap(), ["./x/a.txt"]);
    specs[0].entries.push(WalkEntry::Failed {
        hint: "x/y".to_string(),
        message: "denied".to_string(),
    });
    assert_eq!(expand_paths(&specs).unwrap_err(), "find: glob walk error: denied");
    let mut warnings: Vec<String> = Vec::new();
    expand_paths_with_policy(&specs, None, OnError::Warn, &mut warnings).unwrap();
    assert_eq!(warnings, ["find: cannot access x/y: denied"]);
}
