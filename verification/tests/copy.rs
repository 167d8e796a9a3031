use tpu::cmd::copy::{
    canon_nearest, check_glob_dest, check_not_inside, compile_source, copy_shape, file_target,
    glob_anchor, is_glob, next_step, note_copy, note_mkdir, single_file_options, walk_root,
    wants_copy, CopyOptions, CopyReport, CopyShape, CopyStep, OnError,
};
use tpu::walk::{EntryKind, WalkEntry};

fn parts(path: &str) -> Vec<String> {
    path.split('/').filter(|p| !p.is_empty()).map(|p| p.to_string()).collect()
}

fn found(kind: EntryKind, rel: &str) -> WalkEntry {
    WalkEntry::Found { kind, rel: rel.to_string(), path: format!("src/{rel}") }
}

fn failed() -> WalkEntry {
    WalkEntry::Failed { hint: "src/x".to_string(), message: "denied".to_string() }
}

fn failing() -> CopyOptions {
    CopyOptions { on_error: OnError::Fail, ..CopyOptions::default() }
}

#[test]
fn globs_are_told_by_their_characters() {
    for spec in ["*.txt", "a?", "a[b]", "{a,b}"] {
        assert!(is_glob(spec), "{spec}");
    }
    assert!(!is_glob("a/b.txt"));
    assert_eq!(glob_anchor("/a/b*/c"), "/a/b");
    assert_eq!(glob_anchor("plain"), "plain");
}

#[test]
fn the_shape_of_a_copy() {
    assert_eq!(copy_shape("*.txt", false, false).unwrap(), CopyShape::Glob);
    assert_eq!(copy_shape("a", false, false).unwrap(), CopyShape::File);
    assert_eq!(copy_shape("a", true, true).unwrap(), CopyShape::Directory);
    assert_eq!(
        copy_shape("a", true, false).unwrap_err(),
        "copy: source a is a directory; pass --recursive to copy directory trees"
    );
}

#[test]
fn a_glob_needs_a_directory() {
    assert!(check_glob_dest("d", false, false).is_ok());
    assert!(check_glob_dest("d", true, true).is_ok());
    assert_eq!(
        check_glob_dest("d", true, false).unwrap_err(),
        "copy: glob source requires DEST to be a directory: d"
    );
}

#[test]
fn a_tree_is_not_copied_into_itself() {
    let check = |src: &str, dst: &str| check_not_inside("S", "D", &parts(src), &parts(dst));
    assert!(check("/w/src", "/w/dst").is_ok());
    assert!(check("/w/src", "/w/src2").is_ok());
    assert_eq!(
        check("/w/src", "/w/src/a").unwrap_err(),
        "copy: destination D is inside source S; recursive copy would loop indefinitely"
    );
    assert!(check("/w/src", "/w/src").is_err());
}

#[test]
fn a_path_that_is_not_there_is_resolved() {
    let dest = canon_nearest(parts("/w"), &parts("other/../src/./dst"));
    assert_eq!(dest, parts("/w/src/dst"));
    assert!(check_not_inside("src", "other/../src/dst", &parts("/w/src"), &dest).is_err());
    assert_eq!(canon_nearest(parts("/w"), &parts("../../x")), parts("/x"));
}

#[test]
fn existing_files_are_skipped() {
    let mut report = CopyReport::default();
    let opts = CopyOptions::default();
    assert!(wants_copy(&mut report, false, false, &opts));
    assert!(!wants_copy(&mut report, false, true, &opts));
    assert!(!wants_copy(&mut report, true, true, &CopyOptions { overwrite: true, ..opts }));
    assert!(wants_copy(&mut report, false, true, &CopyOptions { overwrite: true, ..opts }));
    assert_eq!(report, CopyReport { copied: 0, skipped: 2, warnings: 0 });
}

#[test]
fn failures_follow_the_policy() {
    let mut report = CopyReport::default();
    let opts = CopyOptions::default();
    assert_eq!(note_copy(&mut report, "a", "b", None, &opts), Ok(None));
    assert_eq!(
        note_copy(&mut report, "a", "b", Some("denied".to_string()), &opts),
        Ok(Some("copy: a -> b: denied".to_string()))
    );
    assert_eq!(
        note_copy(&mut report, "a", "b", Some("denied".to_string()), &failing()),
        Err("copy: a -> b: denied".to_string())
    );
    let m = "copy: mkdir d: denied".to_string();
    assert_eq!(note_mkdir(&mut report, "d", "denied", &opts), Ok(m.clone()));
    assert_eq!(note_mkdir(&mut report, "d", "denied", &failing()), Err(m));
    assert_eq!(report, CopyReport { copied: 1, skipped: 0, warnings: 4 });
}

#[test]
fn a_single_file_fails_on_an_error() {
    let opts = single_file_options(CopyOptions { overwrite: true, ..CopyOptions::default() });
    assert_eq!(opts.on_error, OnError::Fail);
    assert!(opts.overwrite && !opts.recursive);
}

#[test]
fn a_walk_is_followed_step_by_step() {
    let m = compile_source("**/*.txt").unwrap();
    let opts = CopyOptions::default();
    let mut report = CopyReport::default();
    let mut step = |shape: CopyShape, e: WalkEntry| next_step(shape, &m, &e, &opts, &mut report);
    match step(CopyShape::Glob, found(EntryKind::File, "a/b.txt")) {
        Ok(CopyStep::CopyFile(t)) => assert_eq!(t, "b.txt"),
        other => panic!("{other:?}"),
    }
    assert!(matches!(step(CopyShape::Glob, found(EntryKind::File, "b.md")), Ok(CopyStep::Pass)));
    assert!(matches!(
        step(CopyShape::Glob, found(EntryKind::Directory, "d.txt")),
        Ok(CopyStep::Pass)
    ));
    let dir = CopyShape::Directory;
    assert!(matches!(step(dir, found(EntryKind::Directory, "")), Ok(CopyStep::Pass)));
    match step(dir, found(EntryKind::Directory, "d")) {
        Ok(CopyStep::MakeDirectory(t)) => assert_eq!(t, "d"),
        other => panic!("{other:?}"),
    }
    match step(dir, found(EntryKind::File, "a/b.md")) {
        Ok(CopyStep::CopyFile(t)) => assert_eq!(t, "a/b.md"),
        other => panic!("{other:?}"),
    }
    assert!(matches!(step(dir, found(EntryKind::Other, "l")), Ok(CopyStep::Pass)));
    match step(dir, failed()) {
        Ok(CopyStep::Warn(w)) => assert_eq!(w, "copy: cannot access src/x: denied"),
        other => panic!("{other:?}"),
    }
    match step(CopyShape::Glob, failed()) {
        Ok(CopyStep::Warn(w)) => assert_eq!(w, "copy: glob walk: denied"),
        other => panic!("{other:?}"),
    }
    assert_eq!(report.warnings, 2);
    let mut report = CopyReport::default();
    let err = next_step(dir, &m, &failed(), &failing(), &mut report).unwrap_err();
    assert_eq!(err, "copy: walk: denied");
}

#[test]
fn an_invalid_glob_cannot_select() {
    let err = compile_source("a[").unwrap_err();
    assert!(err.starts_with("copy: invalid glob \"a[\": "), "{err}");
}

#[test]
fn a_glob_that_nests_too_deeply_is_an_error() {
    for depth in [251, 400, 5000] {
        let spec = format!("{}a{}", "{".repeat(depth), "}".repeat(depth));
        let err = compile_source(&spec).unwrap_err();
        assert!(err.starts_with("copy: invalid glob "), "{err}");
    }
    assert!(compile_source(&format!("{}a{}", "{".repeat(50), "}".repeat(50))).is_ok());
    assert!(compile_source(&format!("{}{}", "{".repeat(1001), "}".repeat(1001))).is_err());
    assert!(compile_source(&format!("{}{}", "{".repeat(1000), "}".repeat(1000))).is_ok());
}

#[test]
fn a_glob_may_hold_many_braces() {
    // Alternates beside each other, and braces in classes, do not nest.
    for spec in ["{a,b}".repeat(2000), "[{]".repeat(2000), "[]{}]".repeat(2000)] {
        assert!(compile_source(&spec).is_ok());
    }
    // Where `\\` escapes, these are literal braces; where it does not, they nest.
    let escaped = format!("{}{}*", "\\{".repeat(500), "\\}".repeat(500));
    assert_eq!(compile_source(&escaped).is_ok(), !std::path::is_separator('\\'));
    // What globset says of a glob is handed on, however many braces are left open.
    let err = compile_source(&"{".repeat(2000)).unwrap_err();
    assert!(err.ends_with("unclosed alternate group; missing '}' (maybe escape '{' with '[{]'?)"));
    assert!(compile_source(&format!("[{}]", "a".repeat(2_000_000))).is_ok());
}

#[test]
fn a_single_file_keeps_its_name_in_a_directory() {
    assert_eq!(file_target("a/b.txt", true).unwrap().unwrap(), "b.txt");
    assert_eq!(file_target("a/b.txt", false).unwrap(), None);
    assert_eq!(file_target("a/..", true).unwrap_err(), "copy: source has no filename: a/..");
    assert_eq!(file_target("a/..", false).unwrap(), None);
}

#[test]
fn a_walk_for_an_absolute_glob_begins_above_it() {
    assert_eq!(walk_root("src/", false, Some("")), ".");
    assert_eq!(walk_root("/srv/data/a", true, Some("/srv/data")), "/srv/data");
    assert_eq!(walk_root("/", true, None), "/");
    assert_eq!(walk_root("/x", true, Some("")), "/x");
}
