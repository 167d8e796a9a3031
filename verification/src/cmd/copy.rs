//! Copying files: which shape a copy has, what is skipped, and what is reported.

use vstd::prelude::*;
use vstd::string::*;

use crate::glob::{compile_glob, glob_error, glob_pattern};
use crate::lines::texts;
use crate::paths::{file_name, name_of};
use crate::text::{chars_of, format_str_debug, opt_text, outcome, same, str_debug, string_of};
use crate::walk::{is_selected, selects, EntryKind, WalkEntry};

verus! {

/// What a copy came to.
#[derive(Debug, Clone, Copy, PartialEq, Eq, Structural)]
pub struct CopyReport {
    /// Files copied.
    pub copied: usize,
    /// Files skipped.
    pub skipped: usize,
    /// Errors on the way.
    pub warnings: usize,
}

impl Default for CopyReport {
    fn default() -> (r: Self)
        ensures
            r == (CopyReport { copied: 0, skipped: 0, warnings: 0 }),
    {
        CopyReport { copied: 0, skipped: 0, warnings: 0 }
    }
}

/// What to do when an individual entry fails.
#[derive(Debug, Clone, Copy, PartialEq, Eq, Structural)]
pub enum OnError {
    /// Warn and go on with the next entry (default).
    Warn,
    /// Stop at the first error.
    Fail,
}

impl Default for OnError {
    fn default() -> (r: Self)
        ensures
            r == OnError::Warn,
    {
        OnError::Warn
    }
}

/// What is asked of a copy.
#[derive(Debug, Clone, Copy, PartialEq, Eq, Structural)]
pub struct CopyOptions {
    /// Copy directories with what they hold.
    pub recursive: bool,
    /// Overwrite existing files.
    pub overwrite: bool,
    /// What to do when an individual entry fails.
    pub on_error: OnError,
}

impl Default for CopyOptions {
    fn default() -> (r: Self)
        ensures
            !r.recursive && !r.overwrite && r.on_error == OnError::Warn,
    {
        CopyOptions { recursive: false, overwrite: false, on_error: OnError::Warn }
    }
}

/// A character that makes a path a glob.
pub open spec fn is_meta(c: char) -> bool {
    c == '*' || c == '?' || c == '[' || c == '{'
}

/// The position of the first character that makes a path a glob, or the length
/// where there is none.
pub open spec fn first_meta(s: Seq<char>) -> nat
    decreases s.len(),
{
    if s.len() == 0 || is_meta(s[0]) {
        0
    } else {
        1 + first_meta(s.drop_first())
    }
}

/// A path is a glob if it holds one of `*`, `?`, `[` and `{`.
pub open spec fn glob_like(s: Seq<char>) -> bool {
    exists|i: int| 0 <= i < s.len() && is_meta(#[trigger] s[i])
}

pub proof fn lemma_first_meta(s: Seq<char>)
    ensures
        first_meta(s) <= s.len(),
        glob_like(s) == (first_meta(s) < s.len()),
        first_meta(s) < s.len() ==> is_meta(s[first_meta(s) as int]),
        forall|i: int| 0 <= i < first_meta(s) ==> !is_meta(#[trigger] s[i]),
    decreases s.len(),
{
    if s.len() > 0 && !is_meta(s[0]) {
        let t = s.drop_first();
        lemma_first_meta(t);
        assert forall|i: int| 0 <= i < first_meta(s) implies !is_meta(#[trigger] s[i]) by {
            if i > 0 {
                assert(t[i - 1] == s[i]);
            }
        }
        if glob_like(s) {
            let i = choose|i: int| 0 <= i < s.len() && is_meta(#[trigger] s[i]);
            assert(t[i - 1] == s[i]);
            assert(glob_like(t));
        }
    } else if s.len() > 0 {
        assert(glob_like(s));
    }
}

/// The position of the first character that makes a path a glob.
fn find_meta(v: &Vec<char>) -> (r: usize)
    ensures
        r == first_meta(v@),
        r <= v@.len(),
{
    let mut i: usize = 0;
    proof {
        assert(v@.skip(0) =~= v@);
    }
    while i < v.len() && !(v[i] == '*' || v[i] == '?' || v[i] == '[' || v[i] == '{')
        invariant
            i <= v@.len(),
            i + first_meta(v@.skip(i as int)) == first_meta(v@),
        decreases v@.len() - i,
    {
        proof {
            assert(v@.skip(i as int).drop_first() =~= v@.skip(i + 1));
        }
        i = i + 1;
    }
    i
}

/// Whether a path is a glob.
pub fn is_glob(spec: &str) -> (r: bool)
    ensures
        r == glob_like(spec@),
{
    let v = chars_of(spec);
    proof {
        lemma_first_meta(v@);
    }
    find_meta(&v) < v.len()
}

/// The part of a glob that stands before its first glob character.
pub fn glob_anchor(spec: &str) -> (r: String)
    ensures
        r@ == spec@.take(first_meta(spec@) as int),
{
    let v = chars_of(spec);
    let k: usize = find_meta(&v);
    proof {
        assert(v@.subrange(0, k as int) =~= spec@.take(k as int));
    }
    string_of(&v, 0, k)
}

/// The shape of a copy.
#[derive(Debug, Clone, Copy, PartialEq, Eq, Structural)]
pub enum CopyShape {
    /// Every file that a glob matches.
    Glob,
    /// A directory with what it holds.
    Directory,
    /// A single file.
    File,
}

/// The shape of a copy of `source`, or the message of the error.
pub open spec fn shape_of(source: Seq<char>, is_dir: bool, recursive: bool) -> Result<
    CopyShape,
    Seq<char>,
> {
    if glob_like(source) {
        Ok(CopyShape::Glob)
    } else if !is_dir {
        Ok(CopyShape::File)
    } else if recursive {
        Ok(CopyShape::Directory)
    } else {
        Err(
            "copy: source "@ + source
                + " is a directory; pass --recursive to copy directory trees"@,
        )
    }
}

/// Decide the shape of a copy of `source`, a directory where `is_dir`.
pub fn copy_shape(source: &str, is_dir: bool, recursive: bool) -> (r: Result<CopyShape, String>)
    ensures
        outcome(r) == shape_of(source@, is_dir, recursive),
{
    if is_glob(source) {
        Ok(CopyShape::Glob)
    } else if !is_dir {
        Ok(CopyShape::File)
    } else if recursive {
        Ok(CopyShape::Directory)
    } else {
        let mut m = "copy: source ".to_owned();
        m.push_str(source);
        m.push_str(" is a directory; pass --recursive to copy directory trees");
        Err(m)
    }
}

/// Refuse a glob whose destination is there and no directory.
pub fn check_glob_dest(dest: &str, exists: bool, is_dir: bool) -> (r: Result<(), String>)
    ensures
        match r {
            Ok(_) => is_dir || !exists,
            Err(m) => exists && !is_dir && m@
                == "copy: glob source requires DEST to be a directory: "@ + dest@,
        },
{
    if exists && !is_dir {
        let mut m = "copy: glob source requires DEST to be a directory: ".to_owned();
        m.push_str(dest);
        return Err(m);
    }
    Ok(())
}

/// The directory that a walk for a glob begins in: for an absolute glob the parent of the
/// part before its first glob character, or that part where it has none; else the current
/// one.
pub open spec fn root_of(anchor: Seq<char>, is_absolute: bool, parent: Option<Seq<char>>) -> Seq<char> {
    if !is_absolute {
        "."@
    } else {
        match parent {
            Some(p) => if p.len() > 0 {
                p
            } else {
                anchor
            },
            None => anchor,
        }
    }
}

/// Decide the directory that a walk for a glob begins in, given the part before its first
/// glob character, whether that is absolute, and its parent.
pub fn walk_root(anchor: &str, is_absolute: bool, parent: Option<&str>) -> (r: String)
    ensures
        r@ == root_of(anchor@, is_absolute, opt_text(parent)),
{
    if !is_absolute {
        return ".".to_owned();
    }
    match parent {
        Some(p) => if chars_of(p).len() > 0 {
            p.to_owned()
        } else {
            anchor.to_owned()
        },
        None => anchor.to_owned(),
    }
}

/// Decide the name that a single file gets below the destination: its own where the
/// destination is a directory, and none where the destination is the file to be.
pub fn file_target(source: &str, dest_is_dir: bool) -> (r: Result<Option<String>, String>)
    ensures
        match r {
            Ok(None) => !dest_is_dir,
            Ok(Some(n)) => dest_is_dir && file_name(source@) == Some(n@),
            Err(m) => dest_is_dir && file_name(source@) is None && m@
                == "copy: source has no filename: "@ + source@,
        },
{
    if !dest_is_dir {
        return Ok(None);
    }
    match name_of(source) {
        Some(n) => Ok(Some(n)),
        None => {
            let mut m = "copy: source has no filename: ".to_owned();
            m.push_str(source);
            Err(m)
        },
    }
}

/// The options for a copy of a single file: there is nothing to go on with after an
/// error.
pub fn single_file_options(opts: CopyOptions) -> (r: CopyOptions)
    ensures
        r == (CopyOptions { on_error: OnError::Fail, ..opts }),
{
    CopyOptions { recursive: opts.recursive, overwrite: opts.overwrite, on_error: OnError::Fail }
}

/// The components of a path, from those of the directory it begins in: `..` leaves a
/// directory, and `.` stays there.
pub open spec fn resolved(base: Seq<Seq<char>>, tail: Seq<Seq<char>>) -> Seq<Seq<char>>
    decreases tail.len(),
{
    if tail.len() == 0 {
        base
    } else {
        let r = resolved(base, tail.drop_last());
        if tail.last() == "."@ {
            r
        } else if tail.last() == ".."@ {
            if r.len() > 0 {
                r.drop_last()
            } else {
                r
            }
        } else {
            r.push(tail.last())
        }
    }
}

/// The components of a path that is not there yet: those of the deepest directory on it
/// that is, and behind them the rest with its `..` and `.` resolved.
pub fn canon_nearest(existing: Vec<String>, tail: &Vec<String>) -> (r: Vec<String>)
    ensures
        texts(r@) == resolved(texts(existing@), texts(tail@)),
{
    let ghost base = texts(existing@);
    let ghost views = texts(tail@);
    let mut out = existing;
    let mut i: usize = 0;
    proof {
        assert(views.take(0) =~= seq![]);
    }
    while i < tail.len()
        invariant
            i <= tail@.len(),
            views == texts(tail@),
            texts(out@) == resolved(base, views.take(i as int)),
        decreases tail@.len() - i,
    {
        let ghost had = texts(out@);
        proof {
            assert(views.take(i + 1).drop_last() =~= views.take(i as int));
            assert(views.take(i + 1).last() == tail@[i as int]@);
            assert(had.len() == out@.len());
        }
        let part = tail[i].as_str();
        if same(part, "..") {
            proof {
                reveal_strlit(".");
                reveal_strlit("..");
                assert(part@.len() == 2);
            }
            let _ = out.pop();
            proof {
                assert(had.len() > 0 ==> texts(out@) =~= had.drop_last());
                assert(had.len() == 0 ==> texts(out@) =~= had);
            }
        } else if !same(part, ".") {
            out.push(part.to_owned());
            proof {
                assert(texts(out@) =~= had.push(part@));
            }
        }
        i = i + 1;
    }
    proof {
        assert(views.take(i as int) =~= views);
    }
    out
}

/// The components of one path begin with all those of another.
pub open spec fn is_inside(outer: Seq<String>, inner: Seq<String>) -> bool {
    outer.len() <= inner.len() && forall|i: int|
        0 <= i < outer.len() ==> (#[trigger] outer[i])@ == inner[i]@
}

/// Whether a path lies inside another or is the same, by their components.
pub fn inside(outer: &Vec<String>, inner: &Vec<String>) -> (r: bool)
    ensures
        r == is_inside(outer@, inner@),
{
    if outer.len() > inner.len() {
        return false;
    }
    let mut i: usize = 0;
    while i < outer.len()
        invariant
            i <= outer@.len() <= inner@.len(),
            forall|k: int| 0 <= k < i ==> (#[trigger] outer@[k])@ == inner@[k]@,
        decreases outer@.len() - i,
    {
        if !same(outer[i].as_str(), inner[i].as_str()) {
            return false;
        }
        i = i + 1;
    }
    true
}

/// Refuse to copy a directory into itself, given the components of both paths.
pub fn check_not_inside(
    source: &str,
    dest: &str,
    source_parts: &Vec<String>,
    dest_parts: &Vec<String>,
) -> (r: Result<(), String>)
    ensures
        match r {
            Ok(_) => !is_inside(source_parts@, dest_parts@),
            Err(m) => is_inside(source_parts@, dest_parts@) && m@ == "copy: destination "@ + dest@
                + " is inside source "@ + source@
                + "; recursive copy would loop indefinitely"@,
        },
{
    if inside(source_parts, dest_parts) {
        let mut m = "copy: destination ".to_owned();
        m.push_str(dest);
        m.push_str(" is inside source ");
        m.push_str(source);
        m.push_str("; recursive copy would loop indefinitely");
        Err(m)
    } else {
        Ok(())
    }
}

/// A file is copied: not onto itself, and not over an existing file unless that is asked for.
pub open spec fn is_copied(same_file: bool, dest_exists: bool, overwrite: bool) -> bool {
    !same_file && (overwrite || !dest_exists)
}

/// Decide whether to copy a file: not onto itself, and not over an existing file
/// unless that is asked for. A file that is not copied is counted as skipped.
pub fn wants_copy(
    report: &mut CopyReport,
    same_file: bool,
    dest_exists: bool,
    opts: &CopyOptions,
) -> (r: bool)
    requires
        old(report).skipped < usize::MAX,
    ensures
        r == is_copied(same_file, dest_exists, opts.overwrite),
        r ==> *final(report) == *old(report),
        !r ==> *final(report) == (CopyReport {
            skipped: (old(report).skipped + 1) as usize,
            ..*old(report)
        }),
{
    if same_file || (dest_exists && !opts.overwrite) {
        report.skipped = report.skipped + 1;
        return false;
    }
    true
}

/// The message for a file that could not be copied.
pub open spec fn copy_failure(src: Seq<char>, dst: Seq<char>, error: Seq<char>) -> Seq<char> {
    "copy: "@ + src + " -> "@ + dst + ": "@ + error
}

/// Count what became of copying a file. A failure is an error where the options
/// say so, and otherwise a warning, which is handed back.
pub fn note_copy(
    report: &mut CopyReport,
    src: &str,
    dst: &str,
    failure: Option<String>,
    opts: &CopyOptions,
) -> (r: Result<Option<String>, String>)
    requires
        old(report).copied < usize::MAX,
        old(report).warnings < usize::MAX,
    ensures
        match failure {
            None => {
                &&& r matches Ok(None)
                &&& *final(report) == (CopyReport {
                    copied: (old(report).copied + 1) as usize,
                    ..*old(report)
                })
            },
            Some(e) => {
                &&& *final(report) == (CopyReport {
                    warnings: (old(report).warnings + 1) as usize,
                    ..*old(report)
                })
                &&& match r {
                    Ok(Some(m)) => opts.on_error == OnError::Warn && m@ == copy_failure(
                        src@,
                        dst@,
                        e@,
                    ),
                    Ok(None) => false,
                    Err(m) => opts.on_error == OnError::Fail && m@ == copy_failure(
                        src@,
                        dst@,
                        e@,
                    ),
                }
            },
        },
{
    match failure {
        None => {
            report.copied = report.copied + 1;
            Ok(None)
        },
        Some(e) => {
            report.warnings = report.warnings + 1;
            let mut m = "copy: ".to_owned();
            m.push_str(src);
            m.push_str(" -> ");
            m.push_str(dst);
            m.push_str(": ");
            m.push_str(e.as_str());
            match opts.on_error {
                OnError::Fail => Err(m),
                OnError::Warn => Ok(Some(m)),
            }
        },
    }
}

/// Count an error met on the way. It ends the copy where the options say so, with
/// the message `fail`, and is otherwise the warning `warn`.
fn note_problem(report: &mut CopyReport, fail: String, warn: String, opts: &CopyOptions) -> (r: Result<
    String,
    String,
>)
    requires
        old(report).warnings < usize::MAX,
    ensures
        *final(report) == (CopyReport {
            warnings: (old(report).warnings + 1) as usize,
            ..*old(report)
        }),
        match r {
            Ok(m) => opts.on_error == OnError::Warn && m == warn,
            Err(m) => opts.on_error == OnError::Fail && m == fail,
        },
{
    report.warnings = report.warnings + 1;
    match opts.on_error {
        OnError::Fail => Err(fail),
        OnError::Warn => Ok(warn),
    }
}

/// The message for a directory that could not be created.
pub open spec fn mkdir_failure(target: Seq<char>, error: Seq<char>) -> Seq<char> {
    "copy: mkdir "@ + target + ": "@ + error
}

/// Count a directory that could not be created. It is an error where the options say
/// so, and otherwise a warning, which is handed back.
pub fn note_mkdir(report: &mut CopyReport, target: &str, error: &str, opts: &CopyOptions) -> (r:
    Result<String, String>)
    requires
        old(report).warnings < usize::MAX,
    ensures
        *final(report) == (CopyReport {
            warnings: (old(report).warnings + 1) as usize,
            ..*old(report)
        }),
        match r {
            Ok(m) => opts.on_error == OnError::Warn && m@ == mkdir_failure(target@, error@),
            Err(m) => opts.on_error == OnError::Fail && m@ == mkdir_failure(target@, error@),
        },
{
    let mut m = "copy: mkdir ".to_owned();
    m.push_str(target);
    m.push_str(": ");
    m.push_str(error);
    report.warnings = report.warnings + 1;
    match opts.on_error {
        OnError::Fail => Err(m),
        OnError::Warn => Ok(m),
    }
}

/// What to do with an entry of a walk.
#[derive(Debug)]
pub enum CopyStep {
    /// Pass over it.
    Pass,
    /// Tell of a problem and go on.
    Warn(String),
    /// Create this directory below the destination.
    MakeDirectory(String),
    /// Copy the file to this path below the destination.
    CopyFile(String),
}

/// The message for a walk that met an error.
pub open spec fn walk_failure(shape: CopyShape, message: Seq<char>) -> Seq<char> {
    (if shape == CopyShape::Glob {
        "copy: glob walk: "@
    } else {
        "copy: walk: "@
    }) + message
}

/// The warning for a walk that met an error and goes on.
pub open spec fn walk_warning(shape: CopyShape, hint: Seq<char>, message: Seq<char>) -> Seq<char> {
    if shape == CopyShape::Glob {
        "copy: glob walk: "@ + message
    } else {
        "copy: cannot access "@ + hint + ": "@ + message
    }
}

/// What is to be done with something found: a glob copies the files it selects, each
/// under its own name; a directory copy mirrors directories and files below where it
/// began.
pub open spec fn found_step(shape: CopyShape, pattern: Seq<char>, e: WalkEntry, step: CopyStep) -> bool {
    match e {
        WalkEntry::Found { kind, rel, path } => if shape == CopyShape::Glob {
            match file_name(path@) {
                Some(name) if is_selected(e, pattern) => step matches CopyStep::CopyFile(t) && t@
                    == name,
                _ => step is Pass,
            }
        } else if rel@.len() == 0 {
            step is Pass
        } else {
            match kind {
                EntryKind::Directory => step matches CopyStep::MakeDirectory(t) && t@ == rel@,
                EntryKind::File => step matches CopyStep::CopyFile(t) && t@ == rel@,
                EntryKind::Other => step is Pass,
            }
        },
        WalkEntry::Failed { .. } => false,
    }
}

/// Decide what to do with an entry of a walk. An error of the walk is counted; it
/// ends the copy where the options say so.
pub fn next_step(
    shape: CopyShape,
    matcher: &globset::GlobSet,
    entry: &WalkEntry,
    opts: &CopyOptions,
    report: &mut CopyReport,
) -> (r: Result<CopyStep, String>)
    requires
        old(report).warnings < usize::MAX,
    ensures
        match *entry {
            WalkEntry::Found { .. } => {
                &&& *final(report) == *old(report)
                &&& r matches Ok(step) && found_step(shape, glob_pattern(*matcher), *entry, step)
            },
            WalkEntry::Failed { hint, message } => {
                &&& *final(report) == (CopyReport {
                    warnings: (old(report).warnings + 1) as usize,
                    ..*old(report)
                })
                &&& match r {
                    Ok(CopyStep::Warn(m)) => opts.on_error == OnError::Warn && m@ == walk_warning(
                        shape,
                        hint@,
                        message@,
                    ),
                    Ok(_) => false,
                    Err(m) => opts.on_error == OnError::Fail && m@ == walk_failure(
                        shape,
                        message@,
                    ),
                }
            },
        },
{
    match entry {
        WalkEntry::Found { kind, rel, path } => match shape {
            CopyShape::Glob => match name_of(path.as_str()) {
                Some(name) => if selects(matcher, entry) {
                    Ok(CopyStep::CopyFile(name))
                } else {
                    Ok(CopyStep::Pass)
                },
                None => Ok(CopyStep::Pass),
            },
            _ => if rel.as_str().is_empty() {
                Ok(CopyStep::Pass)
            } else {
                match kind {
                    EntryKind::Directory => Ok(CopyStep::MakeDirectory(rel.clone())),
                    EntryKind::File => Ok(CopyStep::CopyFile(rel.clone())),
                    EntryKind::Other => Ok(CopyStep::Pass),
                }
            },
        },
        WalkEntry::Failed { hint, message } => {
            let is_glob = match shape {
                CopyShape::Glob => true,
                _ => false,
            };
            let mut fail = (if is_glob { "copy: glob walk: " } else { "copy: walk: " }).to_owned();
            fail.push_str(message.as_str());
            let warn = if is_glob {
                let mut w = "copy: glob walk: ".to_owned();
                w.push_str(message.as_str());
                w
            } else {
                let mut w = "copy: cannot access ".to_owned();
                w.push_str(hint.as_str());
                w.push_str(": ");
                w.push_str(message.as_str());
                w
            };
            match note_problem(report, fail, warn, opts) {
                Ok(w) => Ok(CopyStep::Warn(w)),
                Err(m) => Err(m),
            }
        },
    }
}

/// Compile the glob that a copy selects by.
pub fn compile_source(source: &str) -> (r: Result<globset::GlobSet, String>)
    ensures
        match r {
            Ok(m) => glob_error(source@) is None && glob_pattern(m) == source@,
            Err(e) => glob_error(source@) is Some && e@ == "copy: invalid glob "@ + str_debug(source@)
                + ": "@ + glob_error(source@)->0,
        },
{
    match compile_glob(source) {
        Ok(m) => Ok(m),
        Err(e) => {
            let mut m = "copy: invalid glob ".to_owned();
            m.push_str(format_str_debug(source).as_str());
            m.push_str(": ");
            m.push_str(e.as_str());
            Err(m)
        },
    }
}

// ── Laws ────────────────────────────────────────────────────────────────────

proof fn lemma_meta_at(s: Seq<char>)
    ensures
        first_meta(s) <= s.len(),
        forall|i: int| 0 <= i < first_meta(s) ==> !is_meta(#[trigger] s[i]),
        first_meta(s) < s.len() ==> is_meta(s[first_meta(s) as int]),
    decreases s.len(),
{
    if s.len() > 0 && !is_meta(s[0]) {
        let rest = s.drop_first();
        lemma_meta_at(rest);
        assert forall|i: int| 0 <= i < first_meta(s) implies !is_meta(#[trigger] s[i]) by {
            if i > 0 {
                assert(s[i] == rest[i - 1]);
            }
        }
        if first_meta(s) < s.len() {
            assert(s[first_meta(s) as int] == rest[first_meta(rest) as int]);
        }
    }
}

/// A path is a glob where, and only where, one of `*`, `?`, `[` and `{` occurs in it; the part
/// before a glob's first such character holds none and is followed by one.
pub proof fn law_globs_hold_glob_characters(s: Seq<char>)
    ensures
        glob_like(s) <==> s.contains('*') || s.contains('?') || s.contains('[') || s.contains('{'),
        !glob_like(s) ==> s.take(first_meta(s) as int) == s,
        glob_like(s) ==> {
            let k = first_meta(s) as int;
            &&& k < s.len()
            &&& seq!['*', '?', '[', '{'].contains(s[k])
            &&& !glob_like(s.take(k))
        },
{
    lemma_meta_at(s);
    let k = first_meta(s) as int;
    let metas = seq!['*', '?', '[', '{'];
    assert(metas[0] == '*' && metas[1] == '?' && metas[2] == '[' && metas[3] == '{');
    if glob_like(s) {
        let i = choose|i: int| 0 <= i < s.len() && is_meta(#[trigger] s[i]);
        assert(s.contains(s[i]));
        assert(k < s.len());
        assert(metas.contains(s[k]));
        assert forall|j: int| 0 <= j < k implies !is_meta(#[trigger] s.take(k)[j]) by {
            assert(s.take(k)[j] == s[j]);
        }
    } else {
        if k < s.len() {
            assert(is_meta(s[k]));
        }
        assert(s.take(k) =~= s);
    }
}

/// A directory is copied only where that is asked for; a path that looks like a glob is one,
/// whatever stands there, and anything else is a single file.
pub proof fn law_directories_are_copied_on_request(source: Seq<char>, is_dir: bool, recursive: bool)
    ensures
        shape_of(source, is_dir, recursive) is Err <==> is_dir && !recursive && !glob_like(source),
        shape_of(source, is_dir, recursive) == Ok::<CopyShape, Seq<char>>(CopyShape::Directory)
            ==> is_dir && recursive,
        shape_of(source, is_dir, recursive) == Ok::<CopyShape, Seq<char>>(CopyShape::Glob)
            <==> glob_like(source),
        shape_of(source, is_dir, recursive) == Ok::<CopyShape, Seq<char>>(CopyShape::File) ==> !is_dir,
{
}

/// A path is resolved component by component: a name is entered, `..` leaves the directory
/// entered last, `.` changes nothing, and above the root there is nothing.
pub proof fn law_paths_are_resolved_by_component(
    base: Seq<Seq<char>>,
    a: Seq<Seq<char>>,
    b: Seq<Seq<char>>,
    name: Seq<char>,
)
    requires
        name != "."@,
        name != ".."@,
    ensures
        resolved(base, a + b) == resolved(resolved(base, a), b),
        resolved(base, seq![]) == base,
        resolved(base, seq![name]) == base.push(name),
        resolved(base, seq![name, ".."@]) == base,
        resolved(base, seq!["."@]) == base,
        resolved(seq![], seq![".."@]) == Seq::<Seq<char>>::empty(),
    decreases b.len(),
{
    reveal_strlit(".");
    reveal_strlit("..");
    assert("."@ != ".."@) by {
        assert("."@.len() != ".."@.len());
    }
    assert(seq![name].drop_last() =~= seq![]);
    assert(seq![name, ".."@].drop_last() =~= seq![name]);
    assert(seq!["."@].drop_last() =~= seq![]);
    assert(seq![".."@].drop_last() =~= seq![]);
    assert(resolved(base, seq![]) == base);
    assert(resolved(base, seq![name]) == base.push(name));
    assert(base.push(name).drop_last() =~= base);
    assert(resolved(Seq::<Seq<char>>::empty(), seq![]) == Seq::<Seq<char>>::empty());
    if b.len() == 0 {
        assert(a + b =~= a);
    } else {
        law_paths_are_resolved_by_component(base, a, b.drop_last(), name);
        assert((a + b).drop_last() =~= a + b.drop_last());
        assert((a + b).last() == b.last());
    }
}

/// A walk for a glob begins in the current directory, but for an absolute glob in the parent of
/// what stands before its first glob character, or there where it has no parent.
pub proof fn law_walks_begin_above_the_glob(anchor: Seq<char>, parent: Seq<char>)
    ensures
        root_of(anchor, false, Some(parent)) == "."@,
        root_of(anchor, false, None) == "."@,
        parent.len() > 0 ==> root_of(anchor, true, Some(parent)) == parent,
        parent.len() == 0 ==> root_of(anchor, true, Some(parent)) == anchor,
        root_of(anchor, true, None) == anchor,
{
}

/// A copy of a directory puts every file and directory below it in the same place below the
/// destination; a glob puts each file that it selects directly there under its own name, and
/// nothing else.
pub proof fn law_what_is_found_is_copied(
    shape: CopyShape,
    pattern: Seq<char>,
    e: WalkEntry,
    step: CopyStep,
)
    requires
        found_step(shape, pattern, e, step),
    ensures
        ({
            let rel = e->rel@;
            &&& e is Found
            &&& shape != CopyShape::Glob && e->kind == EntryKind::File && rel.len() > 0 ==> (
            step matches CopyStep::CopyFile(t) && t@ == rel)
            &&& shape != CopyShape::Glob && e->kind == EntryKind::Directory && rel.len() > 0 ==> (
            step matches CopyStep::MakeDirectory(t) && t@ == rel)
            &&& shape == CopyShape::Glob && is_selected(e, pattern) && file_name(e->path@) is Some
                ==> (step matches CopyStep::CopyFile(t) && Some(t@) == file_name(e->path@))
            &&& step is CopyFile ==> (if shape == CopyShape::Glob {
                is_selected(e, pattern)
            } else {
                e->kind == EntryKind::File
            })
            &&& step is MakeDirectory ==> shape != CopyShape::Glob && e->kind
                == EntryKind::Directory
        }),
{
}

/// A path lies inside another, or is the same, where, and only where, it begins with all of the
/// other's components.
pub proof fn law_inside_is_below(outer: Seq<String>, inner: Seq<String>)
    ensures
        is_inside(outer, inner) <==> outer.len() <= inner.len() && texts(inner).take(
            outer.len() as int,
        ) == texts(outer),
        is_inside(outer, outer),
{
    if is_inside(outer, inner) {
        assert(texts(inner).take(outer.len() as int) =~= texts(outer));
    }
    if outer.len() <= inner.len() && texts(inner).take(outer.len() as int) == texts(outer) {
        assert forall|i: int| 0 <= i < outer.len() implies (#[trigger] outer[i])@ == inner[i]@ by {
            assert(texts(outer)[i] == texts(inner).take(outer.len() as int)[i]);
        }
    }
}

/// A file is never copied onto itself, and one that is there is only overwritten where that is
/// asked for; any other is copied.
pub proof fn law_nothing_is_overwritten_unasked(dest_exists: bool, overwrite: bool)
    ensures
        !is_copied(true, dest_exists, overwrite),
        !is_copied(false, true, false),
        is_copied(false, true, true),
        is_copied(false, false, overwrite),
{
}

} // verus!
