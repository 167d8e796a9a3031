//! Selecting the files that a diagnosis looks at.

use vstd::prelude::*;
use vstd::string::*;

use crate::cmd::copy::{
    first_meta, glob_anchor, glob_like, is_glob, law_globs_hold_glob_characters, lemma_first_meta,
    OnError,
};
use crate::glob::{compile_glob, glob_error, glob_match, glob_matches, glob_pattern};
use crate::lines::{parts, split_parts, texts};
use crate::paths::{
    behind_slash, extension, extension_of, find_behind_slash,
    law_the_extension_stands_behind_the_last_dot, lemma_behind_slash,
};
use crate::text::{
    chars_of, find_char, first_pos, format_str_debug, law_split_finds_the_parts,
    law_split_loses_nothing, lower_text, opt_string, same, split_at_first, str_debug, string_of,
    to_lower, trim, trimmed,
};
use crate::walk::{
    access_warnings, find_access_error, first_access_error, push_access_warnings, EntryKind,
    WalkEntry,
};

verus! {

// ── Names ───────────────────────────────────────────────────────────────────

/// The extensions of files that are taken to be binary.
pub open spec fn binary_extensions() -> Seq<Seq<char>> {
    seq![
        "exe"@, "dll"@, "so"@, "dylib"@, "a"@, "lib"@, "o"@, "obj"@, "pdb"@, "class"@, "jar"@,
        "war"@, "zip"@, "7z"@, "gz"@, "tgz"@, "bz2"@, "xz"@, "rar"@, "tar"@, "iso"@, "dmg"@,
        "img"@, "bin"@, "dat"@, "db"@, "sqlite"@, "png"@, "jpg"@, "jpeg"@, "gif"@, "bmp"@,
        "ico"@, "tif"@, "tiff"@, "webp"@, "psd"@, "svgz"@, "mp3"@, "mp4"@, "wav"@, "flac"@,
        "ogg"@, "avi"@, "mov"@, "mkv"@, "webm"@, "pdf"@, "doc"@, "docx"@, "xls"@, "xlsx"@,
        "ppt"@, "pptx"@, "ttf"@, "otf"@, "woff"@, "woff2"@, "eot"@,
    ]
}

/// A file is taken to be binary by its extension, whose case does not matter.
pub open spec fn has_binary_extension(path: Seq<char>) -> bool {
    extension(path) matches Some(e) && binary_extensions().contains(lower_text(e))
}

fn listed_extensions() -> (r: Vec<&'static str>)
    ensures
        r@.len() == binary_extensions().len(),
        forall|i: int| 0 <= i < r@.len() ==> (#[trigger] r@[i])@ == binary_extensions()[i],
{
    vec![
        "exe", "dll", "so", "dylib", "a", "lib", "o", "obj", "pdb", "class", "jar", "war",
        "zip", "7z", "gz", "tgz", "bz2", "xz", "rar", "tar", "iso", "dmg", "img", "bin", "dat",
        "db", "sqlite", "png", "jpg", "jpeg", "gif", "bmp", "ico", "tif", "tiff", "webp",
        "psd", "svgz", "mp3", "mp4", "wav", "flac", "ogg", "avi", "mov", "mkv", "webm", "pdf",
        "doc", "docx", "xls", "xlsx", "ppt", "pptx", "ttf", "otf", "woff", "woff2", "eot",
    ]
}

/// Whether a file is taken to be binary by its extension.
pub fn is_binary_extension(path: &str) -> (r: bool)
    ensures
        r == has_binary_extension(path@),
{
    let ext = match extension_of(path) {
        Some(e) => to_lower(e.as_str()),
        None => {
            return false;
        },
    };
    let list = listed_extensions();
    let mut i: usize = 0;
    while i < list.len()
        invariant
            i <= list@.len(),
            extension(path@) matches Some(e) && ext@ == lower_text(e),
            list@.len() == binary_extensions().len(),
            forall|j: int| 0 <= j < list@.len() ==> (#[trigger] list@[j])@ == binary_extensions()[j],
            forall|j: int| 0 <= j < i ==> #[trigger] binary_extensions()[j] != ext@,
        decreases list@.len() - i,
    {
        if same(list[i], ext.as_str()) {
            proof {
                assert(binary_extensions()[i as int] == ext@);
            }
            return true;
        }
        i = i + 1;
    }
    false
}

/// Directories whose content is not looked at.
pub open spec fn is_skip_dir(name: Seq<char>) -> bool {
    name == ".git"@ || name == "node_modules"@ || name == "target"@
}

/// Whether what a directory of the given name holds is not looked at.
pub fn is_skipped_dir(name: &str) -> (r: bool)
    ensures
        r == is_skip_dir(name@),
{
    same(name, ".git") || same(name, "node_modules") || same(name, "target")
}

/// A relative path leads through a directory whose content is not looked at.
pub open spec fn is_skipped(rel: Seq<char>) -> bool
    decreases rel.len(),
{
    let k = first_pos(rel, '/') as int;
    if k >= rel.len() {
        false
    } else {
        is_skip_dir(rel.take(k)) || is_skipped(rel.skip(k + 1))
    }
}

fn leads_through_skipped(rel: &str) -> (r: bool)
    ensures
        r == is_skipped(rel@),
    decreases rel@.len(),
{
    let v = chars_of(rel);
    let k: usize = find_char(&v, '/');
    if k >= v.len() {
        return false;
    }
    proof {
        assert(v@.subrange(0, k as int) =~= rel@.take(k as int));
        assert(v@.subrange(k + 1, v@.len() as int) =~= rel@.skip(k + 1));
    }
    is_skipped_dir(string_of(&v, 0, k).as_str()) || leads_through_skipped(
        string_of(&v, k + 1, v.len()).as_str(),
    )
}

// ── Ignored files ───────────────────────────────────────────────────────────

/// The globs that a line of an ignore file stands for: none for an empty line, a comment
/// and a negation. A directory stands for what it holds, and each pattern holds
/// at any depth.
pub open spec fn line_globs(line: Seq<char>) -> Seq<Seq<char>> {
    let s = trimmed(line);
    if s.len() == 0 || s[0] == '#' || s[0] == '!' {
        seq![]
    } else {
        let p = if s.last() == '/' {
            s.drop_last() + "/**"@
        } else {
            s
        };
        seq![p, "**/"@ + p]
    }
}

/// The globs of the first `n` lines.
pub open spec fn ignore_globs(lines: Seq<Seq<char>>, n: int) -> Seq<Seq<char>>
    decreases n,
{
    if n <= 0 {
        seq![]
    } else {
        ignore_globs(lines, n - 1) + line_globs(lines[n - 1])
    }
}

/// The globs of an ignore file.
pub open spec fn globs_of(ignore: Option<Seq<char>>) -> Seq<Seq<char>> {
    match ignore {
        Some(text) => ignore_globs(parts(text), parts(text).len() as int),
        None => seq![],
    }
}

/// One of the globs matches a path; those that are invalid match nothing.
pub open spec fn is_ignored(globs: Seq<Seq<char>>, rel: Seq<char>) -> bool {
    exists|i: int|
        0 <= i < globs.len() && glob_error(#[trigger] globs[i]) is None && glob_match(globs[i], rel)
}

/// The globs that the text of an ignore file stands for.
pub fn load_gitignore(text: &str) -> (r: Vec<String>)
    ensures
        texts(r@) == globs_of(Some(text@)),
{
    let lines = split_parts(text);
    let ghost views = parts(text@);
    let mut out: Vec<String> = Vec::new();
    let mut i: usize = 0;
    proof {
        assert(texts(lines@).len() == lines@.len());
        assert(texts(out@) =~= ignore_globs(views, 0));
    }
    while i < lines.len()
        invariant
            i <= lines@.len(),
            views == texts(lines@),
            views == parts(text@),
            texts(out@) == ignore_globs(views, i as int),
        decreases lines@.len() - i,
    {
        let ghost had = texts(out@);
        proof {
            assert(views[i as int] == lines@[i as int]@);
        }
        let s = trim(lines[i].as_str());
        let v = chars_of(s.as_str());
        if v.len() == 0 || v[0] == '#' || v[0] == '!' {
            proof {
                assert(had + line_globs(views[i as int]) =~= had);
            }
        } else {
            let n: usize = v.len();
            let p = if v[n - 1] == '/' {
                let mut p = string_of(&v, 0, n - 1);
                proof {
                    assert(v@.subrange(0, n - 1) =~= s@.drop_last());
                }
                p.push_str("/**");
                p
            } else {
                s
            };
            let mut deep = "**/".to_owned();
            deep.push_str(p.as_str());
            let ghost pv = p@;
            let ghost dv = deep@;
            out.push(p);
            out.push(deep);
            proof {
                assert(texts(out@) =~= had + seq![pv, dv]);
            }
        }
        i = i + 1;
    }
    out
}

/// Compiles the globs that are valid.
fn compile_all(globs: &Vec<String>) -> (r: Vec<globset::GlobSet>)
    ensures
        forall|j: int|
            0 <= j < r@.len() ==> texts(globs@).contains(glob_pattern(#[trigger] r@[j]))
                && glob_error(glob_pattern(r@[j])) is None,
        forall|i: int|
            0 <= i < globs@.len() && glob_error((#[trigger] globs@[i])@) is None ==> exists|j: int|
                0 <= j < r@.len() && glob_pattern(#[trigger] r@[j]) == globs@[i]@,
{
    let ghost views = texts(globs@);
    let mut out: Vec<globset::GlobSet> = Vec::new();
    let mut k: usize = 0;
    while k < globs.len()
        invariant
            k <= globs@.len(),
            views == texts(globs@),
            forall|j: int|
                0 <= j < out@.len() ==> views.contains(glob_pattern(#[trigger] out@[j]))
                    && glob_error(glob_pattern(out@[j])) is None,
            forall|i: int|
                0 <= i < k && glob_error((#[trigger] globs@[i])@) is None ==> exists|j: int|
                    0 <= j < out@.len() && glob_pattern(#[trigger] out@[j]) == globs@[i]@,
        decreases globs@.len() - k,
    {
        match compile_glob(globs[k].as_str()) {
            Ok(m) => {
                let ghost had = out@;
                proof {
                    assert(views[k as int] == globs@[k as int]@);
                    assert(views.contains(glob_pattern(m)));
                }
                out.push(m);
                proof {
                    assert(out@[had.len() as int] == m);
                    assert forall|i: int|
                        0 <= i < k + 1 && glob_error((#[trigger] globs@[i])@) is None implies exists|
                        j: int,
                    |
                        0 <= j < out@.len() && glob_pattern(#[trigger] out@[j]) == globs@[i]@ by {
                        if i < k {
                            let j = choose|j: int|
                                0 <= j < had.len() && glob_pattern(#[trigger] had[j]) == globs@[i]@;
                            assert(out@[j] == had[j]);
                        }
                    }
                }
            },
            Err(_) => {},
        }
        k = k + 1;
    }
    out
}

fn matches_any(ms: &Vec<globset::GlobSet>, rel: &str) -> (r: bool)
    ensures
        r == exists|j: int|
            0 <= j < ms@.len() && glob_match(glob_pattern(#[trigger] ms@[j]), rel@),
{
    let mut i: usize = 0;
    while i < ms.len()
        invariant
            i <= ms@.len(),
            forall|j: int|
                0 <= j < i ==> !glob_match(glob_pattern(#[trigger] ms@[j]), rel@),
        decreases ms@.len() - i,
    {
        if glob_matches(&ms[i], rel) {
            return true;
        }
        i = i + 1;
    }
    false
}

/// The paths to look at: those given, and the current directory where there are none.
pub fn given_or_here(specs: Vec<String>) -> (r: Vec<String>)
    ensures
        if specs@.len() == 0 {
            texts(r@) == seq!["."@]
        } else {
            r@ == specs@
        },
{
    if specs.len() == 0 {
        let r = vec![".".to_owned()];
        proof {
            assert(texts(r@) =~= seq!["."@]);
        }
        r
    } else {
        specs
    }
}

// ── Expansion ───────────────────────────────────────────────────────────────

/// A path to diagnose, with what is known of it: what stands there, for a directory
/// its ignore file, and for a directory or a glob what a walk came upon.
#[derive(Debug)]
pub struct DoctorPath {
    /// The path or glob.
    pub spec: String,
    /// Whether it is absolute.
    pub is_absolute: bool,
    /// What stands there, or why that cannot be told.
    pub stat: Result<EntryKind, String>,
    /// The text of the directory's ignore file.
    pub ignore: Option<String>,
    /// What a walk came upon.
    pub entries: Vec<WalkEntry>,
}

/// Where the walk for a glob begins, and the glob relative to that: an absolute glob is
/// split behind the last `/` before its first glob character, a relative one begins here.
pub open spec fn glob_root(spec: Seq<char>, is_absolute: bool) -> (Seq<char>, Seq<char>) {
    if is_absolute {
        let k = behind_slash(spec.take(first_meta(spec) as int)) as int;
        (spec.take(k), spec.skip(k))
    } else {
        ("."@, spec)
    }
}

/// Where the walk for a glob begins, and the glob relative to that.
pub fn split_glob_root(spec: &str, is_absolute: bool) -> (r: (String, String))
    ensures
        (r.0@, r.1@) == glob_root(spec@, is_absolute),
{
    if is_absolute {
        let v = chars_of(spec);
        let anchor = chars_of(glob_anchor(spec).as_str());
        let k: usize = find_behind_slash(&anchor, anchor.len());
        proof {
            assert(anchor@.take(anchor@.len() as int) =~= anchor@);
            lemma_behind_slash(anchor@);
            crate::cmd::copy::lemma_first_meta(spec@);
            assert(v@.subrange(0, k as int) =~= spec@.take(k as int));
            assert(v@.subrange(k as int, v@.len() as int) =~= spec@.skip(k as int));
        }
        (string_of(&v, 0, k), string_of(&v, k, v.len()))
    } else {
        (".".to_owned(), spec.to_owned())
    }
}

/// The entry is a file to look at: one that the glob matches where there is one, outside
/// of the directories that are skipped, not binary and not ignored.
pub open spec fn is_wanted(e: WalkEntry, glob: Option<Seq<char>>, ignore: Seq<Seq<char>>) -> bool {
    match e {
        WalkEntry::Found { kind, rel, path } => {
            &&& kind == EntryKind::File
            &&& glob matches Some(g) ==> glob_match(g, rel@)
            &&& !is_skipped(rel@)
            &&& !has_binary_extension(path@)
            &&& !is_ignored(ignore, rel@)
        },
        WalkEntry::Failed { .. } => false,
    }
}

/// The paths of the files to look at.
pub open spec fn wanted(
    entries: Seq<WalkEntry>,
    glob: Option<Seq<char>>,
    ignore: Seq<Seq<char>>,
) -> Seq<Seq<char>>
    decreases entries.len(),
{
    if entries.len() == 0 {
        seq![]
    } else {
        let rest = wanted(entries.drop_last(), glob, ignore);
        if is_wanted(entries.last(), glob, ignore) {
            rest.push(entries.last()->path@)
        } else {
            rest
        }
    }
}

/// What a walk comes to: the files to look at, or the message of the error; and the
/// warnings.
pub open spec fn walked(
    entries: Seq<WalkEntry>,
    glob: Option<Seq<char>>,
    ignore: Seq<Seq<char>>,
    on_error: OnError,
) -> (Result<Seq<Seq<char>>, Seq<char>>, Seq<Seq<char>>) {
    match on_error {
        OnError::Fail => match first_access_error(entries, 0) {
            Some(m) => (Err("doctor: walk error: "@ + m), seq![]),
            None => (Ok(wanted(entries, glob, ignore)), seq![]),
        },
        OnError::Warn => (Ok(wanted(entries, glob, ignore)), access_warnings(entries, "doctor"@)),
    }
}

/// What a path stands for: the paths of files, or the message of the error; and the
/// warnings on the way. `single` where it is the only path.
pub open spec fn expand_spec(p: DoctorPath, single: bool, on_error: OnError) -> (
    Result<Seq<Seq<char>>, Seq<char>>,
    Seq<Seq<char>>,
) {
    if glob_like(p.spec@) {
        let g = glob_root(p.spec@, p.is_absolute).1;
        match glob_error(g) {
            Some(e) => (
                Err("doctor: invalid glob "@ + str_debug(p.spec@) + ": "@ + e),
                seq![],
            ),
            None => walked(p.entries@, Some(g), seq![], on_error),
        }
    } else {
        match p.stat {
            Err(e) => {
                let m = "doctor: cannot stat "@ + p.spec@ + ": "@ + e@;
                if on_error == OnError::Fail || single {
                    (Err(m), seq![])
                } else {
                    (Ok(seq![]), seq![m])
                }
            },
            Ok(EntryKind::File) => (
                Ok(
                    if has_binary_extension(p.spec@) {
                        seq![]
                    } else {
                        seq![p.spec@]
                    },
                ),
                seq![],
            ),
            Ok(EntryKind::Directory) => walked(
                p.entries@,
                None,
                globs_of(opt_string(p.ignore)),
                on_error,
            ),
            Ok(EntryKind::Other) => (Ok(seq![]), seq![]),
        }
    }
}

/// What the first `n` paths stand for, and the warnings on the way.
pub open spec fn expansion(specs: Seq<DoctorPath>, on_error: OnError, n: int) -> (
    Result<Seq<Seq<char>>, Seq<char>>,
    Seq<Seq<char>>,
)
    decreases n,
{
    if n <= 0 {
        (Ok(seq![]), seq![])
    } else {
        let (r, w) = expansion(specs, on_error, n - 1);
        match r {
            Err(m) => (Err(m), w),
            Ok(paths) => {
                let (r1, w1) = expand_spec(specs[n - 1], specs.len() == 1, on_error);
                (
                    match r1 {
                        Err(m) => Err(m),
                        Ok(more) => Ok(paths + more),
                    },
                    w + w1,
                )
            },
        }
    }
}

/// What paths stand for, and the warnings on the way. That nothing is left where there
/// were warnings is an error.
pub open spec fn expansion_of(specs: Seq<DoctorPath>, on_error: OnError) -> (
    Result<Seq<Seq<char>>, Seq<char>>,
    Seq<Seq<char>>,
) {
    let (r, w) = expansion(specs, on_error, specs.len() as int);
    match r {
        Ok(paths) => if paths.len() == 0 && w.len() > 0 {
            (
                Err(
                    "doctor: no files to scan; all specified paths were missing or inaccessible"@,
                ),
                w,
            )
        } else {
            (Ok(paths), w)
        },
        Err(m) => (Err(m), w),
    }
}

/// Appends the paths of the files to look at.
fn collect_wanted(
    entries: &Vec<WalkEntry>,
    glob: Option<&globset::GlobSet>,
    ignore: &Vec<String>,
    paths: &mut Vec<String>,
)
    ensures
        texts(final(paths)@) == texts(old(paths)@) + wanted(
            entries@,
            match glob {
                Some(m) => Some(glob_pattern(*m)),
                None => None,
            },
            texts(ignore@),
        ),
{
    let ghost g = match glob {
        Some(m) => Some(glob_pattern(*m)),
        None => None,
    };
    let ghost ig = texts(ignore@);
    let ghost p0 = texts(paths@);
    let ms = compile_all(ignore);
    let mut i: usize = 0;
    proof {
        assert(entries@.take(0) =~= seq![]);
        assert(p0 + wanted(entries@.take(0), g, ig) =~= p0);
    }
    while i < entries.len()
        invariant
            i <= entries@.len(),
            g == (match glob {
                Some(m) => Some(glob_pattern(*m)),
                None => None,
            }),
            ig == texts(ignore@),
            forall|j: int|
                0 <= j < ms@.len() ==> ig.contains(glob_pattern(#[trigger] ms@[j])) && glob_error(
                    glob_pattern(ms@[j]),
                ) is None,
            forall|k: int|
                0 <= k < ignore@.len() && glob_error((#[trigger] ignore@[k])@) is None ==> exists|
                    j: int,
                |
                    0 <= j < ms@.len() && glob_pattern(#[trigger] ms@[j]) == ignore@[k]@,
            texts(paths@) == p0 + wanted(entries@.take(i as int), g, ig),
        decreases entries@.len() - i,
    {
        let ghost pv = texts(paths@);
        proof {
            assert(entries@.take(i + 1).drop_last() =~= entries@.take(i as int));
            assert(entries@.take(i + 1).last() == entries@[i as int]);
        }
        match &entries[i] {
            WalkEntry::Found { kind, rel, path } => {
                let is_file = match kind {
                    EntryKind::File => true,
                    _ => false,
                };
                let matched = match glob {
                    Some(m) => glob_matches(m, rel.as_str()),
                    None => true,
                };
                let skipped = leads_through_skipped(rel.as_str());
                let binary = is_binary_extension(path.as_str());
                let ignored = matches_any(&ms, rel.as_str());
                proof {
                    lemma_ignored(ignore@, ms@, rel@);
                }
                if is_file && matched && !skipped && !binary && !ignored {
                    paths.push(path.clone());
                    proof {
                        assert(texts(paths@) =~= pv.push(path@));
                        assert(texts(paths@) =~= p0 + wanted(entries@.take(i + 1), g, ig));
                    }
                }
            },
            WalkEntry::Failed { .. } => {},
        }
        i = i + 1;
    }
    proof {
        assert(entries@.take(i as int) =~= entries@);
    }
}

proof fn lemma_ignored(ignore: Seq<String>, ms: Seq<globset::GlobSet>, rel: Seq<char>)
    requires
        forall|j: int|
            0 <= j < ms.len() ==> texts(ignore).contains(glob_pattern(#[trigger] ms[j]))
                && glob_error(glob_pattern(ms[j])) is None,
        forall|k: int|
            0 <= k < ignore.len() && glob_error((#[trigger] ignore[k])@) is None ==> exists|j: int|
                0 <= j < ms.len() && glob_pattern(#[trigger] ms[j]) == ignore[k]@,
    ensures
        is_ignored(texts(ignore), rel) == exists|j: int|
            0 <= j < ms.len() && glob_match(glob_pattern(#[trigger] ms[j]), rel),
{
    let v = texts(ignore);
    if is_ignored(v, rel) {
        let i = choose|i: int|
            0 <= i < v.len() && glob_error(#[trigger] v[i]) is None && glob_match(v[i], rel);
        assert(v[i] == ignore[i]@);
        let j = choose|j: int| 0 <= j < ms.len() && glob_pattern(#[trigger] ms[j]) == ignore[i]@;
        assert(glob_match(glob_pattern(ms[j]), rel));
    }
    if exists|j: int| 0 <= j < ms.len() && glob_match(glob_pattern(#[trigger] ms[j]), rel) {
        let j = choose|j: int| 0 <= j < ms.len() && glob_match(glob_pattern(#[trigger] ms[j]), rel);
        let i = choose|i: int| 0 <= i < v.len() && v[i] == glob_pattern(ms[j]);
        assert(glob_error(v[i]) is None && glob_match(v[i], rel));
    }
}

/// Appends what a walk comes to.
fn take_walked(
    entries: &Vec<WalkEntry>,
    glob: Option<&globset::GlobSet>,
    ignore: &Vec<String>,
    on_error: OnError,
    paths: &mut Vec<String>,
    warnings: &mut Vec<String>,
) -> (r: Result<(), String>)
    ensures
        ({
            let g = match glob {
                Some(m) => Some(glob_pattern(*m)),
                None => None,
            };
            let (r1, w1) = walked(entries@, g, texts(ignore@), on_error);
            &&& texts(final(warnings)@) == texts(old(warnings)@) + w1
            &&& match r {
                Ok(_) => r1 is Ok && texts(final(paths)@) == texts(old(paths)@) + r1->Ok_0,
                Err(m) => r1 is Err && r1->Err_0 == m@,
            }
        }),
{
    let ghost w0 = texts(warnings@);
    proof {
        assert(w0 + Seq::<Seq<char>>::empty() =~= w0);
    }
    match on_error {
        OnError::Fail => {
            match find_access_error(entries) {
                Some(e) => {
                    let mut m = "doctor: walk error: ".to_owned();
                    m.push_str(e.as_str());
                    return Err(m);
                },
                None => {},
            }
        },
        OnError::Warn => {
            push_access_warnings(entries, "doctor", warnings);
        },
    }
    collect_wanted(entries, glob, ignore, paths);
    Ok(())
}

/// Expands one path.
fn expand_one(
    p: &DoctorPath,
    single: bool,
    on_error: OnError,
    paths: &mut Vec<String>,
    warnings: &mut Vec<String>,
) -> (r: Result<(), String>)
    ensures
        ({
            let (r1, w1) = expand_spec(*p, single, on_error);
            &&& texts(final(warnings)@) == texts(old(warnings)@) + w1
            &&& match r {
                Ok(_) => r1 is Ok && texts(final(paths)@) == texts(old(paths)@) + r1->Ok_0,
                Err(m) => r1 is Err && r1->Err_0 == m@,
            }
        }),
{
    let ghost w0 = texts(warnings@);
    let ghost p0 = texts(paths@);
    proof {
        assert(w0 + Seq::<Seq<char>>::empty() =~= w0);
        assert(p0 + Seq::<Seq<char>>::empty() =~= p0);
    }
    if is_glob(p.spec.as_str()) {
        let (_, g) = split_glob_root(p.spec.as_str(), p.is_absolute);
        let m = match compile_glob(g.as_str()) {
            Ok(m) => m,
            Err(e) => {
                let mut m = "doctor: invalid glob ".to_owned();
                m.push_str(format_str_debug(p.spec.as_str()).as_str());
                m.push_str(": ");
                m.push_str(e.as_str());
                return Err(m);
            },
        };
        let none: Vec<String> = Vec::new();
        proof {
            assert(texts(none@) =~= seq![]);
        }
        return take_walked(&p.entries, Some(&m), &none, on_error, paths, warnings);
    }
    match &p.stat {
        Err(e) => {
            let mut m = "doctor: cannot stat ".to_owned();
            m.push_str(p.spec.as_str());
            m.push_str(": ");
            m.push_str(e.as_str());
            if single || matches!(on_error, OnError::Fail) {
                return Err(m);
            }
            let ghost shown = m@;
            warnings.push(m);
            proof {
                assert(texts(warnings@) =~= w0 + seq![shown]);
            }
            Ok(())
        },
        Ok(EntryKind::File) => {
            if !is_binary_extension(p.spec.as_str()) {
                paths.push(p.spec.clone());
                proof {
                    assert(texts(paths@) =~= p0 + seq![p.spec@]);
                }
            }
            Ok(())
        },
        Ok(EntryKind::Directory) => {
            let ignore = match &p.ignore {
                Some(text) => load_gitignore(text.as_str()),
                None => Vec::new(),
            };
            proof {
                if p.ignore is None {
                    assert(texts(ignore@) =~= seq![]);
                }
            }
            take_walked(&p.entries, None, &ignore, on_error, paths, warnings)
        },
        Ok(EntryKind::Other) => Ok(()),
    }
}

/// Expand paths and globs into the paths of files, with a policy for what could not be
/// read. A path may occur more than once.
pub fn expand_paths_with_policy(
    specs: &Vec<DoctorPath>,
    on_error: OnError,
    warnings: &mut Vec<String>,
) -> (r: Result<Vec<String>, String>)
    ensures
        ({
            let (r1, w1) = expansion_of(specs@, on_error);
            &&& texts(final(warnings)@) == texts(old(warnings)@) + w1
            &&& match r {
                Ok(paths) => r1 == Ok::<Seq<Seq<char>>, Seq<char>>(texts(paths@)),
                Err(m) => r1 == Err::<Seq<Seq<char>>, Seq<char>>(m@),
            }
        }),
{
    let ghost w0 = texts(warnings@);
    let before: usize = warnings.len();
    let single = specs.len() == 1;
    let mut paths: Vec<String> = Vec::new();
    let mut i: usize = 0;
    proof {
        assert(texts(paths@) =~= seq![]);
        assert(w0 + Seq::<Seq<char>>::empty() =~= w0);
        assert(w0.len() == before);
    }
    while i < specs.len()
        invariant
            i <= specs@.len(),
            single == (specs@.len() == 1),
            w0 == texts(old(warnings)@),
            w0.len() == before,
            expansion(specs@, on_error, i as int).0 == Ok::<Seq<Seq<char>>, Seq<char>>(
                texts(paths@),
            ),
            texts(warnings@) == w0 + expansion(specs@, on_error, i as int).1,
        decreases specs@.len() - i,
    {
        let ghost w = expansion(specs@, on_error, i as int).1;
        let ghost w1 = expand_spec(specs@[i as int], single, on_error).1;
        let r = expand_one(&specs[i], single, on_error, &mut paths, warnings);
        proof {
            assert(w0 + w + w1 =~= w0 + (w + w1));
        }
        match r {
            Ok(_) => {},
            Err(m) => {
                proof {
                    assert(expansion(specs@, on_error, i + 1).0 == Err::<
                        Seq<Seq<char>>,
                        Seq<char>,
                    >(m@));
                    assert(expansion(specs@, on_error, i + 1).1 == w + w1);
                    lemma_expansion_stops(specs@, on_error, i + 1, specs@.len() as int);
                }
                return Err(m);
            },
        }
        i = i + 1;
    }
    proof {
        assert(texts(paths@).len() == paths@.len());
        assert(texts(warnings@).len() == warnings@.len());
    }
    if paths.len() == 0 && warnings.len() > before {
        return Err(
            "doctor: no files to scan; all specified paths were missing or inaccessible".to_owned(),
        );
    }
    Ok(paths)
}

proof fn lemma_expansion_stops(specs: Seq<DoctorPath>, on_error: OnError, i: int, n: int)
    requires
        0 <= i <= n,
        expansion(specs, on_error, i).0 is Err,
    ensures
        expansion(specs, on_error, n) == expansion(specs, on_error, i),
    decreases n - i,
{
    if i < n {
        lemma_expansion_stops(specs, on_error, i, n - 1);
    }
}

/// Expand paths and globs into the paths of files; what could not be read is an error.
pub fn expand_paths(specs: &Vec<DoctorPath>) -> (r: Result<Vec<String>, String>)
    ensures
        match r {
            Ok(paths) => expansion_of(specs@, OnError::Fail).0 == Ok::<Seq<Seq<char>>, Seq<char>>(
                texts(paths@),
            ),
            Err(m) => expansion_of(specs@, OnError::Fail).0 == Err::<Seq<Seq<char>>, Seq<char>>(
                m@,
            ),
        },
{
    let mut warnings: Vec<String> = Vec::new();
    expand_paths_with_policy(specs, OnError::Fail, &mut warnings)
}

// ── Each file once ──────────────────────────────────────────────────────────

/// The first `n` paths, without those whose key an earlier one has.
pub open spec fn unique_to(paths: Seq<Seq<char>>, keys: Seq<Seq<char>>, n: int) -> Seq<Seq<char>>
    decreases n,
{
    if n <= 0 {
        seq![]
    } else if keys.take(n - 1).contains(keys[n - 1]) {
        unique_to(paths, keys, n - 1)
    } else {
        unique_to(paths, keys, n - 1).push(paths[n - 1])
    }
}

/// Keep the first path of each file. `keys` tells which paths lead to the same file.
pub fn push_unique(paths: &Vec<String>, keys: &Vec<String>) -> (r: Vec<String>)
    requires
        paths@.len() == keys@.len(),
    ensures
        texts(r@) == unique_to(texts(paths@), texts(keys@), paths@.len() as int),
{
    let ghost kv = texts(keys@);
    let ghost pv = texts(paths@);
    let mut out: Vec<String> = Vec::new();
    let mut i: usize = 0;
    proof {
        assert(texts(out@) =~= seq![]);
    }
    while i < paths.len()
        invariant
            i <= paths@.len(),
            paths@.len() == keys@.len(),
            kv == texts(keys@),
            pv == texts(paths@),
            texts(out@) == unique_to(pv, kv, i as int),
        decreases paths@.len() - i,
    {
        let mut seen = false;
        let mut k: usize = 0;
        while k < i && !seen
            invariant
                k <= i < keys@.len(),
                kv == texts(keys@),
                seen ==> kv.take(i as int).contains(kv[i as int]),
                !seen ==> forall|j: int| 0 <= j < k ==> #[trigger] kv[j] != kv[i as int],
            decreases i - k + (if seen {
                0int
            } else {
                1
            }),
        {
            if same(keys[k].as_str(), keys[i].as_str()) {
                proof {
                    assert(kv.take(i as int)[k as int] == kv[i as int]);
                }
                seen = true;
            } else {
                k = k + 1;
            }
        }
        proof {
            if !seen {
                assert forall|j: int| 0 <= j < i implies kv.take(i as int)[j] != kv[i as int] by {
                    assert(kv.take(i as int)[j] == kv[j]);
                }
                assert(!kv.take(i as int).contains(kv[i as int]));
            }
        }
        if !seen {
            let ghost had = texts(out@);
            out.push(paths[i].clone());
            proof {
                assert(texts(out@) =~= had.push(pv[i as int]));
            }
        }
        i = i + 1;
    }
    out
}

/// Each file is kept once: no key is kept twice, and every key is kept.
pub proof fn law_each_file_is_kept_once(keys: Seq<Seq<char>>, n: int)
    requires
        0 <= n <= keys.len(),
    ensures
        unique_to(keys, keys, n).no_duplicates(),
        forall|k: Seq<char>| #[trigger]
            unique_to(keys, keys, n).contains(k) <==> keys.take(n).contains(k),
    decreases n,
{
    if n > 0 {
        law_each_file_is_kept_once(keys, n - 1);
        let u = unique_to(keys, keys, n - 1);
        let v = unique_to(keys, keys, n);
        let last = keys[n - 1];
        let before = keys.take(n - 1);
        let now = keys.take(n);
        assert(now =~= before.push(last));
        assert(now[n - 1] == last);
        assert forall|k: Seq<char>| #[trigger] v.contains(k) <==> now.contains(k) by {
            if now.contains(k) {
                let i = choose|i: int| 0 <= i < now.len() && now[i] == k;
                if i < n - 1 {
                    assert(before[i] == k);
                    assert(u.contains(k));
                    let j = choose|j: int| 0 <= j < u.len() && u[j] == k;
                    assert(v[j] == k);
                } else if before.contains(last) {
                    assert(u.contains(last));
                } else {
                    assert(v[u.len() as int] == last);
                }
            }
            if v.contains(k) {
                let j = choose|j: int| 0 <= j < v.len() && v[j] == k;
                if j < u.len() {
                    assert(u[j] == k);
                    assert(u.contains(k));
                    let i = choose|i: int| 0 <= i < before.len() && before[i] == k;
                    assert(now[i] == k);
                } else {
                    assert(k == last);
                }
            }
        }
        assert(v.no_duplicates()) by {
            if !before.contains(last) {
                assert(!u.contains(last));
            }
        }
    } else {
        assert(keys.take(n) =~= seq![]);
    }
}

/// The files to look at are those of the walk that are wanted, in order: files that the glob
/// matches where there is one, outside of the directories that are passed over, not binary and
/// not ignored.
pub proof fn law_wanted_files_are_looked_at(
    entries: Seq<WalkEntry>,
    glob: Option<Seq<char>>,
    ignore: Seq<Seq<char>>,
)
    ensures
        wanted(entries, glob, ignore) == entries.filter(
            |e: WalkEntry|
                e is Found && e->kind == EntryKind::File && (glob is Some ==> glob_match(
                    glob->0,
                    e->rel@,
                )) && !is_skipped(e->rel@) && !has_binary_extension(e->path@) && !is_ignored(
                    ignore,
                    e->rel@,
                ),
        ).map_values(|e: WalkEntry| e->path@),
    decreases entries.len(),
{
    reveal(Seq::filter);
    let pred = |e: WalkEntry|
        e is Found && e->kind == EntryKind::File && (glob is Some ==> glob_match(
            glob->0,
            e->rel@,
        )) && !is_skipped(e->rel@) && !has_binary_extension(e->path@) && !is_ignored(
            ignore,
            e->rel@,
        );
    let path_of = |e: WalkEntry| e->path@;
    if entries.len() == 0 {
        assert(entries.filter(pred).map_values(path_of) =~= seq![]);
    } else {
        law_wanted_files_are_looked_at(entries.drop_last(), glob, ignore);
        let e = entries.last();
        let rest = entries.drop_last().filter(pred);
        assert(is_wanted(e, glob, ignore) == pred(e));
        assert(entries.filter(pred).map_values(path_of) =~= (if pred(e) {
            rest.map_values(path_of).push(path_of(e))
        } else {
            rest.map_values(path_of)
        }));
    }
}

/// A path is passed over where, and only where, one of the directories that it leads through,
/// at any depth, is `.git`, `node_modules` or `target`; the name of the file itself does not
/// count.
pub proof fn law_skipped_paths_lead_through_a_skipped_directory(rel: Seq<char>)
    ensures
        is_skipped(rel) <==> exists|a: Seq<char>, d: Seq<char>, b: Seq<char>|
            rel == #[trigger] (a + d.push('/') + b) && (a.len() == 0 || a.last() == '/')
                && !d.contains('/') && (d == ".git"@ || d == "node_modules"@ || d == "target"@),
    decreases rel.len(),
{
    law_split_loses_nothing(rel, '/');
    let k = first_pos(rel, '/') as int;
    let none = Seq::<char>::empty();
    if k < rel.len() {
        let (d, rest) = (rel.take(k), rel.skip(k + 1));
        assert(split_at_first(rel, '/') == Some((d, rest)));
        law_skipped_paths_lead_through_a_skipped_directory(rest);
        assert(rel =~= d.push('/') + rest);
        if is_skip_dir(d) {
            assert(rel =~= none + d.push('/') + rest);
        } else if is_skipped(rest) {
            let (a, e, b) = choose|a: Seq<char>, e: Seq<char>, b: Seq<char>|
                rest == #[trigger] (a + e.push('/') + b) && (a.len() == 0 || a.last() == '/')
                    && !e.contains('/') && (e == ".git"@ || e == "node_modules"@ || e
                    == "target"@);
            let c = d.push('/') + a;
            assert(rel =~= c + e.push('/') + b);
            assert(c.last() == '/');
        }
        if exists|a: Seq<char>, e: Seq<char>, b: Seq<char>|
            rel == #[trigger] (a + e.push('/') + b) && (a.len() == 0 || a.last() == '/')
                && !e.contains('/') && (e == ".git"@ || e == "node_modules"@ || e == "target"@) {
            let (a, e, b) = choose|a: Seq<char>, e: Seq<char>, b: Seq<char>|
                rel == #[trigger] (a + e.push('/') + b) && (a.len() == 0 || a.last() == '/')
                    && !e.contains('/') && (e == ".git"@ || e == "node_modules"@ || e
                    == "target"@);
            if a.len() == 0 {
                law_split_finds_the_parts(e, '/', b);
                assert(rel =~= e + seq!['/'] + b);
                assert(d == e);
            } else {
                // The first `/` stands in `a`, so that what it parts off lies before `e`.
                if a.len() <= k {
                    assert(rel[a.len() - 1] == '/');
                    assert(d[a.len() - 1] == '/');
                    assert(d.contains('/'));
                }
                let c = a.skip(k + 1);
                assert(rest =~= c + e.push('/') + b);
                if c.len() > 0 {
                    assert(c.last() == a.last());
                }
                assert(is_skipped(rest));
            }
        }
    } else {
        if exists|a: Seq<char>, e: Seq<char>, b: Seq<char>|
            rel == #[trigger] (a + e.push('/') + b) && (a.len() == 0 || a.last() == '/')
                && !e.contains('/') && (e == ".git"@ || e == "node_modules"@ || e == "target"@) {
            let (a, e, b) = choose|a: Seq<char>, e: Seq<char>, b: Seq<char>|
                rel == #[trigger] (a + e.push('/') + b) && (a.len() == 0 || a.last() == '/')
                    && !e.contains('/') && (e == ".git"@ || e == "node_modules"@ || e
                    == "target"@);
            assert(rel[a.len() as int + e.len()] == '/');
            assert(rel.contains('/'));
        }
    }
}

/// A line of an ignore file stands for itself at the top and at any depth, and a directory for
/// what it holds; blank lines, comments and negations stand for nothing, and whitespace around
/// a line does not count.
pub proof fn law_ignore_lines_hold_at_any_depth(line: Seq<char>, s: Seq<char>)
    requires
        trimmed(line) == s,
    ensures
        s.len() == 0 || s[0] == '#' || s[0] == '!' ==> line_globs(line).len() == 0,
        s.len() > 0 && s[0] != '#' && s[0] != '!' && s.last() != '/' ==> line_globs(line) == seq![
            s,
            "**/"@ + s,
        ],
        s.len() > 0 && s[0] != '#' && s[0] != '!' && s.last() == '/' ==> line_globs(line) == seq![
            s + "**"@,
            "**/"@ + s + "**"@,
        ],
{
    if s.len() > 0 && s.last() == '/' {
        reveal_strlit("**");
        reveal_strlit("/**");
        assert(s.drop_last() + "/**"@ =~= s + "**"@);
        assert("**/"@ + (s.drop_last() + "/**"@) =~= "**/"@ + s + "**"@);
    }
}

/// The globs of an ignore file are those of its lines, and no others.
pub proof fn law_every_ignore_line_counts(lines: Seq<Seq<char>>, n: int, glob: Seq<char>)
    requires
        0 <= n <= lines.len(),
    ensures
        ignore_globs(lines, n).contains(glob) <==> exists|i: int|
            0 <= i < n && line_globs(#[trigger] lines[i]).contains(glob),
    decreases n,
{
    if n > 0 {
        law_every_ignore_line_counts(lines, n - 1, glob);
        let (a, b) = (ignore_globs(lines, n - 1), line_globs(lines[n - 1]));
        let all = ignore_globs(lines, n);
        assert(all == a + b);
        if a.contains(glob) {
            let k = choose|k: int| 0 <= k < a.len() && a[k] == glob;
            assert(all[k] == glob);
        }
        if b.contains(glob) {
            let k = choose|k: int| 0 <= k < b.len() && b[k] == glob;
            assert(all[a.len() + k] == glob);
        }
        if all.contains(glob) {
            let k = choose|k: int| 0 <= k < all.len() && all[k] == glob;
            if k < a.len() {
                assert(a[k] == glob);
            } else {
                assert(b[k - a.len()] == glob);
            }
        }
        if exists|i: int| 0 <= i < n && line_globs(#[trigger] lines[i]).contains(glob) {
            let i = choose|i: int| 0 <= i < n && line_globs(#[trigger] lines[i]).contains(glob);
            assert(i < n - 1 || b.contains(glob));
        }
    }
}

/// A file is taken to be binary by its extension alone, whatever its case and wherever it is.
pub proof fn law_binary_files_are_told_by_extension(
    dir: Seq<char>,
    stem: Seq<char>,
    ext: Seq<char>,
    other: Seq<char>,
)
    requires
        !stem.contains('/'),
        !ext.contains('/'),
        !ext.contains('.'),
        stem.len() > 0,
        ext.len() > 0,
        !other.contains('/'),
        !other.contains('.'),
        other.len() > 0,
        lower_text(other) == lower_text(ext),
    ensures
        has_binary_extension(dir.push('/') + (stem.push('.') + ext)) <==> binary_extensions().contains(
            lower_text(ext),
        ),
        has_binary_extension(dir.push('/') + (stem.push('.') + other)) == has_binary_extension(
            dir.push('/') + (stem.push('.') + ext),
        ),
        !has_binary_extension(dir.push('/') + ext),
{
    law_the_extension_stands_behind_the_last_dot(dir, stem, ext);
    law_the_extension_stands_behind_the_last_dot(dir, stem, other);
}

/// The walk for an absolute glob begins in a directory that is named in full, and the glob goes
/// on from there: the two make up what was given. A relative glob is taken as it is from here.
pub proof fn law_a_glob_is_split_where_it_begins(spec: Seq<char>)
    ensures
        glob_root(spec, true).0 + glob_root(spec, true).1 == spec,
        !glob_like(glob_root(spec, true).0),
        glob_root(spec, true).0.len() == 0 || glob_root(spec, true).0.last() == '/',
        glob_root(spec, false) == ("."@, spec),
{
    lemma_first_meta(spec);
    law_globs_hold_glob_characters(spec);
    let front = spec.take(first_meta(spec) as int);
    lemma_behind_slash(front);
    lemma_behind_slash_ends(front);
    let k = behind_slash(front) as int;
    assert(spec.take(k) =~= front.take(k));
    assert(spec.take(k) + spec.skip(k) =~= spec);
    assert forall|i: int| 0 <= i < k implies !crate::cmd::copy::is_meta(
        #[trigger] spec.take(k)[i],
    ) by {
        assert(spec.take(k)[i] == front[i]);
        if crate::cmd::copy::is_meta(front[i]) {
            assert(glob_like(front));
        }
    }
}

proof fn lemma_behind_slash_ends(s: Seq<char>)
    ensures
        behind_slash(s) <= s.len(),
        behind_slash(s) > 0 ==> s[behind_slash(s) - 1] == '/',
    decreases s.len(),
{
    if s.len() > 0 && s.last() != '/' {
        lemma_behind_slash_ends(s.drop_last());
    }
}

/// Of paths that lead to the same file the first is kept, and the paths kept stay in order.
pub proof fn law_the_first_path_of_each_file_is_kept(
    paths: Seq<Seq<char>>,
    keys: Seq<Seq<char>>,
    n: int,
)
    requires
        0 <= n <= keys.len(),
        paths.len() == keys.len(),
    ensures
        unique_to(paths, keys, n) == Seq::new(n as nat, |i: int| i).filter(
            |i: int| forall|j: int| 0 <= j < i ==> #[trigger] keys[j] != keys[i],
        ).map_values(|i: int| paths[i]),
    decreases n,
{
    reveal(Seq::filter);
    let all = Seq::new(n as nat, |i: int| i);
    let is_first = |i: int| forall|j: int| 0 <= j < i ==> #[trigger] keys[j] != keys[i];
    let path_at = |i: int| paths[i];
    if n == 0 {
        assert(all.filter(is_first).map_values(path_at) =~= seq![]);
    } else {
        law_the_first_path_of_each_file_is_kept(paths, keys, n - 1);
        assert(all.drop_last() =~= Seq::new((n - 1) as nat, |i: int| i));
        assert(all.last() == n - 1);
        assert(is_first(n - 1) == !keys.take(n - 1).contains(keys[n - 1])) by {
            if keys.take(n - 1).contains(keys[n - 1]) {
                let front = keys.take(n - 1);
                let j = choose|j: int| 0 <= j < front.len() && #[trigger] front[j] == keys[n - 1];
                assert(keys[j] == keys[n - 1]);
            } else {
                assert forall|j: int| 0 <= j < n - 1 implies #[trigger] keys[j] != keys[n - 1] by {
                    assert(keys.take(n - 1)[j] == keys[j]);
                }
            }
        }
        let rest = all.drop_last().filter(is_first);
        assert(all.filter(is_first).map_values(path_at) =~= (if is_first(n - 1) {
            rest.map_values(path_at).push(paths[n - 1])
        } else {
            rest.map_values(path_at)
        }));
    }
}

/// A file that is named is looked at unless it is binary, whatever ignore files say; a
/// directory, or a glob, stands for the wanted files of its walk, and an ignore file counts
/// for the directory alone; anything else stands for nothing.
pub proof fn law_paths_to_look_at(p: DoctorPath, single: bool)
    ensures
        ({
            let (r, w) = expand_spec(p, single, OnError::Warn);
            &&& !glob_like(p.spec@) && p.stat == Ok::<EntryKind, String>(EntryKind::File) ==> r
                == Ok::<Seq<Seq<char>>, Seq<char>>(
                if has_binary_extension(p.spec@) {
                    seq![]
                } else {
                    seq![p.spec@]
                },
            ) && w.len() == 0
            &&& !glob_like(p.spec@) && p.stat == Ok::<EntryKind, String>(EntryKind::Directory)
                ==> r == Ok::<Seq<Seq<char>>, Seq<char>>(
                wanted(p.entries@, None, globs_of(opt_string(p.ignore))),
            )
            &&& glob_like(p.spec@) && glob_error(glob_root(p.spec@, p.is_absolute).1) is None ==> r
                == Ok::<Seq<Seq<char>>, Seq<char>>(
                wanted(p.entries@, Some(glob_root(p.spec@, p.is_absolute).1), seq![]),
            )
            &&& glob_like(p.spec@) && glob_error(glob_root(p.spec@, p.is_absolute).1) is Some ==> r
                is Err
            &&& !glob_like(p.spec@) && p.stat is Err ==> (r is Err <==> single) && (!single ==> r
                == Ok::<Seq<Seq<char>>, Seq<char>>(seq![]) && w.len() == 1)
            &&& !glob_like(p.spec@) && p.stat is Err ==> expand_spec(
                p,
                single,
                OnError::Fail,
            ).0 is Err
        }),
{
}

/// Paths stand for the files of each of them, and for no others.
pub proof fn law_every_path_is_expanded(
    specs: Seq<DoctorPath>,
    on_error: OnError,
    n: int,
    file: Seq<char>,
)
    requires
        0 <= n <= specs.len(),
    ensures
        expansion(specs, on_error, n).0 matches Ok(paths) ==> {
            &&& forall|i: int|
                0 <= i < n ==> expand_spec(#[trigger] specs[i], specs.len() == 1, on_error).0 is Ok
            &&& paths.contains(file) <==> exists|i: int|
                0 <= i < n && expand_spec(
                    #[trigger] specs[i],
                    specs.len() == 1,
                    on_error,
                ).0->Ok_0.contains(file)
        },
        expansion(specs, on_error, n).0 is Err ==> exists|i: int|
            0 <= i < n && expand_spec(#[trigger] specs[i], specs.len() == 1, on_error).0 is Err,
    decreases n,
{
    if n > 0 {
        law_every_path_is_expanded(specs, on_error, n - 1, file);
        let one = expand_spec(specs[n - 1], specs.len() == 1, on_error).0;
        match expansion(specs, on_error, n - 1).0 {
            Ok(front) => {
                match one {
                    Ok(more) => {
                        let all = front + more;
                        if front.contains(file) {
                            let k = choose|k: int| 0 <= k < front.len() && front[k] == file;
                            assert(all[k] == file);
                        }
                        if more.contains(file) {
                            let k = choose|k: int| 0 <= k < more.len() && more[k] == file;
                            assert(all[front.len() + k] == file);
                        }
                        if all.contains(file) {
                            let k = choose|k: int| 0 <= k < all.len() && all[k] == file;
                            if k < front.len() {
                                assert(front[k] == file);
                            } else {
                                assert(more[k - front.len()] == file);
                            }
                        }
                    },
                    Err(_) => {
                        assert(expand_spec(specs[n - 1], specs.len() == 1, on_error).0 is Err);
                    },
                }
            },
            Err(_) => {
                let i = choose|i: int|
                    0 <= i < n - 1 && expand_spec(
                        #[trigger] specs[i],
                        specs.len() == 1,
                        on_error,
                    ).0 is Err;
                assert(expand_spec(specs[i], specs.len() == 1, on_error).0 is Err);
            },
        }
    }
}

} // verus!
