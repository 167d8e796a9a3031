//! Pattern search across files.

use vstd::prelude::*;
use vstd::string::*;
use vstd::utf8::*;

use crate::cmd::copy::{glob_like, is_glob, OnError};
use crate::cmd::head::content_text;
use crate::glob::{compile_glob, glob_error, glob_pattern};
use crate::lines::{joined, lemma_joined_push, text_lines, texts};
use crate::num::{dec, push_dec};
use crate::pattern::{
    compile_text, escape, escaped_pattern, is_literal_pattern, is_match, text_match, text_pattern,
    text_pattern_error,
};
use crate::source::{file_lines, lacks_nul, read_lines};
use crate::text::{
    chars_of, contains_text, format_str_debug, has_prefix, opt_text, outcome, str_debug, string_of,
    strip_prefix,
};
use crate::walk::{
    access_warnings, collect_selected, find_access_error, first_access_error, push_access_warnings,
    selected, WalkEntry,
};

verus! {

/// What a search came to.
#[derive(Debug, Clone, Copy, PartialEq, Eq, Structural)]
pub struct FindResult {
    /// The number of matching lines in all files searched.
    pub total_matches: usize,
}

/// What is asked of a search.
#[derive(Debug, Clone, Copy)]
pub struct FindOptions {
    /// Take the patterns as literal text.
    pub fixed_string: bool,
    /// Let `^` and `$` match at line feeds.
    pub multiline: bool,
    /// Ignore case.
    pub ignore_case: bool,
    /// Ask that every pattern match a line, not just one.
    pub all_match: bool,
    /// Look for the lines that do not match.
    pub invert: bool,
    /// The number of lines to show before each match.
    pub lines_before: usize,
    /// The number of lines to show after each match.
    pub lines_after: usize,
    /// Show the number of matching lines only.
    pub count_only: bool,
    /// Show the numbers of matching lines.
    pub numbers: bool,
}

// ── Patterns ────────────────────────────────────────────────────────────────

/// The regular expression that a pattern stands for.
pub open spec fn effective(pattern: Seq<char>, opts: FindOptions) -> Seq<char> {
    (match (opts.ignore_case, opts.multiline) {
        (true, true) => "(?im)"@,
        (true, false) => "(?i)"@,
        (false, true) => "(?m)"@,
        (false, false) => ""@,
    }) + (if opts.fixed_string {
        escaped_pattern(pattern)
    } else {
        pattern
    })
}

/// The message of the first pattern, from position `i` on, that is invalid.
pub open spec fn pattern_failure(
    patterns: Seq<Seq<char>>,
    opts: FindOptions,
    i: int,
) -> Option<Seq<char>>
    decreases patterns.len() - i,
{
    if i < 0 || i >= patterns.len() {
        None
    } else {
        match text_pattern_error(effective(patterns[i], opts)) {
            Some(e) => Some("find: invalid pattern "@ + str_debug(patterns[i]) + ": "@ + e),
            None => pattern_failure(patterns, opts, i + 1),
        }
    }
}

/// The patterns that compiled expressions hold.
pub open spec fn patterns_of(v: Seq<regex::Regex>) -> Seq<Seq<char>> {
    v.map_values(|re: regex::Regex| text_pattern(re))
}

/// The expressions that patterns stand for.
pub open spec fn effective_all(patterns: Seq<Seq<char>>, opts: FindOptions) -> Seq<Seq<char>> {
    patterns.map_values(|p: Seq<char>| effective(p, opts))
}

/// Compile one expression for each pattern.
pub fn build_patterns(patterns: &Vec<String>, opts: &FindOptions) -> (r: Result<
    Vec<regex::Regex>,
    String,
>)
    ensures
        match r {
            Ok(v) => pattern_failure(texts(patterns@), *opts, 0) is None && patterns_of(v@)
                == effective_all(texts(patterns@), *opts),
            Err(m) => pattern_failure(texts(patterns@), *opts, 0) == Some(m@),
        },
{
    let ghost pats = texts(patterns@);
    let mut v: Vec<regex::Regex> = Vec::new();
    let mut i: usize = 0;
    while i < patterns.len()
        invariant
            i <= patterns@.len(),
            pats == texts(patterns@),
            v@.len() == i,
            pattern_failure(pats, *opts, i as int) == pattern_failure(pats, *opts, 0),
            forall|k: int|
                0 <= k < i ==> text_pattern(#[trigger] v@[k]) == effective(pats[k], *opts),
        decreases patterns@.len() - i,
    {
        let flags = match (opts.ignore_case, opts.multiline) {
            (true, true) => "(?im)",
            (true, false) => "(?i)",
            (false, true) => "(?m)",
            (false, false) => "",
        };
        let mut p = flags.to_owned();
        if opts.fixed_string {
            p.push_str(escape(patterns[i].as_str()).as_str());
        } else {
            p.push_str(patterns[i].as_str());
        }
        proof {
            assert(p@ == effective(pats[i as int], *opts));
        }
        match compile_text(p.as_str()) {
            Ok(re) => {
                v.push(re);
            },
            Err(e) => {
                let mut m = "find: invalid pattern ".to_owned();
                m.push_str(format_str_debug(patterns[i].as_str()).as_str());
                m.push_str(": ");
                m.push_str(e.as_str());
                return Err(m);
            },
        }
        i = i + 1;
    }
    proof {
        assert(patterns_of(v@) =~= effective_all(pats, *opts));
    }
    Ok(v)
}

/// Whether a line is looked for: some pattern matches it, or every one does where
/// `all_match`; the opposite where `invert`.
pub open spec fn line_hit(patterns: Seq<Seq<char>>, line: Seq<char>, all_match: bool, invert: bool) -> bool {
    let raw = if all_match {
        forall|i: int| 0 <= i < patterns.len() ==> text_match(#[trigger] patterns[i], line)
    } else {
        exists|i: int| 0 <= i < patterns.len() && text_match(#[trigger] patterns[i], line)
    };
    raw != invert
}

/// Whether a line is looked for. A single pattern that stands for a text alone finds
/// the lines that contain the text.
pub fn line_matches(line: &str, regexes: &Vec<regex::Regex>, all_match: bool, invert: bool) -> (r: bool)
    ensures
        r == line_hit(patterns_of(regexes@), line@, all_match, invert),
        forall|literal: Seq<char>|
            regexes@.len() == 1 && #[trigger] is_literal_pattern(
                text_pattern(regexes@[0]),
                literal,
            ) ==> r == (contains_text(line@, literal) != invert),
{
    let ghost patterns = patterns_of(regexes@);
    let mut i: usize = 0;
    while i < regexes.len()
        invariant
            i <= regexes@.len(),
            patterns == patterns_of(regexes@),
            regexes@.len() == 1 && i == 1 ==> forall|literal: Seq<char>| #[trigger]
                is_literal_pattern(text_pattern(regexes@[0]), literal) ==> contains_text(
                    line@,
                    literal,
                ) == all_match,
            all_match ==> forall|k: int| 0 <= k < i ==> text_match(#[trigger] patterns[k], line@),
            !all_match ==> forall|k: int|
                0 <= k < i ==> !text_match(#[trigger] patterns[k], line@),
        decreases regexes@.len() - i,
    {
        let hit = is_match(&regexes[i], line);
        proof {
            assert(patterns[i as int] == text_pattern(regexes@[i as int]));
        }
        if hit != all_match {
            return hit != invert;
        }
        i = i + 1;
    }
    all_match != invert
}

// ── Output ──────────────────────────────────────────────────────────────────

/// The separator of a line: `-` for context, `:` for a match.
pub open spec fn separator(is_context: bool) -> char {
    if is_context {
        '-'
    } else {
        ':'
    }
}

/// One line of output.
pub open spec fn shown_line(
    prefix: Option<Seq<char>>,
    line_no: Option<nat>,
    text: Seq<char>,
    is_context: bool,
) -> Seq<char> {
    (match prefix {
        Some(f) => f.push(separator(is_context)),
        None => seq![],
    }) + (match line_no {
        Some(n) => dec(n).push(separator(is_context)),
        None => seq![],
    }) + text.push('\n')
}

fn emit_line(
    out: &mut String,
    prefix: Option<&str>,
    line_no: Option<usize>,
    text: &str,
    is_context: bool,
)
    ensures
        final(out)@ =~= old(out)@ + shown_line(
            opt_text(prefix),
            match line_no {
                Some(n) => Some(n as nat),
                None => None,
            },
            text@,
            is_context,
        ),
{
    let sep: char = if is_context {
        '-'
    } else {
        ':'
    };
    match prefix {
        Some(f) => {
            out.push_str(f);
            out.push(sep);
        },
        None => {},
    }
    match line_no {
        Some(n) => {
            push_dec(out, n as u64);
            out.push(sep);
        },
        None => {},
    }
    out.push_str(text);
    out.push('\n');
}

/// The line that shows a count.
pub open spec fn shown_count(prefix: Option<Seq<char>>, count: nat) -> Seq<char> {
    (match prefix {
        Some(f) => f + ": "@,
        None => seq![],
    }) + dec(count).push('\n')
}

fn emit_count(out: &mut String, prefix: Option<&str>, count: usize)
    ensures
        final(out)@ =~= old(out)@ + shown_count(opt_text(prefix), count as nat),
{
    match prefix {
        Some(f) => {
            out.push_str(f);
            out.push_str(": ");
        },
        None => {},
    }
    push_dec(out, count as u64);
    out.push('\n');
}

// ── Searching lines ─────────────────────────────────────────────────────────

/// The line at index `i` is shown: it is looked for, or stands close enough
/// before or after one that is.
#[verifier::opaque]
pub open spec fn is_shown(hits: Seq<bool>, i: int, before: int, after: int) -> bool {
    exists|h: int|
        0 <= h < hits.len() && #[trigger] hits[h] && h - before <= i <= h + after
}

/// What is shown of the first `n` lines: the lines looked for with their context,
/// and `--` where lines were left out in between, when context is asked for.
pub open spec fn shown(
    lines: Seq<Seq<char>>,
    hits: Seq<bool>,
    prefix: Option<Seq<char>>,
    opts: FindOptions,
    n: int,
) -> Seq<char>
    decreases n,
{
    if n <= 0 {
        seq![]
    } else {
        let i = n - 1;
        let (before, after) = (opts.lines_before as int, opts.lines_after as int);
        let above = shown(lines, hits, prefix, opts, i);
        if !is_shown(hits, i, before, after) {
            above
        } else {
            let gap = (before > 0 || after > 0) && i > 0 && !is_shown(hits, i - 1, before, after)
                && exists|j: int| 0 <= j < i && #[trigger] is_shown(hits, j, before, after);
            above + (if gap {
                seq!['-', '-', '\n']
            } else {
                seq![]
            }) + shown_line(
                prefix,
                if !hits[i] || opts.numbers {
                    Some(n as nat)
                } else {
                    None
                },
                lines[i],
                !hits[i],
            )
        }
    }
}

/// The number of lines looked for among the first `n`.
pub open spec fn hit_count(hits: Seq<bool>, n: int) -> nat
    decreases n,
{
    if n <= 0 {
        0
    } else {
        hit_count(hits, n - 1) + (if hits[n - 1] {
            1nat
        } else {
            0nat
        })
    }
}

/// Which lines are looked for.
pub open spec fn hits_of(
    lines: Seq<Seq<char>>,
    patterns: Seq<Seq<char>>,
    opts: FindOptions,
) -> Seq<bool> {
    lines.map_values(|l: Seq<char>| line_hit(patterns, l, opts.all_match, opts.invert))
}

/// The output of a search through lines.
pub open spec fn search_output(
    lines: Seq<Seq<char>>,
    patterns: Seq<Seq<char>>,
    prefix: Option<Seq<char>>,
    opts: FindOptions,
) -> Seq<char> {
    let hits = hits_of(lines, patterns, opts);
    let n = lines.len() as int;
    if opts.count_only {
        shown_count(prefix, hit_count(hits, n))
    } else {
        shown(lines, hits, prefix, opts, n)
    }
}

/// For each line the index of the first line looked for from it on; the number of
/// lines where there is none.
fn next_hits(hits: &Vec<bool>) -> (r: Vec<usize>)
    ensures
        r@.len() == hits@.len(),
        forall|i: int| #![trigger r@[i]]
            0 <= i < r@.len() ==> i <= r@[i] <= hits@.len() && (r@[i] < hits@.len()
                ==> hits@[r@[i] as int]) && forall|k: int|
                i <= k < r@[i] ==> #[trigger] hits@[k] == false,
{
    let n: usize = hits.len();
    let mut back: Vec<usize> = Vec::new();
    let mut i: usize = n;
    let mut next: usize = n;
    while i > 0
        invariant
            i <= n,
            n == hits@.len(),
            back@.len() == n - i,
            i <= next <= n,
            next < n ==> hits@[next as int],
            forall|k: int| i <= k < next ==> #[trigger] hits@[k] == false,
            forall|j: int| #![trigger back@[j]]
                0 <= j < back@.len() ==> {
                    let at = n - 1 - j;
                    at <= back@[j] <= n && (back@[j] < n ==> hits@[back@[j] as int])
                        && forall|k: int| at <= k < back@[j] ==> #[trigger] hits@[k] == false
                },
        decreases i,
    {
        i = i - 1;
        if hits[i] {
            next = i;
        }
        back.push(next);
    }
    let mut out: Vec<usize> = Vec::new();
    let mut j: usize = n;
    while j > 0
        invariant
            j <= n,
            n == hits@.len(),
            back@.len() == n,
            out@.len() == n - j,
            forall|k: int| #![trigger out@[k]] 0 <= k < out@.len() ==> out@[k] == back@[n - 1 - k],
        decreases j,
    {
        j = j - 1;
        out.push(back[j]);
    }
    out
}

/// Searches lines, appending what is shown, and counts those looked for.
pub fn search(
    lines: &Vec<String>,
    regexes: &Vec<regex::Regex>,
    prefix: Option<&str>,
    opts: &FindOptions,
    out: &mut String,
) -> (r: usize)
    ensures
        final(out)@ == old(out)@ + search_output(
            texts(lines@),
            patterns_of(regexes@),
            opt_text(prefix),
            *opts,
        ),
        r == hit_count(
            hits_of(texts(lines@), patterns_of(regexes@), *opts),
            lines@.len() as int,
        ),
{
    let ghost views = texts(lines@);
    let ghost expected = hits_of(views, patterns_of(regexes@), *opts);
    let mut hits: Vec<bool> = Vec::new();
    let mut count: usize = 0;
    let mut i: usize = 0;
    while i < lines.len()
        invariant
            i <= lines@.len(),
            views == texts(lines@),
            expected == hits_of(views, patterns_of(regexes@), *opts),
            hits@.len() == i,
            count <= i,
            forall|k: int| 0 <= k < i ==> #[trigger] hits@[k] == expected[k],
            count == hit_count(expected, i as int),
        decreases lines@.len() - i,
    {
        let hit = line_matches(lines[i].as_str(), regexes, opts.all_match, opts.invert);
        hits.push(hit);
        if hit {
            count = count + 1;
        }
        i = i + 1;
    }
    proof {
        assert(hits@ =~= expected);
    }
    if opts.count_only {
        emit_count(out, prefix, count);
        return count;
    }
    let next = next_hits(&hits);
    let flags = shown_flags(&hits, &next, opts.lines_before, opts.lines_after);
    show_hits(lines, &hits, &flags, prefix, opts, out);
    count
}

/// Which lines are shown.
fn shown_flags(hits: &Vec<bool>, next: &Vec<usize>, before: usize, after: usize) -> (r: Vec<bool>)
    requires
        next@.len() == hits@.len(),
        forall|i: int| #![trigger next@[i]]
            0 <= i < next@.len() ==> i <= next@[i] <= hits@.len() && (next@[i] < hits@.len()
                ==> hits@[next@[i] as int]) && forall|k: int|
                i <= k < next@[i] ==> #[trigger] hits@[k] == false,
    ensures
        r@.len() == hits@.len(),
        forall|i: int|
            0 <= i < r@.len() ==> #[trigger] r@[i] == is_shown(
                hits@,
                i,
                before as int,
                after as int,
            ),
{
    let mut out: Vec<bool> = Vec::new();
    let mut last_hit: Option<usize> = None;
    let mut i: usize = 0;
    while i < hits.len()
        invariant
            i <= hits@.len(),
            next@.len() == hits@.len(),
            forall|i: int| #![trigger next@[i]]
                0 <= i < next@.len() ==> i <= next@[i] <= hits@.len() && (next@[i] < hits@.len()
                    ==> hits@[next@[i] as int]) && forall|k: int|
                    i <= k < next@[i] ==> #[trigger] hits@[k] == false,
            match last_hit {
                Some(h) => h < i && hits@[h as int] && forall|k: int|
                    h < k < i ==> #[trigger] hits@[k] == false,
                None => forall|k: int| 0 <= k < i ==> #[trigger] hits@[k] == false,
            },
            out@.len() == i,
            forall|k: int|
                0 <= k < i ==> #[trigger] out@[k] == is_shown(
                    hits@,
                    k,
                    before as int,
                    after as int,
                ),
        decreases hits@.len() - i,
    {
        if hits[i] {
            last_hit = Some(i);
        }
        let in_after = match last_hit {
            Some(h) => i - h <= after,
            None => false,
        };
        let n: usize = next[i];
        let in_before = n < hits.len() && n - i <= before;
        proof {
            if in_after {
                assert(hits@[last_hit->0 as int]);
            }
            if in_before {
                assert(hits@[n as int]);
            }
            reveal(is_shown);
            if is_shown(hits@, i as int, before as int, after as int) {
                let h = choose|h: int|
                    0 <= h < hits@.len() && #[trigger] hits@[h] && h - before <= i <= h + after;
                if h > i {
                    assert(n <= h);
                }
            }
        }
        out.push(in_after || in_before);
        i = i + 1;
    }
    out
}

/// Shows the lines looked for with their context.
#[verifier::rlimit(30)]
fn show_hits(
    lines: &Vec<String>,
    hits: &Vec<bool>,
    flags: &Vec<bool>,
    prefix: Option<&str>,
    opts: &FindOptions,
    out: &mut String,
)
    requires
        hits@.len() == lines@.len(),
        flags@.len() == hits@.len(),
        forall|i: int|
            0 <= i < flags@.len() ==> #[trigger] flags@[i] == is_shown(
                hits@,
                i,
                opts.lines_before as int,
                opts.lines_after as int,
            ),
    ensures
        final(out)@ == old(out)@ + shown(
            texts(lines@),
            hits@,
            opt_text(prefix),
            *opts,
            lines@.len() as int,
        ),
{
    let ghost views = texts(lines@);
    let ghost start = out@;
    let ghost pv = opt_text(prefix);
    let ghost before = opts.lines_before as int;
    let ghost after = opts.lines_after as int;
    let mut any = false;
    let mut i: usize = 0;
    proof {
        assert(start + shown(views, hits@, pv, *opts, 0) =~= start);
    }
    while i < lines.len()
        invariant
            i <= lines@.len(),
            hits@.len() == lines@.len(),
            flags@.len() == hits@.len(),
            views == texts(lines@),
            pv == opt_text(prefix),
            before == opts.lines_before,
            after == opts.lines_after,
            forall|k: int|
                0 <= k < flags@.len() ==> #[trigger] flags@[k] == is_shown(hits@, k, before, after),
            any == exists|j: int| 0 <= j < i && #[trigger] is_shown(hits@, j, before, after),
            out@ == start + shown(views, hits@, pv, *opts, i as int),
        decreases lines@.len() - i,
    {
        let hit = hits[i];
        if flags[i] {
            proof {
                assert(is_shown(hits@, i as int, before, after));
                if i > 0 {
                    assert(flags@[i - 1] == is_shown(hits@, i - 1, before, after));
                }
            }
            let gap = (opts.lines_before > 0 || opts.lines_after > 0) && i > 0 && !flags[i - 1]
                && any;
            let ghost had = out@;
            if gap {
                out.push('-');
                out.push('-');
                out.push('\n');
            }
            let line_no = if !hit || opts.numbers {
                Some(i + 1)
            } else {
                None
            };
            proof {
                assert(out@ =~= had + (if gap {
                    seq!['-', '-', '\n']
                } else {
                    seq![]
                }));
            }
            emit_line(out, prefix, line_no, lines[i].as_str(), !hit);
            any = true;
            proof {
                assert(out@ =~= start + shown(views, hits@, pv, *opts, i + 1));
            }
        } else {
            proof {
                assert(!is_shown(hits@, i as int, before, after));
            }
        }
        i = i + 1;
    }
}

// ── Searching files ─────────────────────────────────────────────────────────

/// What a search through one file shows, and the number of lines it found, or the
/// message of the error.
pub open spec fn file_search(
    file: Seq<u8>,
    patterns: Seq<Seq<char>>,
    prefix: Option<Seq<char>>,
    opts: FindOptions,
) -> Result<(Seq<char>, nat), Seq<char>> {
    if file.len() == 0 {
        Ok(
            (
                if opts.count_only {
                    shown_count(prefix, 0)
                } else {
                    seq![]
                },
                0,
            ),
        )
    } else {
        match file_lines(file) {
            Ok(lines) => Ok(
                (
                    search_output(lines, patterns, prefix, opts),
                    hit_count(hits_of(lines, patterns, opts), lines.len() as int),
                ),
            ),
            Err(m) => Err(m),
        }
    }
}

/// Search one file, appending what is shown.
pub fn run_single_file(
    file: &[u8],
    regexes: &Vec<regex::Regex>,
    prefix: Option<&str>,
    opts: &FindOptions,
    out: &mut String,
) -> (r: Result<usize, String>)
    ensures
        match r {
            Ok(n) => {
                &&& file_search(file@, patterns_of(regexes@), opt_text(prefix), *opts) is Ok
                &&& final(out)@ == old(out)@ + file_search(
                    file@,
                    patterns_of(regexes@),
                    opt_text(prefix),
                    *opts,
                )->Ok_0.0
                &&& n == file_search(
                    file@,
                    patterns_of(regexes@),
                    opt_text(prefix),
                    *opts,
                )->Ok_0.1
            },
            Err(m) => {
                &&& file_search(file@, patterns_of(regexes@), opt_text(prefix), *opts) == Err::<
                    (Seq<char>, nat),
                    Seq<char>,
                >(m@)
                &&& final(out)@ == old(out)@
            },
        },
        valid_utf8(file@) && lacks_nul(file@) && file@.len() > 0 ==> r is Ok && final(out)@ == old(
            out,
        )@ + search_output(
            text_lines(content_text(file@)),
            patterns_of(regexes@),
            opt_text(prefix),
            *opts,
        ),
{
    let ghost start = out@;
    if file.len() == 0 {
        if opts.count_only {
            emit_count(out, prefix, 0);
        } else {
            proof {
                assert(start + Seq::<char>::empty() =~= start);
            }
        }
        return Ok(0);
    }
    match read_lines(file) {
        Ok(lines) => {
            proof {
                assert(texts(lines@).len() == lines@.len());
            }
            Ok(search(&lines, regexes, prefix, opts, out))
        },
        Err(m) => Err(m),
    }
}

/// A file to search: its name, and its content or why it could not be read.
#[derive(Debug)]
pub struct SearchInput {
    /// The name.
    pub name: String,
    /// The content, or the message of the error.
    pub content: Result<Vec<u8>, String>,
}

/// How far a search through files has come.
pub struct SearchState {
    /// What is shown.
    pub out: Seq<char>,
    /// The warnings.
    pub warnings: Seq<Seq<char>>,
    /// The number of lines found.
    pub total: nat,
    /// The number of files searched.
    pub searched: nat,
    /// The message of the error that ended the search.
    pub failed: Option<Seq<char>>,
}

/// The search of one of several files.
pub open spec fn input_search(
    input: SearchInput,
    multi: bool,
    patterns: Seq<Seq<char>>,
    opts: FindOptions,
) -> Result<(Seq<char>, nat), Seq<char>> {
    match input.content {
        Ok(bytes) => file_search(
            bytes@,
            patterns,
            if multi {
                Some(input.name@)
            } else {
                None
            },
            opts,
        ),
        Err(m) => Err(m@),
    }
}

/// The state of a search after the first `n` files. A file that cannot be searched
/// ends the search, or is passed over with a warning where the policy says so and
/// there are others.
pub open spec fn search_state(
    inputs: Seq<SearchInput>,
    patterns: Seq<Seq<char>>,
    opts: FindOptions,
    on_error: OnError,
    n: int,
) -> SearchState
    decreases n,
{
    if n <= 0 {
        SearchState { out: seq![], warnings: seq![], total: 0, searched: 0, failed: None }
    } else {
        let st = search_state(inputs, patterns, opts, on_error, n - 1);
        if st.failed is Some {
            st
        } else {
            match input_search(inputs[n - 1], inputs.len() > 1, patterns, opts) {
                Ok((shown, count)) => SearchState {
                    out: st.out + shown,
                    total: st.total + count,
                    searched: st.searched + 1,
                    ..st
                },
                Err(e) => {
                    let m = "find: cannot search "@ + inputs[n - 1].name@ + ": "@ + e;
                    if on_error == OnError::Fail || inputs.len() == 1 {
                        SearchState { failed: Some(m), ..st }
                    } else {
                        SearchState { warnings: st.warnings.push(m), ..st }
                    }
                },
            }
        }
    }
}

/// A number as far as it can be counted.
pub open spec fn clamped(n: nat) -> usize {
    if n > usize::MAX {
        usize::MAX
    } else {
        n as usize
    }
}

proof fn lemma_failed_stays(
    inputs: Seq<SearchInput>,
    patterns: Seq<Seq<char>>,
    opts: FindOptions,
    on_error: OnError,
    k: int,
    n: int,
)
    requires
        0 <= k <= n,
        search_state(inputs, patterns, opts, on_error, k).failed is Some,
    ensures
        search_state(inputs, patterns, opts, on_error, n) == search_state(
            inputs,
            patterns,
            opts,
            on_error,
            k,
        ),
    decreases n,
{
    if n > k {
        lemma_failed_stays(inputs, patterns, opts, on_error, k, n - 1);
    }
}

/// The result of a search: an error that ended it, an error where no file could be
/// searched, or the number of lines found.
pub open spec fn search_result(st: SearchState, inputs: nat) -> Result<FindResult, Seq<char>> {
    if st.failed is Some {
        Err(st.failed->0)
    } else if st.searched == 0 && inputs > 0 {
        Err("find: no files could be searched; all entries were missing or unreadable"@)
    } else {
        Ok(FindResult { total_matches: clamped(st.total) })
    }
}

/// What a search shows at its end.
pub open spec fn closing(st: SearchState, inputs: nat, opts: FindOptions) -> Seq<char> {
    if search_result(st, inputs) is Ok && opts.count_only && inputs > 1 {
        "total: "@ + dec(clamped(st.total) as nat) + seq!['\n']
    } else {
        seq![]
    }
}

/// Search files for compiled patterns.
pub fn search_files(
    inputs: &Vec<SearchInput>,
    regexes: &Vec<regex::Regex>,
    opts: &FindOptions,
    on_error: OnError,
    out: &mut String,
    warnings: &mut Vec<String>,
) -> (r: Result<FindResult, String>)
    ensures
        ({
            let st = search_state(
                inputs@,
                patterns_of(regexes@),
                *opts,
                on_error,
                inputs@.len() as int,
            );
            &&& outcome(r) == search_result(st, inputs@.len())
            &&& final(out)@ == old(out)@ + st.out + closing(st, inputs@.len(), *opts)
            &&& texts(final(warnings)@) == texts(old(warnings)@) + st.warnings
        }),
{
    let ghost patterns = patterns_of(regexes@);
    let ghost o0 = out@;
    let ghost w0 = texts(warnings@);
    let multi = inputs.len() > 1;
    let mut total: usize = 0;
    let mut searched: usize = 0;
    let mut i: usize = 0;
    proof {
        assert(o0 + Seq::<char>::empty() =~= o0);
        assert(w0 + Seq::<Seq<char>>::empty() =~= w0);
    }
    while i < inputs.len()
        invariant
            i <= inputs@.len(),
            searched <= i,
            patterns == patterns_of(regexes@),
            multi == (inputs@.len() > 1),
            ({
                let st = search_state(inputs@, patterns, *opts, on_error, i as int);
                &&& st.failed is None
                &&& out@ == o0 + st.out
                &&& texts(warnings@) == w0 + st.warnings
                &&& total == clamped(st.total)
                &&& searched == st.searched
            }),
            o0 == old(out)@,
            w0 == texts(old(warnings)@),
        decreases inputs@.len() - i,
    {
        let ghost next = search_state(inputs@, patterns, *opts, on_error, i + 1);
        let prefix = if multi {
            Some(inputs[i].name.as_str())
        } else {
            None
        };
        let result = match &inputs[i].content {
            Ok(bytes) => run_single_file(bytes.as_slice(), regexes, prefix, opts, out),
            Err(m) => Err(m.clone()),
        };
        match result {
            Ok(n) => {
                total = total.saturating_add(n);
                searched = searched + 1;
                proof {
                    assert(out@ =~= o0 + next.out);
                }
            },
            Err(e) => {
                let mut m = "find: cannot search ".to_owned();
                m.push_str(inputs[i].name.as_str());
                m.push_str(": ");
                m.push_str(e.as_str());
                let fail = match on_error {
                    OnError::Fail => true,
                    OnError::Warn => inputs.len() == 1,
                };
                if fail {
                    proof {
                        lemma_failed_stays(
                            inputs@,
                            patterns,
                            *opts,
                            on_error,
                            i + 1,
                            inputs@.len() as int,
                        );
                        assert(out@ + Seq::<char>::empty() =~= out@);
                    }
                    return Err(m);
                }
                let ghost shown = m@;
                let ghost had = texts(warnings@);
                warnings.push(m);
                proof {
                    assert(texts(warnings@) =~= had.push(shown));
                    assert(texts(warnings@) =~= w0 + next.warnings);
                }
            },
        }
        i = i + 1;
    }
    if searched == 0 && inputs.len() > 0 {
        proof {
            assert(out@ + Seq::<char>::empty() =~= out@);
        }
        return Err(
            "find: no files could be searched; all entries were missing or unreadable".to_owned(),
        );
    }
    let ghost shown = out@;
    if opts.count_only && multi {
        out.push_str("total: ");
        push_dec(out, total as u64);
        out.push('\n');
        proof {
            assert(out@ =~= shown + ("total: "@ + dec(total as nat) + seq!['\n']));
        }
    } else {
        proof {
            assert(out@ + Seq::<char>::empty() =~= out@);
        }
    }
    Ok(FindResult { total_matches: total })
}

/// What a search of files for patterns comes to: the result, what is shown, and the
/// warnings, behind what was shown and warned of before.
pub open spec fn is_search(
    r: Result<FindResult, String>,
    out: (Seq<char>, Seq<char>),
    warnings: (Seq<Seq<char>>, Seq<Seq<char>>),
    inputs: Seq<SearchInput>,
    patterns: Seq<Seq<char>>,
    opts: FindOptions,
    on_error: OnError,
) -> bool {
    match pattern_failure(patterns, opts, 0) {
        Some(m) => r is Err && r->Err_0@ == m && out.1 == out.0 && warnings.1 == warnings.0,
        None => {
            let st = search_state(
                inputs,
                effective_all(patterns, opts),
                opts,
                on_error,
                inputs.len() as int,
            );
            &&& outcome(r) == search_result(st, inputs.len())
            &&& out.1 == out.0 + st.out + closing(st, inputs.len(), opts)
            &&& warnings.1 == warnings.0 + st.warnings
        },
    }
}

/// Search files for patterns, with a policy for files that cannot be searched.
pub fn run_with_policy(
    inputs: &Vec<SearchInput>,
    patterns: &Vec<String>,
    opts: &FindOptions,
    on_error: OnError,
    out: &mut String,
    warnings: &mut Vec<String>,
) -> (r: Result<FindResult, String>)
    ensures
        is_search(
            r,
            (old(out)@, final(out)@),
            (texts(old(warnings)@), texts(final(warnings)@)),
            inputs@,
            texts(patterns@),
            *opts,
            on_error,
        ),
{
    match build_patterns(patterns, opts) {
        Ok(regexes) => search_files(inputs, &regexes, opts, on_error, out, warnings),
        Err(m) => Err(m),
    }
}

/// Search files for patterns; the first file that cannot be searched is an error.
pub fn run(
    inputs: &Vec<SearchInput>,
    patterns: &Vec<String>,
    opts: &FindOptions,
    out: &mut String,
) -> (r: Result<FindResult, String>)
    ensures
        is_search(
            r,
            (old(out)@, final(out)@),
            (seq![], seq![]),
            inputs@,
            texts(patterns@),
            *opts,
            OnError::Fail,
        ),
        r is Ok ==> forall|i: int| 0 <= i < inputs@.len() ==> (#[trigger] inputs@[i]).content is Ok,
{
    let mut warnings: Vec<String> = Vec::new();
    proof {
        lemma_no_warnings(
            inputs@,
            effective_all(texts(patterns@), *opts),
            *opts,
            inputs@.len() as int,
        );
        assert(texts(warnings@) =~= seq![]);
    }
    let r = run_with_policy(inputs, patterns, opts, OnError::Fail, out, &mut warnings);
    proof {
        assert(texts(warnings@) =~= seq![]);
    }
    r
}

/// Where a file that cannot be searched ends the search, there are no warnings, and all
/// files could be read where it has not ended.
proof fn lemma_no_warnings(
    inputs: Seq<SearchInput>,
    patterns: Seq<Seq<char>>,
    opts: FindOptions,
    n: int,
)
    requires
        0 <= n <= inputs.len(),
    ensures
        ({
            let st = search_state(inputs, patterns, opts, OnError::Fail, n);
            &&& st.warnings.len() == 0
            &&& st.failed is None ==> forall|i: int|
                0 <= i < n ==> (#[trigger] inputs[i]).content is Ok
        }),
    decreases n,
{
    if n > 0 {
        lemma_no_warnings(inputs, patterns, opts, n - 1);
    }
}

// ── Selecting files ─────────────────────────────────────────────────────────

/// A path given to search, with what is known of it: for a directory that is to be
/// searched, or for a glob, what a walk came upon.
#[derive(Debug)]
pub struct PathSpec {
    /// The path or glob.
    pub spec: String,
    /// Whether it is a directory.
    pub is_dir: bool,
    /// Whether it is absolute.
    pub is_absolute: bool,
    /// What a walk came upon.
    pub entries: Vec<WalkEntry>,
}

/// A path without separators at its end.
pub open spec fn without_separators(s: Seq<char>) -> Seq<char>
    decreases s.len(),
{
    if s.len() > 0 && (s.last() == '/' || s.last() == '\\') {
        without_separators(s.drop_last())
    } else {
        s
    }
}

/// The glob to suggest in place of a directory.
pub open spec fn suggested_glob(spec: Seq<char>) -> Seq<char> {
    let rest = if has_prefix(spec, "./"@) || has_prefix(spec, ".\\"@) {
        spec.skip(2)
    } else {
        spec
    };
    let normalized = without_separators(rest);
    if normalized.len() == 0 || normalized == "."@ {
        "**"@
    } else {
        normalized + "/**"@
    }
}

/// The message for a glob that is none.
pub open spec fn bad_glob(pattern: Seq<char>, error: Seq<char>) -> Seq<char> {
    "find: invalid glob "@ + str_debug(pattern) + ": "@ + error
}

/// What a path stands for: the paths of files, or the message of the error; and
/// the warnings on the way.
pub open spec fn expand_spec(p: PathSpec, glob: Option<Seq<char>>, on_error: OnError) -> (
    Result<Seq<Seq<char>>, Seq<char>>,
    Seq<Seq<char>>,
) {
    let spec = p.spec@;
    let walk_error = first_access_error(p.entries@, 0);
    let warnings = if on_error == OnError::Warn {
        access_warnings(p.entries@, "find"@)
    } else {
        seq![]
    };
    match glob {
        Some(g) => if glob_like(spec) {
            (
                Err(
                    "find: path "@ + str_debug(spec)
                        + " contains glob metacharacters but a separate `glob` was also supplied; pick one form"@,
                ),
                seq![],
            )
        } else if !p.is_dir {
            (Ok(seq![spec]), seq![])
        } else if on_error == OnError::Fail && walk_error is Some {
            (
                Err("find: walk error in "@ + str_debug(spec) + ": "@ + walk_error->0),
                seq![],
            )
        } else if selected(p.entries@, g).len() == 0 {
            (
                Err(
                    "find: glob "@ + str_debug(g) + " matched no files under "@ + str_debug(spec),
                ),
                warnings,
            )
        } else {
            (Ok(selected(p.entries@, g)), warnings)
        },
        None => if glob_like(spec) {
            if glob_error(spec) is Some {
                (Err(bad_glob(spec, glob_error(spec)->0)), seq![])
            } else if on_error == OnError::Fail && walk_error is Some {
                (Err("find: glob walk error: "@ + walk_error->0), seq![])
            } else if selected(p.entries@, spec).len() == 0 {
                (Err("find: glob "@ + str_debug(spec) + " matched no files"@), warnings)
            } else {
                (Ok(selected(p.entries@, spec)), warnings)
            }
        } else if !p.is_dir {
            (Ok(seq![spec]), seq![])
        } else if p.is_absolute {
            (
                Err(
                    "find: "@ + str_debug(spec)
                        + " is a directory — pass a `glob` (e.g. glob:\"**/*.txt\") to search it recursively, or pass individual file paths instead"@,
                ),
                seq![],
            )
        } else {
            (
                Err(
                    "find: "@ + str_debug(spec)
                        + " is a directory — pass a `glob` (e.g. glob:\"**/*.txt\") to search it recursively, or pass a path-glob like "@
                        + str_debug(suggested_glob(spec)),
                ),
                seq![],
            )
        },
    }
}

/// What the first `n` paths stand for, and the warnings on the way.
pub open spec fn expansion(
    specs: Seq<PathSpec>,
    glob: Option<Seq<char>>,
    on_error: OnError,
    n: int,
) -> (Result<Seq<Seq<char>>, Seq<char>>, Seq<Seq<char>>)
    decreases n,
{
    if n <= 0 {
        (Ok(seq![]), seq![])
    } else {
        let (r, w) = expansion(specs, glob, on_error, n - 1);
        match r {
            Err(m) => (Err(m), w),
            Ok(paths) => {
                let (r1, w1) = expand_spec(specs[n - 1], glob, on_error);
                (
                    match r1 {
                        Err(m) => Err(m),
                        Ok(more) => Ok(paths + more),
                    },
                    w + w1,
                )
            },
        }
    }
}

/// What paths stand for, and the warnings on the way.
pub open spec fn expansion_of(
    specs: Seq<PathSpec>,
    glob: Option<Seq<char>>,
    on_error: OnError,
) -> (Result<Seq<Seq<char>>, Seq<char>>, Seq<Seq<char>>) {
    match glob {
        Some(g) => if glob_error(g) is Some {
            (Err(bad_glob(g, glob_error(g)->0)), seq![])
        } else {
            expansion(specs, glob, on_error, specs.len() as int)
        },
        None => expansion(specs, glob, on_error, specs.len() as int),
    }
}

/// The glob to suggest in place of a directory.
fn suggest_glob(spec: &str) -> (r: String)
    ensures
        r@ == suggested_glob(spec@),
{
    proof {
        reveal_strlit("./");
        reveal_strlit(".\\");
        reveal_strlit(".");
    }
    let rest = match strip_prefix(spec, "./") {
        Some(t) => t,
        None => match strip_prefix(spec, ".\\") {
            Some(t) => t,
            None => spec.to_owned(),
        },
    };
    let v = chars_of(rest.as_str());
    let mut b: usize = v.len();
    proof {
        assert(v@.take(v@.len() as int) =~= v@);
    }
    while b > 0 && (v[b - 1] == '/' || v[b - 1] == '\\')
        invariant
            b <= v@.len(),
            v@ == rest@,
            without_separators(v@.take(b as int)) == without_separators(rest@),
        decreases b,
    {
        proof {
            assert(v@.take(b as int).last() == v@[b - 1]);
            assert(v@.take(b as int).drop_last() =~= v@.take(b - 1));
        }
        b = b - 1;
    }
    proof {
        if b > 0 {
            assert(v@.take(b as int).last() == v@[b - 1]);
        }
        assert(v@.subrange(0, b as int) =~= v@.take(b as int));
    }
    let normalized = string_of(&v, 0, b);
    let is_root = b == 0 || (b == 1 && v[0] == '.');
    proof {
        if normalized@ == "."@ {
            assert(normalized@[0] == '.');
        }
        if b == 1 && v@[0] == '.' {
            assert(normalized@ =~= "."@);
        }
    }
    if is_root {
        "**".to_owned()
    } else {
        let mut g = normalized;
        g.push_str("/**");
        g
    }
}

fn bad_glob_message(pattern: &str, error: &str) -> (r: String)
    ensures
        r@ == bad_glob(pattern@, error@),
{
    let mut m = "find: invalid glob ".to_owned();
    m.push_str(format_str_debug(pattern).as_str());
    m.push_str(": ");
    m.push_str(error);
    m
}

/// Appends the files that a walk came upon and a glob selects. `Err` where the
/// policy stops at what could not be read, and `Ok` with the number of files
/// otherwise.
fn take_selected(
    p: &PathSpec,
    m: &globset::GlobSet,
    on_error: OnError,
    paths: &mut Vec<String>,
    warnings: &mut Vec<String>,
) -> (r: Result<bool, String>)
    ensures
        match r {
            Err(e) => {
                &&& on_error == OnError::Fail && first_access_error(p.entries@, 0) == Some(e@)
                &&& final(paths)@ == old(paths)@
                &&& final(warnings)@ == old(warnings)@
            },
            Ok(any) => {
                &&& !(on_error == OnError::Fail && first_access_error(p.entries@, 0) is Some)
                &&& any == (selected(p.entries@, glob_pattern(*m)).len() > 0)
                &&& texts(final(paths)@) == texts(old(paths)@) + selected(
                    p.entries@,
                    glob_pattern(*m),
                )
                &&& texts(final(warnings)@) == texts(old(warnings)@) + (if on_error == OnError::Warn {
                    access_warnings(p.entries@, "find"@)
                } else {
                    seq![]
                })
            },
        },
{
    let before: usize = paths.len();
    let ghost p0 = texts(paths@);
    let ghost w0 = texts(warnings@);
    match on_error {
        OnError::Fail => {
            match find_access_error(&p.entries) {
                Some(e) => {
                    return Err(e);
                },
                None => {},
            }
            proof {
                assert(w0 + Seq::<Seq<char>>::empty() =~= w0);
            }
        },
        OnError::Warn => {
            push_access_warnings(&p.entries, "find", warnings);
        },
    }
    collect_selected(&p.entries, m, paths);
    proof {
        assert(texts(paths@).len() == paths@.len());
        assert(p0.len() == before);
    }
    Ok(paths.len() > before)
}

/// Expands one path.
fn expand_one(
    p: &PathSpec,
    glob: Option<&str>,
    matcher: &Option<globset::GlobSet>,
    on_error: OnError,
    paths: &mut Vec<String>,
    warnings: &mut Vec<String>,
) -> (r: Result<(), String>)
    requires
        match (glob, *matcher) {
            (Some(g), Some(m)) => glob_pattern(m) == g@,
            (None, None) => true,
            _ => false,
        },
    ensures
        ({
            let (r1, w1) = expand_spec(*p, opt_text(glob), on_error);
            &&& texts(final(warnings)@) == texts(old(warnings)@) + w1
            &&& match r {
                Ok(_) => r1 is Ok && texts(final(paths)@) == texts(old(paths)@) + r1->Ok_0,
                Err(m) => r1 is Err && r1->Err_0 == m@,
            }
        }),
{
    let ghost w0 = texts(warnings@);
    let ghost p0 = texts(paths@);
    proof {
        assert(w0 + Seq::<Seq<char>>::empty() =~= w0);
    }
    let spec = p.spec.as_str();
    let is_glob_spec = is_glob(spec);
    match (glob, matcher) {
        (Some(g), Some(m)) => {
            if is_glob_spec {
                let mut e = "find: path ".to_owned();
                e.push_str(format_str_debug(spec).as_str());
                e.push_str(
                    " contains glob metacharacters but a separate `glob` was also supplied; pick one form",
                );
                return Err(e);
            }
            if !p.is_dir {
                paths.push(p.spec.clone());
                proof {
                    assert(texts(paths@) =~= p0 + seq![spec@]);
                }
                return Ok(());
            }
            match take_selected(p, m, on_error, paths, warnings) {
                Err(w) => {
                    let mut e = "find: walk error in ".to_owned();
                    e.push_str(format_str_debug(spec).as_str());
                    e.push_str(": ");
                    e.push_str(w.as_str());
                    Err(e)
                },
                Ok(any) => if any {
                    Ok(())
                } else {
                    let mut e = "find: glob ".to_owned();
                    e.push_str(format_str_debug(g).as_str());
                    e.push_str(" matched no files under ");
                    e.push_str(format_str_debug(spec).as_str());
                    Err(e)
                },
            }
        },
        _ => {
            if is_glob_spec {
                let m = match compile_glob(spec) {
                    Ok(m) => m,
                    Err(e) => {
                        return Err(bad_glob_message(spec, e.as_str()));
                    },
                };
                return match take_selected(p, &m, on_error, paths, warnings) {
                    Err(w) => {
                        let mut e = "find: glob walk error: ".to_owned();
                        e.push_str(w.as_str());
                        Err(e)
                    },
                    Ok(any) => if any {
                        Ok(())
                    } else {
                        let mut e = "find: glob ".to_owned();
                        e.push_str(format_str_debug(spec).as_str());
                        e.push_str(" matched no files");
                        Err(e)
                    },
                };
            }
            if !p.is_dir {
                paths.push(p.spec.clone());
                proof {
                    assert(texts(paths@) =~= p0 + seq![spec@]);
                }
                return Ok(());
            }
            let mut e = "find: ".to_owned();
            e.push_str(format_str_debug(spec).as_str());
            if p.is_absolute {
                e.push_str(
                    " is a directory — pass a `glob` (e.g. glob:\"**/*.txt\") to search it recursively, or pass individual file paths instead",
                );
            } else {
                e.push_str(
                    " is a directory — pass a `glob` (e.g. glob:\"**/*.txt\") to search it recursively, or pass a path-glob like ",
                );
                e.push_str(format_str_debug(suggest_glob(spec).as_str()).as_str());
            }
            Err(e)
        },
    }
}

/// Expand paths and globs into the paths of files, with a policy for what could
/// not be read. A `glob` selects among the files of directories.
pub fn expand_paths_with_policy(
    specs: &Vec<PathSpec>,
    glob: Option<&str>,
    on_error: OnError,
    warnings: &mut Vec<String>,
) -> (r: Result<Vec<String>, String>)
    ensures
        ({
            let (r1, w1) = expansion_of(specs@, opt_text(glob), on_error);
            &&& texts(final(warnings)@) == texts(old(warnings)@) + w1
            &&& match r {
                Ok(paths) => r1 is Ok && texts(paths@) == r1->Ok_0,
                Err(m) => r1 is Err && r1->Err_0 == m@,
            }
        }),
{
    let ghost w0 = texts(warnings@);
    let ghost g = opt_text(glob);
    proof {
        assert(w0 + Seq::<Seq<char>>::empty() =~= w0);
    }
    let matcher = match glob {
        Some(p) => match compile_glob(p) {
            Ok(m) => Some(m),
            Err(e) => {
                return Err(bad_glob_message(p, e.as_str()));
            },
        },
        None => None,
    };
    let mut paths: Vec<String> = Vec::new();
    let mut i: usize = 0;
    proof {
        assert(texts(paths@) =~= seq![]);
    }
    while i < specs.len()
        invariant
            i <= specs@.len(),
            g == opt_text(glob),
            match (glob, matcher) {
                (Some(g), Some(m)) => glob_pattern(m) == g@ && glob_error(g@) is None,
                (None, None) => true,
                _ => false,
            },
            expansion(specs@, g, on_error, i as int).0 == Ok::<Seq<Seq<char>>, Seq<char>>(
                texts(paths@),
            ),
            texts(warnings@) == w0 + expansion(specs@, g, on_error, i as int).1,
            w0 == texts(old(warnings)@),
        decreases specs@.len() - i,
    {
        let ghost before = expansion(specs@, g, on_error, i as int).1;
        let ghost more = expand_spec(specs@[i as int], g, on_error).1;
        match expand_one(&specs[i], glob, &matcher, on_error, &mut paths, warnings) {
            Ok(_) => {
                proof {
                    assert(w0 + (before + more) =~= (w0 + before) + more);
                }
            },
            Err(m) => {
                proof {
                    assert(w0 + (before + more) =~= (w0 + before) + more);
                    lemma_expansion_error(specs@, g, on_error, i + 1, specs@.len() as int);
                }
                return Err(m);
            },
        }
        i = i + 1;
    }
    Ok(paths)
}

proof fn lemma_expansion_error(
    specs: Seq<PathSpec>,
    glob: Option<Seq<char>>,
    on_error: OnError,
    k: int,
    n: int,
)
    requires
        0 <= k <= n,
        expansion(specs, glob, on_error, k).0 is Err,
    ensures
        expansion(specs, glob, on_error, n) == expansion(specs, glob, on_error, k),
    decreases n,
{
    if n > k {
        lemma_expansion_error(specs, glob, on_error, k, n - 1);
    }
}

/// Expand paths and globs into the paths of files; what could not be read is an
/// error.
pub fn expand_paths(specs: &Vec<PathSpec>) -> (r: Result<Vec<String>, String>)
    ensures
        match r {
            Ok(paths) => expansion_of(specs@, None, OnError::Fail).0 == Ok::<
                Seq<Seq<char>>,
                Seq<char>,
            >(texts(paths@)),
            Err(m) => expansion_of(specs@, None, OnError::Fail).0 == Err::<
                Seq<Seq<char>>,
                Seq<char>,
            >(m@),
        },
{
    let mut warnings: Vec<String> = Vec::new();
    expand_paths_with_policy(specs, None, OnError::Fail, &mut warnings)
}

// ── Laws ────────────────────────────────────────────────────────────────────

/// Inverting a search finds exactly the other lines.
pub proof fn law_invert_finds_the_other_lines(
    lines: Seq<Seq<char>>,
    patterns: Seq<Seq<char>>,
    opts: FindOptions,
    n: int,
)
    requires
        0 <= n <= lines.len(),
    ensures
        ({
            let other = FindOptions { invert: !opts.invert, ..opts };
            &&& forall|i: int|
                0 <= i < lines.len() ==> #[trigger] hits_of(lines, patterns, other)[i] != hits_of(
                    lines,
                    patterns,
                    opts,
                )[i]
            &&& hit_count(hits_of(lines, patterns, other), n) + hit_count(
                hits_of(lines, patterns, opts),
                n,
            ) == n
        }),
    decreases n,
{
    if n > 0 {
        law_invert_finds_the_other_lines(lines, patterns, opts, n - 1);
    }
}

/// Without context, the lines shown are the lines looked for.
pub proof fn law_without_context_only_hits_are_shown(hits: Seq<bool>, i: int)
    requires
        0 <= i < hits.len(),
    ensures
        is_shown(hits, i, 0, 0) == hits[i],
{
    reveal(is_shown);
    if hits[i] {
        assert(hits[i] && i - 0 <= i <= i + 0);
    }
}

/// A fixed string stands for itself, unless case is ignored.
pub proof fn law_a_fixed_string_stands_for_itself(pattern: Seq<char>, opts: FindOptions)
    requires
        opts.fixed_string,
        !opts.ignore_case,
    ensures
        is_literal_pattern(effective(pattern, opts), pattern),
{
    reveal_strlit("");
    assert(""@ + escaped_pattern(pattern) =~= escaped_pattern(pattern));
}

/// What a pattern stands for is the pattern itself where it is an expression and nothing
/// more is asked for. A fixed string is the expression that its escaped form is, whatever
/// else is asked for. Ignoring case, and matching at line feeds, put their flag in front,
/// whether the pattern is a fixed string or not; nothing else counts.
pub proof fn law_flags_stand_before_the_pattern(
    pattern: Seq<char>,
    opts: FindOptions,
    other: FindOptions,
)
    ensures
        effective(pattern, FindOptions { fixed_string: true, ..opts }) == effective(
            escaped_pattern(pattern),
            FindOptions { fixed_string: false, ..opts },
        ),
        !opts.fixed_string && !opts.ignore_case && !opts.multiline ==> effective(pattern, opts)
            == pattern,
        ({
            let bare = effective(
                pattern,
                FindOptions { ignore_case: false, multiline: false, ..opts },
            );
            &&& opts.ignore_case && !opts.multiline ==> effective(pattern, opts) == "(?i)"@ + bare
            &&& opts.ignore_case && opts.multiline ==> effective(pattern, opts) == "(?im)"@ + bare
            &&& !opts.ignore_case && opts.multiline ==> effective(pattern, opts) == "(?m)"@ + bare
        }),
        opts.fixed_string == other.fixed_string && opts.ignore_case == other.ignore_case
            && opts.multiline == other.multiline ==> effective(pattern, opts) == effective(
            pattern,
            other,
        ),
{
    reveal_strlit("");
    assert(""@ + pattern =~= pattern);
    assert(""@ + escaped_pattern(pattern) =~= escaped_pattern(pattern));
}

/// Each pattern is looked for as what it stands for, in order; a search is refused where,
/// and only where, one of them is no expression.
pub proof fn law_every_pattern_is_compiled(patterns: Seq<Seq<char>>, opts: FindOptions, i: int)
    requires
        0 <= i,
    ensures
        effective_all(patterns, opts).len() == patterns.len(),
        forall|k: int|
            0 <= k < patterns.len() ==> #[trigger] effective_all(patterns, opts)[k] == effective(
                patterns[k],
                opts,
            ),
        pattern_failure(patterns, opts, i) is None <==> forall|k: int|
            i <= k < patterns.len() ==> text_pattern_error(
                effective(#[trigger] patterns[k], opts),
            ) is None,
    decreases patterns.len() - i,
{
    if i < patterns.len() {
        law_every_pattern_is_compiled(patterns, opts, i + 1);
    }
}

/// A line is looked for where some pattern matches it, or, where all are asked for, where
/// every one does; inverted, where it is not.
pub proof fn law_patterns_are_alternatives(
    a: Seq<Seq<char>>,
    b: Seq<Seq<char>>,
    p: Seq<char>,
    line: Seq<char>,
)
    ensures
        line_hit(a + b, line, false, false) == (line_hit(a, line, false, false) || line_hit(
            b,
            line,
            false,
            false,
        )),
        line_hit(a + b, line, true, false) == (line_hit(a, line, true, false) && line_hit(
            b,
            line,
            true,
            false,
        )),
        line_hit(seq![p], line, false, false) == text_match(p, line),
        line_hit(seq![p], line, true, false) == text_match(p, line),
        !line_hit(seq![], line, false, false),
        line_hit(seq![], line, true, false),
        line_hit(a, line, true, true) == !line_hit(a, line, true, false),
        line_hit(a, line, false, true) == !line_hit(a, line, false, false),
{
    let ab = a + b;
    assert forall|i: int| 0 <= i < a.len() implies ab[i] == #[trigger] a[i] by {}
    assert forall|i: int| 0 <= i < b.len() implies ab[a.len() + i] == #[trigger] b[i] by {}
    if line_hit(a, line, false, false) {
        let i = choose|i: int| 0 <= i < a.len() && text_match(#[trigger] a[i], line);
        assert(text_match(ab[i], line));
    }
    if line_hit(b, line, false, false) {
        let i = choose|i: int| 0 <= i < b.len() && text_match(#[trigger] b[i], line);
        assert(text_match(ab[a.len() + i], line));
    }
    if line_hit(ab, line, false, false) {
        let i = choose|i: int| 0 <= i < ab.len() && text_match(#[trigger] ab[i], line);
        if i < a.len() {
            assert(text_match(a[i], line));
        } else {
            assert(text_match(b[i - a.len()], line));
        }
    }
    if line_hit(a, line, true, false) && line_hit(b, line, true, false) {
        assert forall|i: int| 0 <= i < ab.len() implies text_match(#[trigger] ab[i], line) by {
            if i < a.len() {
                assert(text_match(a[i], line));
            } else {
                assert(text_match(b[i - a.len()], line));
            }
        }
    }
    if line_hit(ab, line, true, false) {
        assert forall|i: int| 0 <= i < a.len() implies text_match(#[trigger] a[i], line) by {
            assert(text_match(ab[i], line));
        }
        assert forall|i: int| 0 <= i < b.len() implies text_match(#[trigger] b[i], line) by {
            assert(text_match(ab[a.len() + i], line));
        }
    }
    let one = seq![p];
    assert(one[0] == p);
    if text_match(p, line) {
        assert(text_match(one[0], line));
    }
}

proof fn lemma_hits_counted(
    lines: Seq<Seq<char>>,
    patterns: Seq<Seq<char>>,
    opts: FindOptions,
    n: int,
)
    requires
        0 <= n <= lines.len(),
    ensures
        hit_count(hits_of(lines, patterns, opts), n) == lines.take(n).filter(
            |l: Seq<char>| line_hit(patterns, l, opts.all_match, opts.invert),
        ).len(),
    decreases n,
{
    reveal(Seq::filter);
    if n > 0 {
        lemma_hits_counted(lines, patterns, opts, n - 1);
        assert(lines.take(n).drop_last() =~= lines.take(n - 1));
        assert(lines.take(n).last() == lines[n - 1]);
        assert(hits_of(lines, patterns, opts)[n - 1] == line_hit(
            patterns,
            lines[n - 1],
            opts.all_match,
            opts.invert,
        ));
    }
}

/// A search counts the lines looked for, each once.
pub proof fn law_lines_looked_for_are_counted(
    lines: Seq<Seq<char>>,
    patterns: Seq<Seq<char>>,
    opts: FindOptions,
)
    ensures
        hit_count(hits_of(lines, patterns, opts), lines.len() as int) == lines.filter(
            |l: Seq<char>| line_hit(patterns, l, opts.all_match, opts.invert),
        ).len(),
        opts.count_only ==> search_output(lines, patterns, None, opts) == dec(
            lines.filter(
                |l: Seq<char>| line_hit(patterns, l, opts.all_match, opts.invert),
            ).len(),
        ) + seq!['\n'],
{
    lemma_hits_counted(lines, patterns, opts, lines.len() as int);
    assert(lines.take(lines.len() as int) =~= lines);
    let n = hit_count(hits_of(lines, patterns, opts), lines.len() as int);
    assert(shown_count(None, n) =~= dec(n) + seq!['\n']);
}

/// A line of output is the line; before it stands its number where that is shown, and before
/// that the name of its file, each with `:` behind it for a line looked for and `-` for one
/// around it.
pub proof fn law_lines_are_shown_with_their_place(
    name: Seq<char>,
    number: Option<nat>,
    n: nat,
    text: Seq<char>,
)
    ensures
        shown_line(None, None, text, false) == text + seq!['\n'],
        shown_line(None, None, text, true) == text + seq!['\n'],
        shown_line(None, Some(n), text, false) == dec(n) + seq![':'] + text + seq!['\n'],
        shown_line(None, Some(n), text, true) == dec(n) + seq!['-'] + text + seq!['\n'],
        shown_line(Some(name), number, text, false) == name + seq![':'] + shown_line(
            None,
            number,
            text,
            false,
        ),
        shown_line(Some(name), number, text, true) == name + seq!['-'] + shown_line(
            None,
            number,
            text,
            true,
        ),
        shown_count(None, n) == dec(n) + seq!['\n'],
        shown_count(Some(name), n) == name + seq![':', ' '] + dec(n) + seq!['\n'],
{
    reveal_strlit(": ");
    assert(shown_line(None, None, text, false) =~= text + seq!['\n']);
    assert(shown_line(None, None, text, true) =~= text + seq!['\n']);
    assert(shown_line(None, Some(n), text, false) =~= dec(n) + seq![':'] + text + seq!['\n']);
    assert(shown_line(None, Some(n), text, true) =~= dec(n) + seq!['-'] + text + seq!['\n']);
    assert(shown_line(Some(name), number, text, false) =~= name + seq![':'] + shown_line(
        None,
        number,
        text,
        false,
    ));
    assert(shown_line(Some(name), number, text, true) =~= name + seq!['-'] + shown_line(
        None,
        number,
        text,
        true,
    ));
    assert(shown_count(None, n) =~= dec(n) + seq!['\n']);
    assert(": "@ =~= seq![':', ' ']);
    assert(shown_count(Some(name), n) =~= name + seq![':', ' '] + dec(n) + seq!['\n']);
}

/// The lines shown are those looked for, and those that stand no further before or behind
/// one of them than asked for: each of them is shown once, in order, with `:` where it is
/// looked for and with its number and `-` where it is not; no other line is shown. `--`
/// stands only where lines were left out between two that are shown, and only where lines
/// around those looked for are asked for.
pub proof fn law_lines_around_hits_are_shown(
    lines: Seq<Seq<char>>,
    hits: Seq<bool>,
    prefix: Option<Seq<char>>,
    opts: FindOptions,
    i: int,
)
    requires
        hits.len() == lines.len(),
        0 <= i < lines.len(),
    ensures
        ({
            let (before, after) = (opts.lines_before as int, opts.lines_after as int);
            let above = shown(lines, hits, prefix, opts, i);
            let here = shown(lines, hits, prefix, opts, i + 1);
            let near = exists|h: int|
                0 <= h < hits.len() && #[trigger] hits[h] && h - before <= i <= h + after;
            &&& !near ==> here == above
            &&& hits[i] ==> near
            &&& near ==> exists|gap: Seq<char>| #![trigger above + gap]
                {
                    &&& here == above + gap + shown_line(
                        prefix,
                        if hits[i] && !opts.numbers {
                            None
                        } else {
                            Some((i + 1) as nat)
                        },
                        lines[i],
                        !hits[i],
                    )
                    &&& gap.len() == 0 || gap == seq!['-', '-', '\n']
                    &&& before == 0 && after == 0 ==> gap.len() == 0
                    &&& i == 0 || above.len() == 0 ==> gap.len() == 0
                    &&& (exists|h: int|
                        0 <= h < hits.len() && #[trigger] hits[h] && h - before <= i - 1 <= h
                            + after) ==> gap.len() == 0
                    &&& (before > 0 || after > 0) && above.len() > 0 && !(exists|h: int|
                        0 <= h < hits.len() && #[trigger] hits[h] && h - before <= i - 1 <= h
                            + after) ==> gap.len() > 0
                }
            &&& shown(lines, hits, prefix, opts, 0).len() == 0
        }),
{
    reveal(is_shown);
    let (before, after) = (opts.lines_before as int, opts.lines_after as int);
    let above = shown(lines, hits, prefix, opts, i);
    lemma_something_shown(lines, hits, prefix, opts, i);
    if hits[i] {
        assert(hits[i] && i - before <= i <= i + after);
    }
    if is_shown(hits, i, before, after) {
        let gapped = (before > 0 || after > 0) && i > 0 && !is_shown(hits, i - 1, before, after)
            && exists|j: int| 0 <= j < i && #[trigger] is_shown(hits, j, before, after);
        let gap = if gapped {
            seq!['-', '-', '\n']
        } else {
            seq![]
        };
        assert(above + gap == above + gap);
    }
}

/// Something is shown of the first lines where, and only where, one of them is shown.
proof fn lemma_something_shown(
    lines: Seq<Seq<char>>,
    hits: Seq<bool>,
    prefix: Option<Seq<char>>,
    opts: FindOptions,
    n: int,
)
    requires
        0 <= n <= lines.len(),
    ensures
        shown(lines, hits, prefix, opts, n).len() > 0 <==> exists|j: int|
            0 <= j < n && #[trigger] is_shown(
                hits,
                j,
                opts.lines_before as int,
                opts.lines_after as int,
            ),
    decreases n,
{
    if n > 0 {
        lemma_something_shown(lines, hits, prefix, opts, n - 1);
    }
}

/// A search without lines around, numbers and names shows the lines looked for, as they are.
pub proof fn law_a_plain_search_shows_the_lines(
    lines: Seq<Seq<char>>,
    patterns: Seq<Seq<char>>,
    opts: FindOptions,
)
    requires
        opts.lines_before == 0,
        opts.lines_after == 0,
        !opts.numbers,
        !opts.count_only,
    ensures
        search_output(lines, patterns, None, opts) == joined(
            lines.filter(|l: Seq<char>| line_hit(patterns, l, opts.all_match, opts.invert)),
        ),
{
    lemma_plain_search(lines, patterns, opts, lines.len() as int);
    assert(lines.take(lines.len() as int) =~= lines);
}

proof fn lemma_plain_search(
    lines: Seq<Seq<char>>,
    patterns: Seq<Seq<char>>,
    opts: FindOptions,
    n: int,
)
    requires
        0 <= n <= lines.len(),
        opts.lines_before == 0,
        opts.lines_after == 0,
        !opts.numbers,
    ensures
        shown(lines, hits_of(lines, patterns, opts), None, opts, n) == joined(
            lines.take(n).filter(
                |l: Seq<char>| line_hit(patterns, l, opts.all_match, opts.invert),
            ),
        ),
    decreases n,
{
    reveal(Seq::filter);
    let hits = hits_of(lines, patterns, opts);
    let want = |l: Seq<char>| line_hit(patterns, l, opts.all_match, opts.invert);
    if n > 0 {
        lemma_plain_search(lines, patterns, opts, n - 1);
        assert(lines.take(n).drop_last() =~= lines.take(n - 1));
        assert(lines.take(n).last() == lines[n - 1]);
        law_without_context_only_hits_are_shown(hits, n - 1);
        assert(hits[n - 1] == want(lines[n - 1]));
        if hits[n - 1] {
            lemma_joined_push(lines.take(n - 1).filter(want), lines[n - 1]);
            assert(shown(lines, hits, None, opts, n) =~= joined(
                lines.take(n - 1).filter(want),
            ) + lines[n - 1] + seq!['\n']);
        }
    }
}

/// Several files are searched one by one: where all can be searched, what is shown is what
/// is shown of each, in order, under its name, and the lines found are those of all.
pub proof fn law_files_are_searched_one_by_one(
    inputs: Seq<SearchInput>,
    patterns: Seq<Seq<char>>,
    opts: FindOptions,
    on_error: OnError,
    n: int,
)
    requires
        0 < n <= inputs.len(),
        search_state(inputs, patterns, opts, on_error, n - 1).failed is None,
    ensures
        ({
            let st = search_state(inputs, patterns, opts, on_error, n - 1);
            let next = search_state(inputs, patterns, opts, on_error, n);
            let input = inputs[n - 1];
            let name = if inputs.len() > 1 {
                Some(input.name@)
            } else {
                None
            };
            let found = match input.content {
                Ok(bytes) => file_search(bytes@, patterns, name, opts),
                Err(m) => Err(m@),
            };
            match found {
                Ok((shown, count)) => {
                    &&& next.out == st.out + shown
                    &&& next.total == st.total + count
                    &&& next.searched == st.searched + 1
                    &&& next.warnings == st.warnings
                    &&& next.failed is None
                },
                Err(e) => {
                    &&& next.out == st.out
                    &&& next.total == st.total
                    &&& next.searched == st.searched
                    &&& on_error == OnError::Warn && inputs.len() > 1 ==> next.failed is None
                        && next.warnings == st.warnings.push(
                        "find: cannot search "@ + input.name@ + ": "@ + e,
                    )
                    &&& on_error == OnError::Fail || inputs.len() == 1 ==> next.warnings
                        == st.warnings && next.failed == Some(
                        "find: cannot search "@ + input.name@ + ": "@ + e,
                    )
                },
            }
        }),
        ({
            let start = search_state(inputs, patterns, opts, on_error, 0);
            start.out.len() == 0 && start.warnings.len() == 0 && start.total == 0
                && start.searched == 0 && start.failed is None
        }),
{
}

/// A search that succeeds searched at least one file where there are any; each file that it
/// did not search has a warning. Its number of lines is that of all files together.
pub proof fn law_a_search_accounts_for_every_file(
    r: Result<FindResult, String>,
    out: (Seq<char>, Seq<char>),
    warnings: (Seq<Seq<char>>, Seq<Seq<char>>),
    inputs: Seq<SearchInput>,
    patterns: Seq<Seq<char>>,
    opts: FindOptions,
    on_error: OnError,
)
    requires
        is_search(r, out, warnings, inputs, patterns, opts, on_error),
        r is Ok,
    ensures
        ({
            let n = inputs.len() as int;
            let st = search_state(inputs, effective_all(patterns, opts), opts, on_error, n);
            &&& st.searched + (warnings.1.len() - warnings.0.len()) == n
            &&& n > 0 ==> st.searched > 0
            &&& st.total <= usize::MAX ==> r->Ok_0.total_matches == st.total
            &&& on_error == OnError::Fail ==> st.searched == n
            &&& out.1 == out.0 + st.out + (if opts.count_only && n > 1 {
                "total: "@ + dec(r->Ok_0.total_matches as nat) + seq!['\n']
            } else {
                seq![]
            })
        }),
{
    lemma_files_counted(
        inputs,
        effective_all(patterns, opts),
        opts,
        on_error,
        inputs.len() as int,
    );
    lemma_no_warnings(inputs, effective_all(patterns, opts), opts, inputs.len() as int);
}

proof fn lemma_files_counted(
    inputs: Seq<SearchInput>,
    patterns: Seq<Seq<char>>,
    opts: FindOptions,
    on_error: OnError,
    n: int,
)
    requires
        0 <= n <= inputs.len(),
    ensures
        ({
            let st = search_state(inputs, patterns, opts, on_error, n);
            st.failed is None ==> st.searched + st.warnings.len() == n
        }),
    decreases n,
{
    if n > 0 {
        lemma_files_counted(inputs, patterns, opts, on_error, n - 1);
    }
}

/// A path stands for itself where it is a file and no glob. A glob, and a directory with a
/// separate glob, stands for the files that it selects, of which there must be some; a
/// directory alone stands for nothing. What could not be read is an error or is warned of.
pub proof fn law_paths_stand_for_files(p: PathSpec, glob: Option<Seq<char>>, on_error: OnError)
    ensures
        ({
            let (r, w) = expand_spec(p, glob, on_error);
            let spec = p.spec@;
            let failed = on_error == OnError::Fail && first_access_error(p.entries@, 0) is Some;
            let picked = |g: Seq<char>|
                p.entries@.filter(
                    |e: WalkEntry|
                        e is Found && e->kind == crate::walk::EntryKind::File
                            && crate::glob::glob_match(g, e->rel@),
                ).map_values(|e: WalkEntry| e->path@);
            let walked = |g: Seq<char>|
                {
                    &&& r is Ok <==> !failed && picked(g).len() > 0
                    &&& r matches Ok(paths) ==> paths == picked(g)
                    &&& on_error == OnError::Fail ==> w.len() == 0
                    &&& on_error == OnError::Warn ==> w == access_warnings(p.entries@, "find"@)
                };
            &&& !glob_like(spec) && !p.is_dir ==> r == Ok::<Seq<Seq<char>>, Seq<char>>(seq![spec])
                && w.len() == 0
            &&& glob is None && !glob_like(spec) && p.is_dir ==> r is Err && w.len() == 0
            &&& glob is Some && glob_like(spec) ==> r is Err && w.len() == 0
            &&& glob is None && glob_like(spec) && glob_error(spec) is Some ==> r is Err
            &&& glob is None && glob_like(spec) && glob_error(spec) is None ==> walked(spec)
            &&& glob is Some && !glob_like(spec) && p.is_dir ==> walked(glob->0)
        }),
{
    crate::walk::law_globs_select_files(p.entries@, p.spec@);
    match glob {
        Some(g) => crate::walk::law_globs_select_files(p.entries@, g),
        None => {},
    }
}

/// Several paths stand for what each stands for, one behind the other; the first that is an
/// error is the error of all.
pub proof fn law_paths_are_expanded_one_by_one(
    specs: Seq<PathSpec>,
    glob: Option<Seq<char>>,
    on_error: OnError,
    n: int,
)
    requires
        0 < n <= specs.len(),
    ensures
        expansion(specs, glob, on_error, 0) == (
            Ok::<Seq<Seq<char>>, Seq<char>>(seq![]),
            Seq::<Seq<char>>::empty(),
        ),
        match expansion(specs, glob, on_error, n - 1) {
            (Ok(paths), w) => {
                let (r1, w1) = expand_spec(specs[n - 1], glob, on_error);
                let (r, w2) = expansion(specs, glob, on_error, n);
                &&& w2 == w + w1
                &&& r1 matches Ok(more) ==> r == Ok::<Seq<Seq<char>>, Seq<char>>(paths + more)
                &&& r1 matches Err(m) ==> r == Err::<Seq<Seq<char>>, Seq<char>>(m)
            },
            (Err(m), w) => expansion(specs, glob, on_error, n) == (
                Err::<Seq<Seq<char>>, Seq<char>>(m),
                w,
            ),
        },
{
}

/// The glob suggested for a directory stands for all that it holds: `./` before it and
/// separators behind it do not count, and the current directory stands for everything.
pub proof fn law_suggested_globs_stand_for_what_a_directory_holds(dir: Seq<char>)
    requires
        dir.len() > 0,
        dir.last() != '/',
        dir.last() != '\\',
        dir[0] != '.',
    ensures
        suggested_glob(dir) == dir + "/**"@,
        suggested_glob(dir.push('/')) == suggested_glob(dir),
        suggested_glob(dir.push('\\')) == suggested_glob(dir),
        suggested_glob("./"@ + dir) == suggested_glob(dir),
        suggested_glob("."@) == "**"@,
        suggested_glob("./"@) == "**"@,
        suggested_glob(seq![]) == "**"@,
{
    reveal_strlit("./");
    reveal_strlit(".\\");
    reveal_strlit(".");
    let none = Seq::<char>::empty();
    let (a, b, c) = (dir.push('/'), dir.push('\\'), "./"@ + dir);
    assert(dir.take(2)[0] == dir[0] || dir.len() < 2);
    assert(a[0] == dir[0] && a.take(2)[0] == a[0] && a.drop_last() =~= dir);
    assert(b[0] == dir[0] && b.take(2)[0] == b[0] && b.drop_last() =~= dir);
    assert(c.take(2) =~= "./"@ && c.skip(2) =~= dir);
    assert(without_separators(dir) == dir);
    assert(without_separators(a) == dir);
    assert(without_separators(b) == dir);
    assert(dir != "."@) by {
        assert("."@[0] == '.');
    }
    assert("."@.len() == 1 && "."@.last() == '.');
    assert(without_separators("."@) == "."@);
    assert("./"@.take(2) =~= "./"@ && "./"@.skip(2) =~= none);
    assert(without_separators(none) == none);
}

} // verus!
