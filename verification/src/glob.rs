//! Path globs, by the `globset` crate.

use vstd::prelude::*;
use vstd::string::*;

use crate::text::chars_of;

verus! {

/// The greatest number of characters of a glob: in UTF-8 it is below two gigabytes, which
/// is what its states are numbered up to.
pub const MAX_GLOB_LEN: usize = 500000000;

/// The greatest depth to which the alternates of a glob nest; each level takes stack.
pub const MAX_GLOB_DEPTH: usize = 1000;

/// `globset::GlobSet`, a set of compiled globs; here it holds one.
#[verifier::external_type_specification]
#[verifier::external_body]
pub struct ExGlobSet(globset::GlobSet);

/// The pattern of the one glob that a set holds.
pub uninterp spec fn glob_pattern(m: globset::GlobSet) -> Seq<char>;

/// The message for a pattern that cannot be compiled; `None` where it can.
pub uninterp spec fn globset_error(pattern: Seq<char>) -> Option<Seq<char>>;

/// Whether a glob matches a path.
pub uninterp spec fn glob_match(pattern: Seq<char>, path: Seq<char>) -> bool;

/// The position of the first `]` from `i` on; the length where there is none.
pub open spec fn bracket_pos(s: Seq<char>, i: int) -> int
    decreases s.len() - i,
{
    if i < 0 || i >= s.len() {
        s.len() as int
    } else if s[i] == ']' {
        i
    } else {
        bracket_pos(s, i + 1)
    }
}

/// Where the characters of the class that begins at `i` are read from for the `]` that
/// closes it: behind its `[`, a `!` or `^`, and a `]` that stands first.
pub open spec fn class_body(s: Seq<char>, i: int) -> int {
    let j = if i + 1 < s.len() && (s[i + 1] == '!' || s[i + 1] == '^') {
        i + 2
    } else {
        i + 1
    };
    if j < s.len() && s[j] == ']' {
        j + 1
    } else {
        j
    }
}

/// How deep the closed alternates of a glob nest from position `i` on, where `open` gives,
/// for each that is open there, how deep those closed in it nest. `escapes` says whether
/// `\` takes the meaning of the character behind it.
pub open spec fn depth_from(s: Seq<char>, i: int, escapes: bool, open: Seq<nat>) -> nat
    decreases s.len() - i,
{
    if i < 0 || i >= s.len() {
        0
    } else if s[i] == '{' {
        depth_from(s, i + 1, escapes, open.push(0))
    } else if s[i] == '}' {
        if open.len() == 0 {
            0
        } else {
            let d = open.last() + 1;
            let rest = depth_from(s, i + 1, escapes, closed(open));
            if rest > d {
                rest
            } else {
                d
            }
        }
    } else if s[i] == '[' {
        let j = bracket_pos(s, class_body(s, i)) + 1;
        if i < j <= s.len() {
            depth_from(s, j, escapes, open)
        } else {
            0
        }
    } else if s[i] == '\\' && escapes {
        if i + 2 <= s.len() {
            depth_from(s, i + 2, escapes, open)
        } else {
            0
        }
    } else {
        depth_from(s, i + 1, escapes, open)
    }
}

/// The open alternates after the innermost of them is closed.
pub open spec fn closed(open: Seq<nat>) -> Seq<nat> {
    let d = open.last() + 1;
    let outer = open.drop_last();
    if outer.len() > 0 && outer.last() < d {
        outer.drop_last().push(d)
    } else {
        outer
    }
}

/// A pattern is small enough to be compiled: not too long, and with alternates that do not
/// nest too deep, whether or not `\` escapes on the platform.
pub open spec fn glob_fits(pattern: Seq<char>) -> bool {
    &&& pattern.len() <= MAX_GLOB_LEN
    &&& depth_from(pattern, 0, true, seq![]) <= MAX_GLOB_DEPTH
    &&& depth_from(pattern, 0, false, seq![]) <= MAX_GLOB_DEPTH
}

/// The message for a pattern that is no glob, or too large for one; `None` where it is
/// one.
pub open spec fn glob_error(pattern: Seq<char>) -> Option<Seq<char>> {
    if glob_fits(pattern) {
        globset_error(pattern)
    } else {
        Some("glob is too long or too deeply nested"@)
    }
}

/// `globset::Glob::new` reads a pattern, and `globset::GlobSetBuilder::build` compiles
/// the set that holds it alone; whether they can, and the message where they cannot,
/// depend on the pattern alone. The pattern is bounded, since nested alternates take stack
/// and compiling a literal of more than two gigabytes panics.
#[verifier::external_body]
fn build_glob(pattern: &str) -> (r: Result<globset::GlobSet, String>)
    requires
        glob_fits(pattern@),
    ensures
        match r {
            Ok(m) => globset_error(pattern@) is None && glob_pattern(m) == pattern@,
            Err(e) => globset_error(pattern@) == Some(e@),
        },
{
    let glob = globset::Glob::new(pattern).map_err(|e| e.to_string())?;
    globset::GlobSetBuilder::new().add(glob).build().map_err(|e| e.to_string())
}

/// `globset::GlobSet::is_match` tells whether a glob matches a path, given as
/// text; it depends on the two alone (and on what separates the components of a
/// path on the platform).
#[verifier::external_body]
pub(crate) fn glob_matches(m: &globset::GlobSet, path: &str) -> (r: bool)
    ensures
        r == glob_match(glob_pattern(*m), path@),
{
    m.is_match(path)
}

/// The position behind the class that begins at `i`.
fn behind_class(v: &Vec<char>, i: usize) -> (r: usize)
    requires
        i < v@.len(),
    ensures
        i < r <= v@.len(),
        r == v@.len() || r == bracket_pos(v@, class_body(v@, i as int)) + 1,
        r == v@.len() ==> bracket_pos(v@, class_body(v@, i as int)) + 1 >= r,
{
    let n: usize = v.len();
    let mut j: usize = i + 1;
    if j < n && (v[j] == '!' || v[j] == '^') {
        j = j + 1;
    }
    if j < n && v[j] == ']' {
        j = j + 1;
    }
    let ghost from = j as int;
    proof {
        assert(from == class_body(v@, i as int));
    }
    while j < n && v[j] != ']'
        invariant
            n == v@.len(),
            i < j <= n,
            bracket_pos(v@, j as int) == bracket_pos(v@, from),
        decreases n - j,
    {
        j = j + 1;
    }
    if j < n {
        j + 1
    } else {
        n
    }
}

/// Open alternates as numbers.
spec fn depths(v: Seq<usize>) -> Seq<nat> {
    v.map_values(|d: usize| d as nat)
}

/// How deep the closed alternates of a glob nest.
fn depth(v: &Vec<char>, escapes: bool) -> (r: usize)
    ensures
        r == depth_from(v@, 0, escapes, seq![]),
{
    let n: usize = v.len();
    let mut open: Vec<usize> = Vec::new();
    let mut deepest: usize = 0;
    let mut i: usize = 0;
    proof {
        assert(depths(open@) =~= seq![]);
    }
    let ghost whole = depth_from(v@, 0, escapes, seq![]);
    while i < n
        invariant
            n == v@.len(),
            i <= n,
            deepest <= i,
            whole == depth_from(v@, 0, escapes, seq![]),
            forall|k: int| 0 <= k < open@.len() ==> #[trigger] open@[k] <= i,
            ({
                let rest = depth_from(v@, i as int, escapes, depths(open@));
                whole == (if rest > deepest {
                    rest
                } else {
                    deepest as nat
                })
            }),
        decreases n - i,
    {
        let ghost had = depths(open@);
        if v[i] == '{' {
            open.push(0);
            proof {
                assert(depths(open@) =~= had.push(0));
            }
            i = i + 1;
        } else if v[i] == '}' {
            match open.pop() {
                None => {
                    proof {
                        assert(had.len() == 0);
                    }
                    return deepest;
                },
                Some(inner) => {
                    let d: usize = inner + 1;
                    let k: usize = open.len();
                    proof {
                        assert(had.last() == inner);
                        assert(depths(open@) =~= had.drop_last());
                    }
                    if k > 0 && open[k - 1] < d {
                        open.set(k - 1, d);
                        proof {
                            assert(depths(open@) =~= had.drop_last().drop_last().push(d as nat));
                        }
                    }
                    proof {
                        assert(depths(open@) =~= closed(had));
                    }
                    if deepest < d {
                        deepest = d;
                    }
                },
            }
            i = i + 1;
        } else if v[i] == '[' {
            let j: usize = behind_class(v, i);
            proof {
                assert(j == n ==> depth_from(v@, j as int, escapes, had) == 0);
            }
            i = j;
        } else if v[i] == '\\' && escapes {
            i = if n - i > 2 {
                i + 2
            } else {
                n
            };
        } else {
            i = i + 1;
        }
    }
    deepest
}

/// Whether a pattern is small enough to be compiled.
fn fits(pattern: &str) -> (r: bool)
    ensures
        r == glob_fits(pattern@),
{
    let v = chars_of(pattern);
    v.len() <= MAX_GLOB_LEN && depth(&v, true) <= MAX_GLOB_DEPTH && depth(&v, false)
        <= MAX_GLOB_DEPTH
}

/// Compile a glob.
pub fn compile_glob(pattern: &str) -> (r: Result<globset::GlobSet, String>)
    ensures
        match r {
            Ok(m) => glob_error(pattern@) is None && glob_pattern(m) == pattern@,
            Err(e) => glob_error(pattern@) == Some(e@),
        },
{
    if fits(pattern) {
        build_glob(pattern)
    } else {
        Err("glob is too long or too deeply nested".to_owned())
    }
}

// ── Laws ────────────────────────────────────────────────────────────────────

/// The number of `{` from position `i` on.
spec fn opened(s: Seq<char>, i: int) -> nat
    decreases s.len() - i,
{
    if i < 0 || i >= s.len() {
        0
    } else {
        opened(s, i + 1) + (if s[i] == '{' {
            1nat
        } else {
            0
        })
    }
}

proof fn lemma_opened_later(s: Seq<char>, i: int, j: int)
    requires
        0 <= i <= j,
    ensures
        opened(s, j) <= opened(s, i),
    decreases j - i,
{
    if i < j {
        lemma_opened_later(s, i + 1, j);
    }
}

proof fn lemma_opened_counted(s: Seq<char>)
    ensures
        opened(s, 0) == s.to_multiset().count('{'),
    decreases s.len(),
{
    broadcast use vstd::seq_lib::group_to_multiset_ensures;

    if s.len() > 0 {
        let t = s.drop_last();
        lemma_opened_counted(t);
        lemma_opened_push(t, s.last(), 0);
        assert(s =~= t.push(s.last()));
        assert(s.to_multiset() =~= t.to_multiset().insert(s.last()));
    } else {
        assert(s =~= Seq::<char>::empty());
    }
}

proof fn lemma_opened_push(t: Seq<char>, c: char, i: int)
    requires
        0 <= i <= t.len(),
    ensures
        opened(t.push(c), i) == opened(t, i) + (if c == '{' {
            1nat
        } else {
            0
        }),
    decreases t.len() - i,
{
    if i < t.len() {
        lemma_opened_push(t, c, i + 1);
    } else {
        assert(opened(t.push(c), i + 1) == 0);
    }
}

proof fn lemma_bracket_pos(s: Seq<char>, i: int)
    requires
        0 <= i,
    ensures
        bracket_pos(s, i) <= s.len(),
        i <= s.len() ==> i <= bracket_pos(s, i),
    decreases s.len() - i,
{
    if i < s.len() && s[i] != ']' {
        lemma_bracket_pos(s, i + 1);
    }
}

proof fn lemma_depth_bound(s: Seq<char>, i: int, escapes: bool, open: Seq<nat>, bound: nat)
    requires
        0 <= i,
        forall|j: int| 0 <= j < open.len() ==> (#[trigger] open[j]) + j + 1 <= bound,
    ensures
        depth_from(s, i, escapes, open) <= bound + opened(s, i),
    decreases s.len() - i,
{
    if i < s.len() {
        if s[i] == '{' {
            let next = open.push(0);
            assert forall|j: int| 0 <= j < next.len() implies (#[trigger] next[j]) + j + 1 <= bound
                + 1 by {
                if j < open.len() {
                    assert(next[j] == open[j]);
                } else if j > 0 {
                    assert(open[j - 1] + (j - 1) + 1 <= bound);
                }
            }
            lemma_depth_bound(s, i + 1, escapes, next, bound + 1);
        } else if s[i] == '}' {
            if open.len() > 0 {
                let next = closed(open);
                assert(open[open.len() - 1] + open.len() <= bound);
                assert forall|j: int| 0 <= j < next.len() implies (#[trigger] next[j]) + j + 1
                    <= bound by {
                    assert(open[j] + j + 1 <= bound);
                }
                lemma_depth_bound(s, i + 1, escapes, next, bound);
            }
        } else if s[i] == '[' {
            let j = bracket_pos(s, class_body(s, i)) + 1;
            if i < j <= s.len() {
                lemma_depth_bound(s, j, escapes, open, bound);
                lemma_opened_later(s, i, j);
            }
        } else if s[i] == '\\' && escapes {
            if i + 2 <= s.len() {
                lemma_depth_bound(s, i + 2, escapes, open, bound);
                lemma_opened_later(s, i, i + 2);
            }
        } else {
            lemma_depth_bound(s, i + 1, escapes, open, bound);
        }
    }
}

/// Only a pattern that is too long, or opens too many alternates, can be refused for its size;
/// any other is a glob where, and only where, it can be compiled.
pub proof fn law_ordinary_patterns_are_compiled(pattern: Seq<char>)
    requires
        pattern.len() <= MAX_GLOB_LEN,
        pattern.to_multiset().count('{') <= MAX_GLOB_DEPTH,
    ensures
        glob_error(pattern) == globset_error(pattern),
{
    lemma_opened_counted(pattern);
    lemma_depth_bound(pattern, 0, true, seq![], 0);
    lemma_depth_bound(pattern, 0, false, seq![], 0);
}

} // verus!
