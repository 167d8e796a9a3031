//! The line structure of a text: which line endings it has, and how many lines.

use vstd::prelude::*;
use vstd::string::*;

use crate::encoding::{ending_text, text_lf_to, LineEnding};
use crate::text::chars_of;

verus! {

/// A census of the line endings of a text.
#[derive(Debug, Clone, Copy, PartialEq, Eq, Structural)]
pub struct TextLayout {
    /// The number of LF that follow no CR.
    pub lf: u64,
    /// The number of CR LF.
    pub crlf: u64,
    /// The number of CR that no LF follows.
    pub cr: u64,
    /// The number of lines; a line ending at the very end begins no further one.
    pub line_count: u64,
    /// Whether there is an LF that follows no CR.
    pub has_lf: bool,
    /// Whether there is a CR LF.
    pub has_crlf: bool,
    /// Whether there is a CR that no LF follows.
    pub has_cr: bool,
}

/// How many line endings of each kind there are.
pub struct Census {
    /// LF that follow no CR.
    pub lf: nat,
    /// CR LF.
    pub crlf: nat,
    /// CR that no LF follows.
    pub cr: nat,
}

/// The census of a text.
pub open spec fn census(s: Seq<char>) -> Census
    decreases s.len(),
{
    if s.len() == 0 {
        Census { lf: 0, crlf: 0, cr: 0 }
    } else if s[0] == '\r' && s.len() > 1 && s[1] == '\n' {
        let rest = census(s.skip(2));
        Census { crlf: rest.crlf + 1, ..rest }
    } else if s[0] == '\r' {
        let rest = census(s.skip(1));
        Census { cr: rest.cr + 1, ..rest }
    } else if s[0] == '\n' {
        let rest = census(s.skip(1));
        Census { lf: rest.lf + 1, ..rest }
    } else {
        census(s.skip(1))
    }
}

/// The number of lines of a text: its line endings, and one more where the text
/// does not end in one.
pub open spec fn lines_of(s: Seq<char>) -> nat {
    let c = census(s);
    c.lf + c.crlf + c.cr + (if s.len() > 0 && s.last() != '\n' && s.last() != '\r' {
        1nat
    } else {
        0nat
    })
}

impl TextLayout {
    /// The layout of a text.
    pub open spec fn describes(self, s: Seq<char>) -> bool {
        let c = census(s);
        &&& self.lf == c.lf
        &&& self.crlf == c.crlf
        &&& self.cr == c.cr
        &&& self.line_count == lines_of(s)
        &&& self.has_lf == (c.lf > 0)
        &&& self.has_crlf == (c.crlf > 0)
        &&& self.has_cr == (c.cr > 0)
    }

    /// There is more than one kind of line ending.
    pub open spec fn mixed(self) -> bool {
        (self.lf > 0 && self.crlf > 0) || (self.lf > 0 && self.cr > 0) || (self.crlf > 0 && self.cr
            > 0)
    }

    /// The number of line endings of all kinds.
    pub open spec fn total(self) -> nat {
        (self.lf + self.crlf + self.cr) as nat
    }

    /// The same lines, each line ending replaced by `target`.
    pub open spec fn projection(self, target: LineEnding) -> TextLayout {
        let n = self.total() as u64;
        TextLayout {
            lf: if target == LineEnding::Lf {
                n
            } else {
                0
            },
            crlf: if target == LineEnding::CrLf {
                n
            } else {
                0
            },
            cr: if target == LineEnding::Cr {
                n
            } else {
                0
            },
            line_count: self.line_count,
            has_lf: target == LineEnding::Lf && n > 0,
            has_crlf: target == LineEnding::CrLf && n > 0,
            has_cr: target == LineEnding::Cr && n > 0,
        }
    }

    /// The census of a text.
    pub fn analyze(text: &str) -> (r: TextLayout)
        ensures
            r.describes(text@),
            r.total() <= usize::MAX,
    {
        let v = chars_of(text);
        let mut lf: u64 = 0;
        let mut crlf: u64 = 0;
        let mut cr: u64 = 0;
        let mut i: usize = 0;
        let len: usize = v.len();
        proof {
            assert(v@.skip(0) =~= v@);
        }
        while i < len
            invariant
                len == v@.len(),
                i <= len,
                lf + crlf + cr <= i,
                ({
                    let c = census(v@);
                    let rest = census(v@.skip(i as int));
                    c.lf == lf + rest.lf && c.crlf == crlf + rest.crlf && c.cr == cr + rest.cr
                }),
            decreases len - i,
        {
            proof {
                assert(v@.skip(i as int).skip(1) =~= v@.skip(i + 1));
                if i + 1 < len {
                    assert(v@.skip(i as int).skip(2) =~= v@.skip(i + 2));
                }
            }
            let c: char = v[i];
            if c == '\r' {
                if len - i > 1 && v[i + 1] == '\n' {
                    crlf = crlf + 1;
                    i = i + 2;
                } else {
                    cr = cr + 1;
                    i = i + 1;
                }
            } else {
                if c == '\n' {
                    lf = lf + 1;
                }
                i = i + 1;
            }
        }
        proof {
            lemma_census_bound(v@);
        }
        let open_line: u64 = if len > 0 && v[len - 1] != '\n' && v[len - 1] != '\r' {
            1
        } else {
            0
        };
        TextLayout {
            lf,
            crlf,
            cr,
            line_count: lf + crlf + cr + open_line,
            has_lf: lf > 0,
            has_crlf: crlf > 0,
            has_cr: cr > 0,
        }
    }

    /// Whether there is more than one kind of line ending.
    pub fn is_mixed(&self) -> (r: bool)
        ensures
            r == self.mixed(),
    {
        (self.lf > 0 && self.crlf > 0) || (self.lf > 0 && self.cr > 0) || (self.crlf > 0 && self.cr
            > 0)
    }

    /// The number of line endings of all kinds.
    pub fn terminators(&self) -> (r: u64)
        requires
            self.total() <= u64::MAX,
        ensures
            r == self.total(),
    {
        self.lf + self.crlf + self.cr
    }

    /// `none` without line endings, `uniform` with one kind, `mixed` with more.
    pub open spec fn uniformity_spec(self) -> Seq<char> {
        if self.lf == 0 && self.crlf == 0 && self.cr == 0 {
            "none"@
        } else if self.mixed() {
            "mixed"@
        } else {
            "uniform"@
        }
    }

    /// `none` without line endings, `uniform` with one kind, `mixed` with more.
    pub fn uniformity(&self) -> (r: &'static str)
        ensures
            r@ == self.uniformity_spec(),
    {
        if self.lf == 0 && self.crlf == 0 && self.cr == 0 {
            "none"
        } else if self.is_mixed() {
            "mixed"
        } else {
            "uniform"
        }
    }

    /// The same lines, each line ending replaced by `target`.
    pub fn projected_onto(&self, target: LineEnding) -> (r: TextLayout)
        requires
            self.total() <= u64::MAX,
        ensures
            r == self.projection(target),
    {
        let n: u64 = self.terminators();
        TextLayout {
            lf: if target == LineEnding::Lf {
                n
            } else {
                0
            },
            crlf: if target == LineEnding::CrLf {
                n
            } else {
                0
            },
            cr: if target == LineEnding::Cr {
                n
            } else {
                0
            },
            line_count: self.line_count,
            has_lf: target == LineEnding::Lf && n > 0,
            has_crlf: target == LineEnding::CrLf && n > 0,
            has_cr: target == LineEnding::Cr && n > 0,
        }
    }
}

impl Default for TextLayout {
    fn default() -> (r: Self)
        ensures
            r.describes(seq![]),
    {
        TextLayout {
            lf: 0,
            crlf: 0,
            cr: 0,
            line_count: 0,
            has_lf: false,
            has_crlf: false,
            has_cr: false,
        }
    }
}

proof fn lemma_census_bound(s: Seq<char>)
    ensures
        s.len() > 0 && s.last() != '\n' && s.last() != '\r' ==> census(s).lf + census(s).crlf
            + census(s).cr < s.len(),
        census(s).lf + census(s).crlf + census(s).cr <= s.len(),
    decreases s.len(),
{
    if s.len() > 0 {
        if s.len() > 1 {
            assert(s.skip(1).last() == s.last());
            if s.len() > 2 {
                assert(s.skip(2).last() == s.last());
            }
        }
        lemma_census_bound(s.skip(1));
        if s.len() > 1 {
            lemma_census_bound(s.skip(2));
        }
    }
}

// ── Laws ────────────────────────────────────────────────────────────────────

/// A text without CR.
pub open spec fn lacks_cr(s: Seq<char>) -> bool {
    forall|i: int| 0 <= i < s.len() ==> #[trigger] s[i] != '\r'
}

proof fn lemma_census_converted(s: Seq<char>, target: LineEnding)
    requires
        lacks_cr(s),
    ensures
        ({
            let n = census(s).lf;
            let c = census(text_lf_to(s, target));
            &&& census(s).crlf == 0 && census(s).cr == 0
            &&& c.lf == (if target == LineEnding::Lf { n } else { 0 })
            &&& c.crlf == (if target == LineEnding::CrLf { n } else { 0 })
            &&& c.cr == (if target == LineEnding::Cr { n } else { 0 })
        }),
        target == LineEnding::Cr ==> (forall|i: int|
            0 <= i < text_lf_to(s, target).len() ==> #[trigger] text_lf_to(s, target)[i] != '\n'),
        text_lf_to(s, target).len() > 0 <==> s.len() > 0,
        s.len() > 0 ==> (text_lf_to(s, target).last() == (if s.last() == '\n' {
            ending_text(target).last()
        } else {
            s.last()
        })),
    decreases s.len(),
{
    if s.len() > 0 {
        let rest = s.skip(1);
        assert(lacks_cr(rest)) by {
            assert forall|i: int| 0 <= i < rest.len() implies #[trigger] rest[i] != '\r' by {
                assert(rest[i] == s[i + 1]);
            }
        }
        lemma_census_converted(rest, target);
        let all = text_lf_to(s, target);
        let tail = text_lf_to(rest, target);
        assert(s[0] != '\r');
        if s[0] == '\n' {
            if target == LineEnding::CrLf {
                assert(all.skip(2) =~= tail);
            } else {
                assert(all.skip(1) =~= tail);
                if target == LineEnding::Cr && tail.len() > 0 {
                    assert(all[1] == tail[0]);
                }
            }
        } else {
            assert(all.skip(1) =~= tail);
        }
        if s.len() == 1 {
            assert(tail =~= seq![]);
        } else {
            assert(rest.last() == s.last());
            assert(all.last() == tail.last());
        }
    }
}

/// The census of a converted text is the projection of the census before.
pub proof fn law_projection_is_the_census_after_conversion(
    s: Seq<char>,
    target: LineEnding,
    before: TextLayout,
    after: TextLayout,
)
    requires
        lacks_cr(s),
        before.describes(s),
        after.describes(text_lf_to(s, target)),
    ensures
        after == before.projection(target),
{
    lemma_census_converted(s, target);
    lemma_census_bound(s);
}

/// For each position, whether CR LF stands there.
pub open spec fn crlf_marks(s: Seq<char>) -> Seq<bool> {
    Seq::new(s.len(), |i: int| s[i] == '\r' && i + 1 < s.len() && s[i + 1] == '\n')
}

/// The census counts every line ending once: CR LF wherever the two stand together, and LF
/// and CR wherever they stand otherwise.
pub proof fn law_census_counts_each_ending_once(s: Seq<char>)
    ensures
        census(s).crlf == crlf_marks(s).to_multiset().count(true),
        census(s).lf + census(s).crlf == s.to_multiset().count('\n'),
        census(s).cr + census(s).crlf == s.to_multiset().count('\r'),
    decreases s.len(),
{
    broadcast use vstd::seq_lib::group_to_multiset_ensures;

    if s.len() > 0 {
        let pair = s[0] == '\r' && s.len() > 1 && s[1] == '\n';
        let n: int = if pair {
            2
        } else {
            1
        };
        let rest = s.skip(n);
        law_census_counts_each_ending_once(rest);
        assert(s =~= s.take(n) + rest);
        vstd::seq_lib::lemma_multiset_commutative(s.take(n), rest);
        let marks = crlf_marks(s);
        assert(marks =~= marks.take(n) + crlf_marks(rest)) by {
            assert forall|i: int| n <= i < s.len() implies marks[i] == crlf_marks(rest)[i - n] by {
                assert(rest[i - n] == s[i]);
            }
        }
        vstd::seq_lib::lemma_multiset_commutative(marks.take(n), crlf_marks(rest));
        if pair {
            assert(s.take(2) =~= Seq::<char>::empty().push('\r').push('\n'));
            assert(s.take(2).to_multiset() =~= Seq::<char>::empty().to_multiset().insert(
                '\r',
            ).insert('\n'));
            assert(marks.take(2) =~= Seq::<bool>::empty().push(true).push(false));
            assert(marks.take(2).to_multiset() =~= Seq::<bool>::empty().to_multiset().insert(
                true,
            ).insert(false));
        } else {
            assert(s.take(1) =~= Seq::<char>::empty().push(s[0]));
            assert(s.take(1).to_multiset() =~= Seq::<char>::empty().to_multiset().insert(s[0]));
            assert(marks.take(1) =~= Seq::<bool>::empty().push(false));
            assert(marks.take(1).to_multiset() =~= Seq::<bool>::empty().to_multiset().insert(
                false,
            ));
        }
    } else {
        assert(crlf_marks(s) =~= Seq::<bool>::empty());
    }
}

/// A layout tells which line endings a text has, and how many lines: `mixed` where it has
/// more than one kind, `none` where it has none, and `uniform` otherwise.
pub proof fn law_layouts_tell_the_endings(l: TextLayout, s: Seq<char>)
    requires
        l.describes(s),
    ensures
        l.crlf + l.lf == s.to_multiset().count('\n'),
        l.crlf + l.cr == s.to_multiset().count('\r'),
        l.crlf == crlf_marks(s).to_multiset().count(true),
        l.line_count == l.lf + l.crlf + l.cr + (if s.len() > 0 && s.last() != '\n' && s.last()
            != '\r' {
            1int
        } else {
            0
        }),
        l.uniformity_spec() == "none"@ <==> !s.contains('\n') && !s.contains('\r'),
        l.mixed() <==> l.uniformity_spec() == "mixed"@,
        !l.mixed() ==> (l.lf == 0 && l.crlf == 0) || (l.lf == 0 && l.cr == 0) || (l.crlf == 0
            && l.cr == 0),
        l.mixed() ==> !(l.lf == 0 && l.crlf == 0) && !(l.lf == 0 && l.cr == 0) && !(l.crlf == 0
            && l.cr == 0),
{
    broadcast use vstd::seq_lib::group_to_multiset_ensures;

    law_census_counts_each_ending_once(s);
    reveal_strlit("none");
    reveal_strlit("mixed");
    reveal_strlit("uniform");
    assert("none"@.len() == 4 && "mixed"@.len() == 5 && "uniform"@.len() == 7);
    let m = s.to_multiset();
    assert(s.contains('\n') <==> m.count('\n') > 0);
    assert(s.contains('\r') <==> m.count('\r') > 0);
    assert(census(s).crlf <= m.count('\n'));
}

} // verus!
