//! The lines of a text.

use vstd::prelude::*;
use vstd::string::*;

use crate::text::{chars_of, first_pos, lemma_first_pos, lemma_first_pos_unique, string_of};

verus! {

/// A text cut at each LF; the parts are without it.
pub open spec fn parts(s: Seq<char>) -> Seq<Seq<char>>
    decreases s.len(),
{
    let k = first_pos(s, '\n') as int;
    if k >= s.len() {
        seq![s]
    } else {
        seq![s.take(k)] + parts(s.skip(k + 1))
    }
}

/// The lines of a text: its parts, but for an empty last one.
pub open spec fn text_lines(s: Seq<char>) -> Seq<Seq<char>> {
    if parts(s).last().len() == 0 {
        parts(s).drop_last()
    } else {
        parts(s)
    }
}

/// The texts of strings.
pub open spec fn texts(v: Seq<String>) -> Seq<Seq<char>> {
    v.map_values(|s: String| s@)
}

/// Texts, each followed by LF.
pub open spec fn joined(lines: Seq<Seq<char>>) -> Seq<char>
    decreases lines.len(),
{
    if lines.len() == 0 {
        seq![]
    } else {
        lines[0] + seq!['\n'] + joined(lines.drop_first())
    }
}

/// There is at least one part.
pub proof fn lemma_parts_nonempty(s: Seq<char>)
    ensures
        parts(s).len() > 0,
    decreases s.len(),
{
    lemma_first_pos(s, '\n');
    let k = first_pos(s, '\n') as int;
    if k < s.len() {
        lemma_parts_nonempty(s.skip(k + 1));
    }
}

/// Cuts a text at each LF.
pub fn split_parts(text: &str) -> (r: Vec<String>)
    ensures
        texts(r@) == parts(text@),
        r@.len() > 0,
        r@.len() <= text@.len() + 1,
{
    let v = chars_of(text);
    let mut out: Vec<String> = Vec::new();
    let mut from: usize = 0;
    let mut i: usize = 0;
    proof {
        assert(v@.skip(0) =~= v@);
        assert(texts(out@) + parts(v@.skip(0)) =~= parts(text@));
    }
    while i < v.len()
        invariant
            v@ == text@,
            from <= i <= v@.len(),
            out@.len() <= from,
            forall|k: int| from <= k < i ==> #[trigger] v@[k] != '\n',
            texts(out@) + parts(v@.skip(from as int)) == parts(text@),
        decreases v@.len() - i,
    {
        if v[i] == '\n' {
            let ghost rest = v@.skip(from as int);
            let ghost k = i - from;
            proof {
                assert forall|j: int| 0 <= j < k implies #[trigger] rest[j] != '\n' by {
                    assert(rest[j] == v@[from + j]);
                }
                assert(rest[k] == v@[i as int]);
                lemma_first_pos_unique(rest, '\n', k);
                assert(rest.take(k) =~= v@.subrange(from as int, i as int));
                assert(rest.skip(k + 1) =~= v@.skip(i + 1));
            }
            let ghost had = texts(out@);
            let line = string_of(&v, from, i);
            let ghost shown = line@;
            out.push(line);
            proof {
                assert(texts(out@) =~= had.push(shown));
                assert(texts(out@) + parts(v@.skip(i + 1)) =~= had + (seq![shown] + parts(
                    v@.skip(i + 1),
                )));
            }
            from = i + 1;
        }
        i = i + 1;
    }
    let ghost rest = v@.skip(from as int);
    proof {
        assert forall|j: int| 0 <= j < rest.len() implies #[trigger] rest[j] != '\n' by {
            assert(rest[j] == v@[from + j]);
        }
        lemma_first_pos_unique(rest, '\n', rest.len() as int);
        assert(rest =~= v@.subrange(from as int, v@.len() as int));
    }
    let ghost had = texts(out@);
    out.push(string_of(&v, from, v.len()));
    proof {
        assert(texts(out@) =~= had + seq![rest]);
    }
    out
}

/// The lines of a text.
pub fn split_lines(text: &str) -> (r: Vec<String>)
    ensures
        texts(r@) == text_lines(text@),
        r@.len() <= text@.len() + 1,
{
    let mut all = split_parts(text);
    let n: usize = all.len();
    proof {
        assert(texts(all@).last() == all@[n - 1]@);
    }
    if all[n - 1].as_str().is_empty() {
        let ghost before = texts(all@);
        all.truncate(n - 1);
        proof {
            assert(texts(all@) =~= before.drop_last());
        }
    }
    all
}

// ── Laws ────────────────────────────────────────────────────────────────────

proof fn lemma_joined_parts(s: Seq<char>)
    ensures
        joined(parts(s)) == s + seq!['\n'],
    decreases s.len(),
{
    lemma_first_pos(s, '\n');
    let k = first_pos(s, '\n') as int;
    if k >= s.len() {
        assert(joined(seq![s].drop_first()) =~= seq![]);
        assert(joined(parts(s)) =~= s + seq!['\n']);
    } else {
        let rest = s.skip(k + 1);
        lemma_joined_parts(rest);
        assert(parts(s).drop_first() =~= parts(rest));
        assert(joined(parts(s)) =~= s + seq!['\n']);
    }
}

/// The lines with one more behind them.
pub proof fn lemma_joined_push(lines: Seq<Seq<char>>, last: Seq<char>)
    ensures
        joined(lines.push(last)) == joined(lines) + last + seq!['\n'],
    decreases lines.len(),
{
    if lines.len() == 0 {
        assert(lines.push(last).drop_first() =~= seq![]);
        assert(joined(lines.push(last).drop_first()) =~= seq![]);
        assert(lines.push(last)[0] == last);
        assert(joined(lines.push(last)) =~= joined(lines) + last + seq!['\n']);
    } else {
        lemma_joined_push(lines.drop_first(), last);
        assert(lines.push(last).drop_first() =~= lines.drop_first().push(last));
        assert(joined(lines.push(last)) =~= joined(lines) + last + seq!['\n']);
    }
}

/// The lines of a text, each ended by LF, are the text, with an LF added where it
/// does not end in one.
pub proof fn law_lines_make_up_the_text(s: Seq<char>)
    ensures
        joined(text_lines(s)) == (if s.len() == 0 || s.last() == '\n' {
            s
        } else {
            s + seq!['\n']
        }),
{
    lemma_parts_nonempty(s);
    lemma_joined_parts(s);
    lemma_last_part(s);
    let p = parts(s);
    if p.last().len() == 0 {
        assert(p =~= p.drop_last().push(p.last()));
        lemma_joined_push(p.drop_last(), p.last());
        assert(joined(p) =~= joined(p.drop_last()) + seq!['\n']);
        assert(joined(p.drop_last()) =~= joined(p).drop_last());
        assert((s + seq!['\n']).drop_last() =~= s);
    }
}

/// The lines of a text hold no LF.
pub proof fn lemma_lines_lack_lf(s: Seq<char>)
    ensures
        forall|i: int, j: int|
            0 <= i < text_lines(s).len() && 0 <= j < text_lines(s)[i].len() ==> #[trigger]
                text_lines(s)[i][j] != '\n',
{
    lemma_parts_lack_lf(s);
    lemma_parts_nonempty(s);
}

proof fn lemma_parts_lack_lf(s: Seq<char>)
    ensures
        forall|i: int, j: int|
            0 <= i < parts(s).len() && 0 <= j < parts(s)[i].len() ==> #[trigger] parts(s)[i][j]
                != '\n',
    decreases s.len(),
{
    lemma_first_pos(s, '\n');
    let k = first_pos(s, '\n') as int;
    if k < s.len() {
        let rest = s.skip(k + 1);
        lemma_parts_lack_lf(rest);
        assert forall|i: int, j: int|
            0 <= i < parts(s).len() && 0 <= j < parts(s)[i].len() implies #[trigger] parts(s)[i][j]
            != '\n' by {
            if i == 0 {
                assert(parts(s)[0] == s.take(k));
            } else {
                assert(parts(s)[i] == parts(rest)[i - 1]);
            }
        }
    } else {
        assert(parts(s)[0] == s);
    }
}

proof fn lemma_last_part(s: Seq<char>)
    ensures
        parts(s).last().len() == 0 <==> s.len() == 0 || s.last() == '\n',
    decreases s.len(),
{
    lemma_first_pos(s, '\n');
    let k = first_pos(s, '\n') as int;
    if k < s.len() {
        let rest = s.skip(k + 1);
        lemma_last_part(rest);
        lemma_parts_nonempty(rest);
        assert(parts(s).last() == parts(rest).last());
        if rest.len() > 0 {
            assert(rest.last() == s.last());
        } else {
            assert(k == s.len() - 1);
        }
    } else if s.len() > 0 {
        assert(s[s.len() - 1] != '\n');
    }
}

/// Lines that hold no LF, each ended by LF, are the lines of the text that they make up.
pub proof fn law_lines_come_back(lines: Seq<Seq<char>>)
    requires
        forall|i: int, j: int|
            0 <= i < lines.len() && 0 <= j < lines[i].len() ==> #[trigger] lines[i][j] != '\n',
    ensures
        text_lines(joined(lines)) == lines,
{
    lemma_parts_of_joined(lines);
    assert(lines.push(seq![]).drop_last() =~= lines);
}

proof fn lemma_parts_of_joined(lines: Seq<Seq<char>>)
    requires
        forall|i: int, j: int|
            0 <= i < lines.len() && 0 <= j < lines[i].len() ==> #[trigger] lines[i][j] != '\n',
    ensures
        parts(joined(lines)) == lines.push(seq![]),
    decreases lines.len(),
{
    let s = joined(lines);
    if lines.len() == 0 {
        assert(parts(s) =~= lines.push(seq![]));
    } else {
        let k = lines[0].len() as int;
        let rest = lines.drop_first();
        assert forall|i: int, j: int|
            0 <= i < rest.len() && 0 <= j < rest[i].len() implies #[trigger] rest[i][j] != '\n' by {
            assert(rest[i] == lines[i + 1]);
            assert(lines[i + 1][j] != '\n');
        }
        lemma_parts_of_joined(rest);
        assert forall|i: int| 0 <= i < k implies #[trigger] s[i] != '\n' by {
            assert(s[i] == lines[0][i]);
        }
        assert(s[k] == '\n');
        lemma_first_pos_unique(s, '\n', k);
        assert(s.take(k) =~= lines[0]);
        assert(s.skip(k + 1) =~= joined(rest));
        assert(parts(s) =~= lines.push(seq![]));
    }
}

/// A text has as many lines as LF, and one more where it does not end in one.
pub proof fn law_lines_are_counted_by_lf(s: Seq<char>)
    ensures
        text_lines(s).len() == s.to_multiset().count('\n') + (if s.len() == 0 || s.last() == '\n' {
            0nat
        } else {
            1
        }),
{
    lemma_parts_nonempty(s);
    lemma_last_part(s);
    lemma_parts_counted(s);
}

proof fn lemma_parts_counted(s: Seq<char>)
    ensures
        parts(s).len() == s.to_multiset().count('\n') + 1,
    decreases s.len(),
{
    broadcast use vstd::seq_lib::group_to_multiset_ensures;

    lemma_first_pos(s, '\n');
    let k = first_pos(s, '\n') as int;
    if k < s.len() {
        let head = s.take(k);
        let rest = s.skip(k + 1);
        lemma_parts_counted(rest);
        assert(s =~= head + seq!['\n'] + rest);
        vstd::seq_lib::lemma_multiset_commutative(head + seq!['\n'], rest);
        vstd::seq_lib::lemma_multiset_commutative(head, seq!['\n']);
        assert(seq!['\n'] =~= Seq::<char>::empty().push('\n'));
        assert(Seq::<char>::empty().push('\n').to_multiset() =~= Seq::<char>::empty().to_multiset().insert(
            '\n',
        ));
        assert(!head.contains('\n'));
        assert(head.to_multiset().count('\n') == 0);
    } else {
        assert(!s.contains('\n'));
        assert(s.to_multiset().count('\n') == 0);
    }
}

} // verus!
