//! Regular expressions, by the `regex` crate.

use vstd::prelude::*;
use vstd::string::*;
use vstd::utf8::*;

use crate::text::contains_text;

verus! {

/// `regex::Regex`, a compiled regular expression over text.
#[verifier::external_type_specification]
#[verifier::external_body]
pub struct ExRegex(regex::Regex);

/// `regex::bytes::Regex`, a compiled regular expression over bytes.
#[verifier::external_type_specification]
#[verifier::external_body]
pub struct ExBytesRegex(regex::bytes::Regex);

/// The pattern that a compiled expression over text holds.
pub uninterp spec fn text_pattern(re: regex::Regex) -> Seq<char>;

/// The pattern that a compiled expression over bytes holds.
pub uninterp spec fn bytes_pattern(re: regex::bytes::Regex) -> Seq<char>;

/// The message for a pattern that is no expression over text; `None` where it is
/// one.
pub uninterp spec fn text_pattern_error(pattern: Seq<char>) -> Option<Seq<char>>;

/// The message for a pattern that is no expression over bytes; `None` where it
/// is one.
pub uninterp spec fn bytes_pattern_error(pattern: Seq<char>) -> Option<Seq<char>>;

/// Whether an expression matches anywhere in a text.
pub uninterp spec fn text_match(pattern: Seq<char>, text: Seq<char>) -> bool;

/// The number of matches of an expression in a text.
pub uninterp spec fn text_match_count(pattern: Seq<char>, text: Seq<char>) -> nat;

/// A character that means something in an expression.
pub open spec fn is_meta(c: char) -> bool {
    ||| c == '\\' || c == '.' || c == '+' || c == '*' || c == '?' || c == '(' || c == ')'
    ||| c == '|' || c == '[' || c == ']' || c == '{' || c == '}' || c == '^' || c == '$'
    ||| c == '#' || c == '&' || c == '-' || c == '~'
}

/// The pattern that matches a given text literally: a backslash stands before each
/// character that means something in an expression.
pub open spec fn escaped_pattern(text: Seq<char>) -> Seq<char>
    decreases text.len(),
{
    if text.len() == 0 {
        seq![]
    } else if is_meta(text.last()) {
        escaped_pattern(text.drop_last()).push('\\').push(text.last())
    } else {
        escaped_pattern(text.drop_last()).push(text.last())
    }
}

/// The matches of an expression in bytes, as ranges.
pub uninterp spec fn bytes_spans(pattern: Seq<char>, hay: Seq<u8>) -> Seq<(int, int)>;

/// The number of capture groups of an expression over bytes, with the implicit
/// group of the whole match.
pub uninterp spec fn capture_count(pattern: Seq<char>) -> nat;

/// For each match of an expression in bytes, the replacement with its capture
/// references expanded.
pub uninterp spec fn expanded(pattern: Seq<char>, hay: Seq<u8>, replacement: Seq<u8>) -> Seq<
    Seq<u8>,
>;

/// Ranges within `len` bytes, in order and without overlap.
pub open spec fn are_spans(s: Seq<(int, int)>, len: int) -> bool {
    &&& forall|i: int| 0 <= i < s.len() ==> 0 <= (#[trigger] s[i]).0 <= s[i].1 <= len
    &&& forall|i: int, j: int| 0 <= i < j < s.len() ==> (#[trigger] s[i]).1 <= (#[trigger] s[j]).0
}

/// `needle` stands in `hay` at offset `i`.
pub open spec fn occurs_at(hay: Seq<u8>, needle: Seq<u8>, i: int) -> bool {
    0 <= i && i + needle.len() <= hay.len() && hay.subrange(i, i + needle.len()) == needle
}

/// The occurrences of `needle` in `hay` from offset `i` on: from left to right,
/// each behind the one before.
pub open spec fn occurrences(hay: Seq<u8>, needle: Seq<u8>, i: int) -> Seq<(int, int)>
    decreases hay.len() - i,
{
    if i < 0 || needle.len() == 0 || i + needle.len() > hay.len() {
        seq![]
    } else if occurs_at(hay, needle, i) {
        seq![(i, i + needle.len())] + occurrences(hay, needle, i + needle.len())
    } else {
        occurrences(hay, needle, i + 1)
    }
}

/// A pattern that stands for the text `literal` alone.
pub open spec fn is_literal_pattern(pattern: Seq<char>, literal: Seq<char>) -> bool {
    pattern == escaped_pattern(literal) || pattern == "(?m)"@ + escaped_pattern(literal)
}

/// Bytes from offset `from` on, with each range replaced.
pub open spec fn replaced(
    hay: Seq<u8>,
    spans: Seq<(int, int)>,
    with: Seq<Seq<u8>>,
    from: int,
) -> Seq<u8>
    decreases spans.len(),
{
    if spans.len() == 0 {
        hay.skip(from)
    } else {
        hay.subrange(from, spans[0].0) + with[0] + replaced(
            hay,
            spans.drop_first(),
            with.drop_first(),
            spans[0].1,
        )
    }
}

/// Ranges as they are computed with.
pub open spec fn span_views(v: Seq<(usize, usize)>) -> Seq<(int, int)> {
    v.map_values(|p: (usize, usize)| (p.0 as int, p.1 as int))
}

/// `regex::Regex::new` compiles a pattern; whether it can, and the message where
/// it cannot, depend on the pattern alone.
#[verifier::external_body]
pub(crate) fn compile_text(pattern: &str) -> (r: Result<regex::Regex, String>)
    ensures
        match r {
            Ok(re) => text_pattern_error(pattern@) is None && text_pattern(re) == pattern@,
            Err(m) => text_pattern_error(pattern@) == Some(m@),
        },
{
    regex::Regex::new(pattern).map_err(|e| e.to_string())
}

/// `regex::Regex::is_match` tells whether an expression matches anywhere in a
/// text. A text that was escaped matches where it is contained.
#[verifier::external_body]
pub(crate) fn is_match(re: &regex::Regex, text: &str) -> (r: bool)
    ensures
        r == text_match(text_pattern(*re), text@),
        forall|literal: Seq<char>| #[trigger]
            is_literal_pattern(text_pattern(*re), literal) ==> r == contains_text(text@, literal),
{
    re.is_match(text)
}

/// `regex::Regex::find_iter` visits the matches of an expression in a text; this
/// is their number.
#[verifier::external_body]
pub(crate) fn count_matches(re: &regex::Regex, text: &str) -> (r: usize)
    ensures
        r == text_match_count(text_pattern(*re), text@),
{
    re.find_iter(text).count()
}

/// `regex::escape` puts a backslash before each character of a text that means
/// something in an expression.
#[verifier::external_body]
pub(crate) fn escape(text: &str) -> (r: String)
    ensures
        r@ == escaped_pattern(text@),
{
    regex::escape(text)
}

/// `regex::bytes::Regex::new` compiles a pattern; whether it can, and the
/// message where it cannot, depend on the pattern alone.
#[verifier::external_body]
pub(crate) fn compile_bytes(pattern: &str) -> (r: Result<regex::bytes::Regex, String>)
    ensures
        match r {
            Ok(re) => bytes_pattern_error(pattern@) is None && bytes_pattern(re) == pattern@,
            Err(m) => bytes_pattern_error(pattern@) == Some(m@),
        },
{
    regex::bytes::Regex::new(pattern).map_err(|e| e.to_string())
}

/// `regex::bytes::Regex::captures_len` counts the capture groups, with the
/// implicit group of the whole match. A text that was escaped has no other.
#[verifier::external_body]
pub(crate) fn captures_len(re: &regex::bytes::Regex) -> (r: usize)
    ensures
        r == capture_count(bytes_pattern(*re)),
        forall|literal: Seq<char>| #[trigger]
            is_literal_pattern(bytes_pattern(*re), literal) ==> r == 1,
{
    re.captures_len()
}

/// `regex::bytes::Regex::find_iter` visits the matches of an expression in
/// bytes, from left to right and without overlap. The matches of a text that was
/// escaped are its occurrences.
#[verifier::external_body]
pub(crate) fn find_spans(re: &regex::bytes::Regex, hay: &[u8]) -> (r: Vec<(usize, usize)>)
    ensures
        span_views(r@) == bytes_spans(bytes_pattern(*re), hay@),
        are_spans(span_views(r@), hay@.len() as int),
        forall|literal: Seq<char>|
            literal.len() > 0 && #[trigger] is_literal_pattern(bytes_pattern(*re), literal)
                ==> span_views(r@) == occurrences(hay@, encode_utf8(literal), 0),
{
    re.find_iter(hay).map(|m| (m.start(), m.end())).collect()
}

/// `regex::bytes::Regex::captures_iter` visits the same matches as `find_iter`,
/// and `Captures::expand` expands the capture references of a replacement for
/// each.
#[verifier::external_body]
pub(crate) fn expand_all(re: &regex::bytes::Regex, hay: &[u8], replacement: &[u8]) -> (r: Vec<
    Vec<u8>,
>)
    ensures
        r@.map_values(|v: Vec<u8>| v@) == expanded(bytes_pattern(*re), hay@, replacement@),
        r@.len() == bytes_spans(bytes_pattern(*re), hay@).len(),
{
    let mut out = Vec::new();
    for captures in re.captures_iter(hay) {
        let mut text = Vec::new();
        captures.expand(replacement, &mut text);
        out.push(text);
    }
    out
}

/// `regex::bytes::Regex::replace_all` with a replacement as bytes replaces each
/// match by the replacement with its capture references expanded.
#[verifier::external_body]
pub(crate) fn replace_expanding(re: &regex::bytes::Regex, hay: &[u8], replacement: &[u8]) -> (r: Vec<
    u8,
>)
    ensures
        r@ == replaced(
            hay@,
            bytes_spans(bytes_pattern(*re), hay@),
            expanded(bytes_pattern(*re), hay@, replacement@),
            0,
        ),
{
    re.replace_all(hay, replacement).into_owned()
}

/// `regex::bytes::Regex::replace_all` with `NoExpand` replaces each match by the
/// replacement as it is.
#[verifier::external_body]
pub(crate) fn replace_verbatim(re: &regex::bytes::Regex, hay: &[u8], replacement: &[u8]) -> (r: Vec<
    u8,
>)
    ensures
        r@ == replaced(
            hay@,
            bytes_spans(bytes_pattern(*re), hay@),
            Seq::new(bytes_spans(bytes_pattern(*re), hay@).len(), |i: int| replacement@),
            0,
        ),
{
    re.replace_all(hay, regex::bytes::NoExpand(replacement)).into_owned()
}

// ── Laws ────────────────────────────────────────────────────────────────────

proof fn lemma_occurrences(hay: Seq<u8>, needle: Seq<u8>, i: int, p: int)
    requires
        0 <= i,
        needle.len() > 0,
    ensures
        ({
            let s = occurrences(hay, needle, i);
            &&& forall|k: int|
                0 <= k < s.len() ==> i <= (#[trigger] s[k]).0 && s[k].1 == s[k].0 + needle.len()
                    && occurs_at(hay, needle, s[k].0)
            &&& forall|j: int, k: int|
                0 <= j < k < s.len() ==> (#[trigger] s[j]).1 <= (#[trigger] s[k]).0
            &&& i <= p && occurs_at(hay, needle, p) ==> exists|k: int|
                0 <= k < s.len() && (#[trigger] s[k]).0 <= p < s[k].1
        }),
    decreases hay.len() - i,
{
    let s = occurrences(hay, needle, i);
    if i + needle.len() <= hay.len() {
        if occurs_at(hay, needle, i) {
            let n = i + needle.len();
            lemma_occurrences(hay, needle, n, p);
            let rest = occurrences(hay, needle, n);
            assert(s =~= seq![(i, n)] + rest);
            assert forall|k: int| 0 <= k < s.len() implies i <= (#[trigger] s[k]).0 && s[k].1
                == s[k].0 + needle.len() && occurs_at(hay, needle, s[k].0) by {
                if k > 0 {
                    assert(s[k] == rest[k - 1]);
                }
            }
            assert forall|j: int, k: int| 0 <= j < k < s.len() implies (#[trigger] s[j]).1 <= (
            #[trigger] s[k]).0 by {
                assert(s[k] == rest[k - 1]);
                if j > 0 {
                    assert(s[j] == rest[j - 1]);
                }
            }
            if i <= p && occurs_at(hay, needle, p) {
                if p < n {
                    assert(s[0].0 <= p < s[0].1);
                } else {
                    let k = choose|k: int| 0 <= k < rest.len() && (#[trigger] rest[k]).0 <= p
                        < rest[k].1;
                    assert(s[k + 1] == rest[k]);
                }
            }
        } else {
            lemma_occurrences(hay, needle, i + 1, p);
            assert(s == occurrences(hay, needle, i + 1));
        }
    } else {
        assert(s =~= seq![]);
    }
}

/// The occurrences of a literal text are places where it stands, from left to right and
/// without overlap, and none is passed over: wherever the text stands, one of them covers
/// its beginning.
pub proof fn law_no_occurrence_is_passed_over(hay: Seq<u8>, needle: Seq<u8>, p: int)
    requires
        needle.len() > 0,
    ensures
        ({
            let s = occurrences(hay, needle, 0);
            &&& forall|k: int|
                0 <= k < s.len() ==> 0 <= (#[trigger] s[k]).0 && s[k].1 == s[k].0 + needle.len()
                    && hay.subrange(s[k].0, s[k].1) == needle && s[k].1 <= hay.len()
            &&& forall|j: int, k: int|
                0 <= j < k < s.len() ==> (#[trigger] s[j]).1 <= (#[trigger] s[k]).0
            &&& 0 <= p && p + needle.len() <= hay.len() && hay.subrange(p, p + needle.len())
                == needle ==> exists|k: int| 0 <= k < s.len() && (#[trigger] s[k]).0 <= p < s[k].1
        }),
{
    lemma_occurrences(hay, needle, 0, p);
}

/// Replacing ranges keeps what stands between them: the last range, with what stands behind
/// it, leaves what stands before to the others; without any, nothing changes.
pub proof fn law_replacing_keeps_the_rest(
    hay: Seq<u8>,
    spans: Seq<(int, int)>,
    with: Seq<Seq<u8>>,
    from: int,
)
    requires
        spans.len() > 0,
        with.len() == spans.len(),
        are_spans(spans, hay.len() as int),
        0 <= from <= spans[0].0,
    ensures
        replaced(hay, spans, with, from) == replaced(
            hay.take(spans.last().0),
            spans.drop_last(),
            with.drop_last(),
            from,
        ) + with.last() + hay.skip(spans.last().1),
        replaced(hay, seq![], seq![], from) == hay.skip(from),
    decreases spans.len(),
{
    let (a, b) = spans.last();
    let head = hay.take(a);
    if spans.len() == 1 {
        assert(spans.drop_first() =~= seq![]);
        assert(spans.drop_last() =~= seq![]);
        assert(replaced(hay, spans.drop_first(), with.drop_first(), b) =~= hay.skip(b));
        assert(replaced(head, spans.drop_last(), with.drop_last(), from) =~= head.skip(from));
        assert(head.skip(from) =~= hay.subrange(from, a));
        assert(replaced(hay, spans, with, from) =~= replaced(
            head,
            spans.drop_last(),
            with.drop_last(),
            from,
        ) + with.last() + hay.skip(b));
    } else {
        let q = spans[0];
        let rest = spans.drop_first();
        assert forall|i: int| 0 <= i < rest.len() implies 0 <= (#[trigger] rest[i]).0 <= rest[i].1
            <= hay.len() by {
            assert(rest[i] == spans[i + 1]);
        }
        assert forall|i: int, j: int| 0 <= i < j < rest.len() implies (#[trigger] rest[i]).1 <= (
        #[trigger] rest[j]).0 by {
            assert(rest[i] == spans[i + 1] && rest[j] == spans[j + 1]);
        }
        assert(rest[0] == spans[1]);
        law_replacing_keeps_the_rest(hay, rest, with.drop_first(), q.1);
        assert(rest.last() == (a, b));
        assert(with.drop_first().last() == with.last());
        assert(spans.drop_last().drop_first() =~= rest.drop_last());
        assert(with.drop_last().drop_first() =~= with.drop_first().drop_last());
        assert(spans[0].1 <= spans[spans.len() - 1].0);
        assert(head.subrange(from, q.0) =~= hay.subrange(from, q.0));
        assert(replaced(hay, spans, with, from) =~= replaced(
            head,
            spans.drop_last(),
            with.drop_last(),
            from,
        ) + with.last() + hay.skip(b));
    }
}

/// Escaping a text keeps its characters and puts a backslash before those that mean
/// something, which are these; escaped texts one behind the other are the escaped text of
/// both.
pub proof fn law_escaping_is_character_by_character(a: Seq<char>, b: Seq<char>, c: char)
    ensures
        escaped_pattern(a + b) == escaped_pattern(a) + escaped_pattern(b),
        escaped_pattern(seq![c]) == (if is_meta(c) {
            seq!['\\', c]
        } else {
            seq![c]
        }),
        is_meta(c) <==> "\\.+*?()|[]{}^$#&-~"@.contains(c),
    decreases b.len(),
{
    reveal_strlit("\\.+*?()|[]{}^$#&-~");
    let metas = "\\.+*?()|[]{}^$#&-~"@;
    assert(metas =~= seq![
        '\\', '.', '+', '*', '?', '(', ')', '|', '[', ']', '{', '}', '^', '$', '#', '&', '-',
        '~',
    ]);
    if is_meta(c) {
        let i: int = if c == '\\' {
            0
        } else if c == '.' {
            1
        } else if c == '+' {
            2
        } else if c == '*' {
            3
        } else if c == '?' {
            4
        } else if c == '(' {
            5
        } else if c == ')' {
            6
        } else if c == '|' {
            7
        } else if c == '[' {
            8
        } else if c == ']' {
            9
        } else if c == '{' {
            10
        } else if c == '}' {
            11
        } else if c == '^' {
            12
        } else if c == '$' {
            13
        } else if c == '#' {
            14
        } else if c == '&' {
            15
        } else if c == '-' {
            16
        } else {
            17
        };
        assert(metas[i] == c);
    }
    assert(seq![c].drop_last() =~= seq![]);
    assert(escaped_pattern(seq![c].drop_last()) =~= seq![]);
    assert(escaped_pattern(seq![c]) =~= (if is_meta(c) {
        seq!['\\', c]
    } else {
        seq![c]
    }));
    if b.len() == 0 {
        assert(a + b =~= a);
        assert(escaped_pattern(a) + escaped_pattern(b) =~= escaped_pattern(a));
    } else {
        law_escaping_is_character_by_character(a, b.drop_last(), c);
        assert((a + b).drop_last() =~= a + b.drop_last());
        assert((a + b).last() == b.last());
        assert(escaped_pattern(a + b) =~= escaped_pattern(a) + escaped_pattern(b));
    }
}

} // verus!
