//! Targeted edits at known positions: line numbers or byte offsets.

use vstd::prelude::*;
use vstd::string::*;
use vstd::utf8::*;

use crate::branch::{thicket_bytes, thicket_content, thicket_of, thicket_splice};
use crate::diff::{file_diff, similar_unified, unified_diff};
use crate::encoding::{
    decode_text_lossy, decode_text_replacing, decoded_replacing, denormalize_lf, encode_text_strict,
    encoded_strict, is_known, native_lf_to, native_to_lf, normalize_native_to_lf, only_ending,
    text_lf_to, to_lf, whatwg_sniffed, EncodingKind, LineEnding, TextEncoding,
};
use crate::encoding_laws::{
    is_lf_only, law_converted_bytes_have_one_ending, law_native_conversion_is_text_conversion,
    law_normalize_undoes_denormalize,
};
use crate::num::{
    dec, hex_fixed, law_hex_digits_stand_for_their_number, law_numerals_stand_for_their_number,
    parse_usize, push_dec, usize_number,
};
use crate::source::{
    ceiling_message, open_source, source_of, LineView, SourceInfo, SourceModel, VIEW_CEILING,
};
use crate::text::{
    format_str_debug, from_utf8, has_prefix, law_split_finds_the_parts, law_split_loses_nothing,
    law_trimming_keeps_trimmed_text, lower_text, outcome, same, split_at_first, split_once,
    str_debug, strip_prefix, to_lower, trim, trimmed,
};

verus! {

/// The position that `$` and `EOF` stand for: the last line in line mode, the
/// byte length in binary mode.
pub const EOF_SENTINEL: usize = usize::MAX;

/// A single targeted edit. All coordinates refer to the original content.
#[derive(Debug)]
pub enum EditOp {
    /// Remove `[start, end)`.
    Delete {
        /// Where the removed range begins.
        start: usize,
        /// Where the removed range ends.
        end: usize,
    },
    /// Insert `data` before `offset`.
    Insert {
        /// The position to insert at.
        offset: usize,
        /// What to insert.
        data: Vec<u8>,
    },
    /// Replace `[start, end)` by `data`.
    Splice {
        /// Where the replaced range begins.
        start: usize,
        /// Where the replaced range ends.
        end: usize,
        /// What to put in its place.
        data: Vec<u8>,
    },
}

// ── Positions given as text ─────────────────────────────────────────────────

/// A text that stands for the end of the file.
pub open spec fn is_eof_word(t: Seq<char>) -> bool {
    t == "$"@ || lower_text(t) == "eof"@
}

fn eof_word(t: &str) -> (r: bool)
    ensures
        r == is_eof_word(t@),
{
    same(t, "$") || same(to_lower(t).as_str(), "eof")
}

/// The value of a decimal integer, or of a hexadecimal one behind `0x`.
pub open spec fn usize_maybe_hex(s: Seq<char>) -> Result<usize, Seq<char>> {
    if has_prefix(s, "0x"@) || has_prefix(s, "0X"@) {
        match usize_number(s.skip(2), true) {
            Ok(n) => Ok(n),
            Err(_) => Err("invalid hex integer "@ + str_debug(s)),
        }
    } else {
        match usize_number(s, false) {
            Ok(n) => Ok(n),
            Err(_) => Err("invalid integer "@ + str_debug(s)),
        }
    }
}

/// Parse a decimal integer, or a hexadecimal one behind `0x` or `0X`.
pub fn parse_usize_maybe_hex(s: &str) -> (r: Result<usize, String>)
    ensures
        outcome(r) == usize_maybe_hex(s@),
{
    proof {
        reveal_strlit("0x");
        reveal_strlit("0X");
    }
    let hex = match strip_prefix(s, "0x") {
        Some(rest) => Some(rest),
        None => strip_prefix(s, "0X"),
    };
    match hex {
        Some(rest) => match parse_usize(rest.as_str(), true) {
            Ok(n) => Ok(n),
            Err(_) => {
                let mut m = "invalid hex integer ".to_owned();
                m.push_str(format_str_debug(s).as_str());
                Err(m)
            },
        },
        None => match parse_usize(s, false) {
            Ok(n) => Ok(n),
            Err(_) => {
                let mut m = "invalid integer ".to_owned();
                m.push_str(format_str_debug(s).as_str());
                Err(m)
            },
        },
    }
}

/// The byte position that a text stands for.
pub open spec fn byte_pos(s: Seq<char>) -> Result<usize, Seq<char>> {
    let t = trimmed(s);
    if is_eof_word(t) {
        Ok(EOF_SENTINEL)
    } else {
        usize_maybe_hex(t)
    }
}

/// Parse a 0-based byte position, or `$` or `EOF`.
pub fn parse_byte_pos(s: &str) -> (r: Result<usize, String>)
    ensures
        outcome(r) == byte_pos(s@),
{
    let t = trim(s);
    if eof_word(t.as_str()) {
        return Ok(EOF_SENTINEL);
    }
    parse_usize_maybe_hex(t.as_str())
}

/// A message about a text that was to be parsed, with the reason.
pub open spec fn in_text(what: Seq<char>, s: Seq<char>, why: Seq<char>) -> Seq<char> {
    what + str_debug(s) + ": "@ + why
}

fn in_text_message(what: &str, s: &str, why: &str) -> (r: String)
    ensures
        r@ == in_text(what@, s@, why@),
{
    let mut m = what.to_owned();
    m.push_str(format_str_debug(s).as_str());
    m.push_str(": ");
    m.push_str(why);
    m
}

/// The byte range that a text stands for: `N-M` for `[N, M)`, `N` for the single
/// byte at `N`, the end of the file alone for the empty range there.
pub open spec fn byte_range(s: Seq<char>) -> Result<(usize, usize), Seq<char>> {
    match split_at_first(s, '-') {
        Some((lo, hi)) => match (byte_pos(lo), byte_pos(hi)) {
            (Err(e), _) => Err(in_text("invalid range start in "@, s, e)),
            (_, Err(e)) => Err(in_text("invalid range end in "@, s, e)),
            (Ok(a), Ok(b)) => Ok((a, b)),
        },
        None => match byte_pos(s) {
            Err(e) => Err(in_text("invalid offset in "@, s, e)),
            Ok(n) => if n == EOF_SENTINEL {
                Ok((EOF_SENTINEL, EOF_SENTINEL))
            } else {
                Ok((n, (n + 1) as usize))
            },
        },
    }
}

/// Parse a byte range; the end is exclusive.
pub fn parse_byte_range(s: &str) -> (r: Result<(usize, usize), String>)
    ensures
        outcome(r) == byte_range(s@),
{
    match split_once(s, '-') {
        Some((lo, hi)) => {
            let a: usize = match parse_byte_pos(lo.as_str()) {
                Ok(n) => n,
                Err(e) => {
                    return Err(in_text_message("invalid range start in ", s, e.as_str()));
                },
            };
            let b: usize = match parse_byte_pos(hi.as_str()) {
                Ok(n) => n,
                Err(e) => {
                    return Err(in_text_message("invalid range end in ", s, e.as_str()));
                },
            };
            Ok((a, b))
        },
        None => match parse_byte_pos(s) {
            Ok(n) => if n == EOF_SENTINEL {
                Ok((EOF_SENTINEL, EOF_SENTINEL))
            } else {
                Ok((n, n + 1))
            },
            Err(e) => Err(in_text_message("invalid offset in ", s, e.as_str())),
        },
    }
}

/// The 1-based line number that a text stands for.
pub open spec fn line_num(s: Seq<char>) -> Result<usize, Seq<char>> {
    let t = trimmed(s);
    if is_eof_word(t) {
        Ok(EOF_SENTINEL)
    } else {
        match usize_number(t, false) {
            Err(_) => Err("invalid line number "@ + str_debug(s)),
            Ok(n) => if n == 0 {
                Err("line numbers are 1-based (minimum 1)"@)
            } else {
                Ok(n)
            },
        }
    }
}

/// Parse a 1-based line number, or `$` or `EOF`.
pub fn parse_line_num(s: &str) -> (r: Result<usize, String>)
    ensures
        outcome(r) == line_num(s@),
{
    let t = trim(s);
    if eof_word(t.as_str()) {
        return Ok(EOF_SENTINEL);
    }
    match parse_usize(t.as_str(), false) {
        Err(_) => {
            let mut m = "invalid line number ".to_owned();
            m.push_str(format_str_debug(s).as_str());
            Err(m)
        },
        Ok(n) => if n == 0 {
            Err("line numbers are 1-based (minimum 1)".to_owned())
        } else {
            Ok(n)
        },
    }
}

/// The line range that a text stands for: `N-M`, or `N` for a single line. The
/// order of the bounds is not checked where one of them is the end of the file.
pub open spec fn line_range(s: Seq<char>) -> Result<(usize, usize), Seq<char>> {
    match split_at_first(s, '-') {
        Some((lo, hi)) => match (line_num(lo), line_num(hi)) {
            (Err(e), _) => Err(in_text("invalid range start in "@, s, e)),
            (_, Err(e)) => Err(in_text("invalid range end in "@, s, e)),
            (Ok(a), Ok(b)) => if a != EOF_SENTINEL && b != EOF_SENTINEL && a > b {
                Err("line range start "@ + dec(a as nat) + " is after end "@ + dec(b as nat))
            } else {
                Ok((a, b))
            },
        },
        None => match line_num(s) {
            Err(e) => Err(e),
            Ok(n) => Ok((n, n)),
        },
    }
}

/// Parse a line range; both bounds are 1-based and inclusive.
pub fn parse_line_range(s: &str) -> (r: Result<(usize, usize), String>)
    ensures
        outcome(r) == line_range(s@),
{
    match split_once(s, '-') {
        Some((lo, hi)) => {
            let a: usize = match parse_line_num(lo.as_str()) {
                Ok(n) => n,
                Err(e) => {
                    return Err(in_text_message("invalid range start in ", s, e.as_str()));
                },
            };
            let b: usize = match parse_line_num(hi.as_str()) {
                Ok(n) => n,
                Err(e) => {
                    return Err(in_text_message("invalid range end in ", s, e.as_str()));
                },
            };
            if a != EOF_SENTINEL && b != EOF_SENTINEL && a > b {
                let mut m = "line range start ".to_owned();
                push_dec(&mut m, a as u64);
                m.push_str(" is after end ");
                push_dec(&mut m, b as u64);
                return Err(m);
            }
            Ok((a, b))
        },
        None => match parse_line_num(s) {
            Ok(n) => Ok((n, n)),
            Err(e) => Err(e),
        },
    }
}

// ── Spans ───────────────────────────────────────────────────────────────────

/// A range of the original content and what replaces it.
pub struct Span {
    /// Where the range begins.
    pub start: int,
    /// Where the range ends.
    pub end: int,
    /// What replaces it.
    pub data: Seq<u8>,
}

/// A [`Span`] as it is computed with.
struct Patch {
    start: usize,
    end: usize,
    data: Vec<u8>,
}

impl View for Patch {
    type V = Span;

    closed spec fn view(&self) -> Span {
        Span { start: self.start as int, end: self.end as int, data: self.data@ }
    }
}

/// The spans of patches.
spec fn spans_of(v: Seq<Patch>) -> Seq<Span> {
    v.map_values(|p: Patch| p@)
}

/// The order that spans are applied in: by start, then by end.
pub open spec fn before(a: Span, b: Span) -> bool {
    a.start < b.start || (a.start == b.start && a.end < b.end)
}

/// Spans in order, with one more put in its place, behind its equals.
pub open spec fn insert_span(s: Seq<Span>, p: Span) -> Seq<Span>
    decreases s.len(),
{
    if s.len() > 0 && before(p, s.last()) {
        insert_span(s.drop_last(), p).push(s.last())
    } else {
        s.push(p)
    }
}

/// Spans put in order, equals staying as they stand.
pub open spec fn sort_spans(s: Seq<Span>) -> Seq<Span>
    decreases s.len(),
{
    if s.len() == 0 {
        seq![]
    } else {
        insert_span(sort_spans(s.drop_last()), s.last())
    }
}

/// The content from offset `from` on, with each span's range replaced. The spans
/// are in order and do not overlap.
pub open spec fn rewritten(content: Seq<u8>, spans: Seq<Span>, from: int) -> Seq<u8>
    decreases spans.len(),
{
    if spans.len() == 0 {
        content.skip(from)
    } else {
        content.subrange(from, spans[0].start) + spans[0].data + rewritten(
            content,
            spans.drop_first(),
            spans[0].end,
        )
    }
}

/// The message for the first two neighbours, from position `i` on, that overlap.
pub open spec fn overlap_error(spans: Seq<Span>, i: int) -> Option<Seq<char>>
    decreases spans.len() - i,
{
    if i + 1 >= spans.len() || i < 0 {
        None
    } else if spans[i].end > spans[i + 1].start {
        Some(
            "edit: overlapping ranges ["@ + dec(spans[i].start as nat) + ", "@ + dec(
                spans[i].end as nat,
            ) + ") and ["@ + dec(spans[i + 1].start as nat) + ", "@ + dec(
                spans[i + 1].end as nat,
            ) + ")"@,
        )
    } else {
        overlap_error(spans, i + 1)
    }
}

/// Each span lies within a content of length `len`, and each ends before the
/// next begins.
spec fn applicable(spans: Seq<Span>, len: int) -> bool {
    &&& forall|i: int|
        0 <= i < spans.len() ==> 0 <= (#[trigger] spans[i]).start <= spans[i].end <= len
    &&& forall|i: int| 0 <= i < spans.len() - 1 ==> (#[trigger] spans[i]).end <= spans[i + 1].start
}

proof fn lemma_insert_span_at(s: Seq<Span>, p: Span, j: int)
    requires
        0 <= j <= s.len(),
        forall|k: int| j <= k < s.len() ==> before(p, #[trigger] s[k]),
        j > 0 ==> !before(p, s[j - 1]),
    ensures
        insert_span(s, p) == s.take(j) + seq![p] + s.skip(j),
    decreases s.len(),
{
    if s.len() > j {
        assert(before(p, s[s.len() - 1]));
        let t = s.drop_last();
        assert forall|k: int| j <= k < t.len() implies before(p, #[trigger] t[k]) by {
            assert(t[k] == s[k]);
        }
        lemma_insert_span_at(t, p, j);
        assert(insert_span(s, p) =~= s.take(j) + seq![p] + s.skip(j));
    } else {
        assert(insert_span(s, p) =~= s.take(j) + seq![p] + s.skip(j));
    }
}

/// Puts patches in order, equals staying as they stand.
fn sort_patches(patches: Vec<Patch>) -> (r: Vec<Patch>)
    ensures
        spans_of(r@) == sort_spans(spans_of(patches@)),
{
    let mut v = patches;
    let ghost orig = spans_of(v@);
    let mut i: usize = 0;
    proof {
        assert(orig.take(0) =~= seq![]);
        assert(spans_of(v@).take(0) =~= seq![]);
    }
    while i < v.len()
        invariant
            i <= v@.len(),
            v@.len() == orig.len(),
            spans_of(v@).take(i as int) == sort_spans(orig.take(i as int)),
            spans_of(v@).skip(i as int) == orig.skip(i as int),
        decreases v@.len() - i,
    {
        let ghost old_spans = spans_of(v@);
        let ghost sorted = old_spans.take(i as int);
        let p = v.remove(i);
        proof {
            assert(p@ == old_spans[i as int]);
            assert(old_spans.skip(i as int)[0] == orig.skip(i as int)[0]);
            assert(p@ == orig[i as int]);
        }
        let mut j: usize = i;
        while j > 0 && (p.start < v[j - 1].start || (p.start == v[j - 1].start && p.end < v[j
            - 1].end))
            invariant
                j <= i,
                i <= v@.len(),
                sorted.len() == i,
                forall|k: int| 0 <= k < i ==> (#[trigger] v@[k])@ == sorted[k],
                forall|k: int| j <= k < i ==> before(p@, #[trigger] sorted[k]),
            decreases j,
        {
            proof {
                assert(v@[j - 1]@ == sorted[j - 1]);
            }
            j = j - 1;
        }
        proof {
            if j > 0 {
                assert(v@[j - 1]@ == sorted[j - 1]);
            }
            lemma_insert_span_at(sorted, p@, j as int);
        }
        let ghost pv = p@;
        v.insert(j, p);
        proof {
            assert(orig.take(i + 1).drop_last() =~= orig.take(i as int));
            assert(orig.take(i + 1).last() == orig[i as int]);
            let now = spans_of(v@);
            assert(now.take(i + 1) =~= sorted.take(j as int) + seq![pv] + sorted.skip(j as int));
            assert(now.skip(i + 1) =~= old_spans.skip(i + 1));
            assert(old_spans.skip(i + 1) =~= old_spans.skip(i as int).skip(1));
            assert(orig.skip(i + 1) =~= orig.skip(i as int).skip(1));
        }
        i = i + 1;
    }
    proof {
        assert(orig.take(i as int) =~= orig);
        assert(spans_of(v@).take(i as int) =~= spans_of(v@));
    }
    v
}

fn overlap_message(a: &Patch, b: &Patch) -> (r: String)
    ensures
        r@ == "edit: overlapping ranges ["@ + dec(a@.start as nat) + ", "@ + dec(a@.end as nat)
            + ") and ["@ + dec(b@.start as nat) + ", "@ + dec(b@.end as nat) + ")"@,
{
    let mut m = "edit: overlapping ranges [".to_owned();
    push_dec(&mut m, a.start as u64);
    m.push_str(", ");
    push_dec(&mut m, a.end as u64);
    m.push_str(") and [");
    push_dec(&mut m, b.start as u64);
    m.push_str(", ");
    push_dec(&mut m, b.end as u64);
    m.push_str(")");
    m
}

/// The message for the first two neighbours that overlap.
fn find_overlap(v: &Vec<Patch>) -> (r: Option<String>)
    ensures
        match r {
            Some(m) => overlap_error(spans_of(v@), 0) == Some(m@),
            None => overlap_error(spans_of(v@), 0) is None && forall|i: int|
                0 <= i < v@.len() - 1 ==> (#[trigger] spans_of(v@)[i]).end <= spans_of(v@)[i
                    + 1].start,
        },
{
    let mut i: usize = 0;
    let len: usize = v.len();
    while len - i > 1
        invariant
            len == v@.len(),
            i <= len,
            overlap_error(spans_of(v@), i as int) == overlap_error(spans_of(v@), 0),
            forall|k: int|
                0 <= k < i ==> (#[trigger] spans_of(v@)[k]).end <= spans_of(v@)[k + 1].start,
        decreases len - i,
    {
        if v[i].end > v[i + 1].start {
            return Some(overlap_message(&v[i], &v[i + 1]));
        }
        i = i + 1;
    }
    None
}

proof fn lemma_rewritten_split(content: Seq<u8>, spans: Seq<Span>, a: int, b: int)
    requires
        applicable(spans, content.len() as int),
        0 <= a <= b <= content.len(),
        spans.len() > 0 ==> b <= spans[0].start,
    ensures
        rewritten(content, spans, a) == content.subrange(a, b) + rewritten(content, spans, b),
{
    if spans.len() == 0 {
        assert(content.skip(a) =~= content.subrange(a, b) + content.skip(b));
    } else {
        assert(content.subrange(a, spans[0].start) =~= content.subrange(a, b) + content.subrange(
            b,
            spans[0].start,
        ));
        assert(rewritten(content, spans, a) =~= content.subrange(a, b) + rewritten(
            content,
            spans,
            b,
        ));
    }
}

/// Replaces the ranges of patches that are in order and do not overlap.
fn apply_patches(content: &[u8], v: &Vec<Patch>) -> (r: Result<Vec<u8>, String>)
    requires
        applicable(spans_of(v@), content@.len() as int),
    ensures
        r matches Ok(out) ==> out@ == rewritten(content@, spans_of(v@), 0),
        rewritten(content@, spans_of(v@), 0).len() <= usize::MAX ==> r is Ok,
{
    let ghost spans = spans_of(v@);
    let mut t = thicket_of(content);
    let mut k: usize = v.len();
    proof {
        assert(spans.skip(k as int) =~= seq![]);
        assert(content@.skip(0) =~= content@);
    }
    while k > 0
        invariant
            k <= v@.len(),
            spans == spans_of(v@),
            applicable(spans, content@.len() as int),
            thicket_bytes(t) == rewritten(content@, spans.skip(k as int), 0),
        decreases k,
    {
        let ghost rest = spans.skip(k as int);
        let ghost p = spans[k - 1];
        let ghost c = content@;
        proof {
            assert(v@[k - 1]@ == p);
            assert(applicable(rest, c.len() as int)) by {
                assert forall|i: int| 0 <= i < rest.len() implies 0 <= (#[trigger] rest[i]).start
                    <= rest[i].end <= c.len() by {
                    assert(rest[i] == spans[k + i]);
                }
                assert forall|i: int| 0 <= i < rest.len() - 1 implies (#[trigger] rest[i]).end
                    <= rest[i + 1].start by {
                    assert(rest[i] == spans[k + i]);
                    assert(rest[i + 1] == spans[k + i + 1]);
                }
            }
            if rest.len() > 0 {
                assert(rest[0] == spans[k as int]);
                assert(p.end <= rest[0].start);
            }
            lemma_rewritten_split(c, rest, 0, p.end);
            assert(thicket_bytes(t) == c.subrange(0, p.end) + rewritten(c, rest, p.end));
        }
        let start: usize = v[k - 1].start;
        let end: usize = v[k - 1].end;
        let ghost cur = thicket_bytes(t);
        match thicket_splice(&mut t, start as u64, (end - start) as u64, v[k - 1].data.as_slice()) {
            Ok(_) => {},
            Err(e) => {
                return Err(e);
            },
        }
        proof {
            let all = spans.skip(k - 1);
            assert(all[0] == p);
            assert(all.drop_first() =~= rest);
            assert(cur.take(p.start) =~= c.subrange(0, p.start));
            assert(cur.skip(p.end) =~= rewritten(c, rest, p.end));
            assert(thicket_bytes(t) == c.subrange(0, p.start) + p.data + rewritten(
                c,
                rest,
                p.end,
            ));
        }
        k = k - 1;
    }
    proof {
        assert(spans.skip(0) =~= spans);
    }
    thicket_content(&t)
}

// ── Binary mode ─────────────────────────────────────────────────────────────

/// The span of an edit, in the edit's own coordinates.
pub open spec fn op_span(op: EditOp) -> Span {
    match op {
        EditOp::Delete { start, end } => Span { start: start as int, end: end as int, data: seq![] },
        EditOp::Insert { offset, data } => Span {
            start: offset as int,
            end: offset as int,
            data: data@,
        },
        EditOp::Splice { start, end, data } => Span {
            start: start as int,
            end: end as int,
            data: data@,
        },
    }
}

/// A position with the end of the file resolved.
pub open spec fn resolve_pos(pos: int, len: int) -> int {
    if pos == EOF_SENTINEL {
        len
    } else {
        pos
    }
}

/// A span with the end of the file resolved.
pub open spec fn resolve_span(p: Span, len: int) -> Span {
    Span { start: resolve_pos(p.start, len), end: resolve_pos(p.end, len), data: p.data }
}

/// The spans of edits in the order they are applied in, with the end of the file
/// resolved.
pub open spec fn binary_spans(ops: Seq<EditOp>, len: int) -> Seq<Span> {
    sort_spans(ops.map_values(|op: EditOp| op_span(op))).map_values(
        |p: Span| resolve_span(p, len),
    )
}

/// The message for the first span, from position `i` on, that is no range within
/// a content of length `len`.
pub open spec fn range_error(spans: Seq<Span>, i: int, len: int) -> Option<Seq<char>>
    decreases spans.len() - i,
{
    if i >= spans.len() || i < 0 {
        None
    } else if spans[i].start > spans[i].end {
        Some(
            "edit: invalid range: start "@ + dec(spans[i].start as nat) + " > end "@ + dec(
                spans[i].end as nat,
            ),
        )
    } else if spans[i].end > len {
        Some(
            "edit: range ["@ + dec(spans[i].start as nat) + ", "@ + dec(spans[i].end as nat)
                + ") exceeds file length "@ + dec(len as nat),
        )
    } else {
        range_error(spans, i + 1, len)
    }
}

/// The content after byte edits, or the message of the error. All coordinates
/// refer to the content before.
pub open spec fn binary_edited(content: Seq<u8>, ops: Seq<EditOp>) -> Result<Seq<u8>, Seq<char>> {
    let len = content.len() as int;
    let spans = binary_spans(ops, len);
    match range_error(spans, 0, len) {
        Some(m) => Err(m),
        None => match overlap_error(spans, 0) {
            Some(m) => Err(m),
            None => Ok(rewritten(content, spans, 0)),
        },
    }
}

/// The patches of edits, in the edits' own coordinates.
fn patches_of(ops: Vec<EditOp>) -> (r: Vec<Patch>)
    ensures
        spans_of(r@) == ops@.map_values(|op: EditOp| op_span(op)),
{
    let mut out: Vec<Patch> = Vec::new();
    for op in it: ops
        invariant
            it.seq() == ops@,
            spans_of(out@) =~= ops@.take(it.index()).map_values(|op: EditOp| op_span(op)),
    {
        proof {
            assert(ops@.take(it.index() + 1) =~= ops@.take(it.index()).push(op));
        }
        let ghost shown = op_span(op);
        let p = match op {
            EditOp::Delete { start, end } => Patch { start, end, data: Vec::new() },
            EditOp::Insert { offset, data } => Patch { start: offset, end: offset, data },
            EditOp::Splice { start, end, data } => Patch { start, end, data },
        };
        proof {
            assert(p@.data =~= shown.data);
            assert(p@ == shown);
            assert(op == ops@[it.index()]);
        }
        let ghost had = spans_of(out@);
        out.push(p);
        proof {
            assert(spans_of(out@) =~= had.push(shown));
            assert(ops@.take(it.index() + 1).map_values(|op: EditOp| op_span(op)) =~= had.push(
                shown,
            ));
        }
    }
    proof {
        assert(ops@.take(ops@.len() as int) =~= ops@);
    }
    out
}

/// The message for the first patch that is no range within `len` bytes.
fn find_range_error(v: &Vec<Patch>, len: usize) -> (r: Option<String>)
    ensures
        match r {
            Some(m) => range_error(spans_of(v@), 0, len as int) == Some(m@),
            None => range_error(spans_of(v@), 0, len as int) is None && forall|i: int|
                0 <= i < v@.len() ==> 0 <= (#[trigger] spans_of(v@)[i]).start <= spans_of(v@)[i].end
                    <= len,
        },
{
    let mut i: usize = 0;
    while i < v.len()
        invariant
            i <= v@.len(),
            range_error(spans_of(v@), i as int, len as int) == range_error(
                spans_of(v@),
                0,
                len as int,
            ),
            forall|k: int|
                0 <= k < i ==> 0 <= (#[trigger] spans_of(v@)[k]).start <= spans_of(v@)[k].end <= len,
        decreases v@.len() - i,
    {
        let start: usize = v[i].start;
        let end: usize = v[i].end;
        if start > end {
            let mut m = "edit: invalid range: start ".to_owned();
            push_dec(&mut m, start as u64);
            m.push_str(" > end ");
            push_dec(&mut m, end as u64);
            return Some(m);
        }
        if end > len {
            let mut m = "edit: range [".to_owned();
            push_dec(&mut m, start as u64);
            m.push_str(", ");
            push_dec(&mut m, end as u64);
            m.push_str(") exceeds file length ");
            push_dec(&mut m, len as u64);
            return Some(m);
        }
        i = i + 1;
    }
    None
}

/// Resolves the end of the file in patches.
fn resolve_patches(v: Vec<Patch>, len: usize) -> (r: Vec<Patch>)
    ensures
        spans_of(r@) == spans_of(v@).map_values(|p: Span| resolve_span(p, len as int)),
{
    let mut out: Vec<Patch> = Vec::new();
    for p in it: v
        invariant
            it.seq() == v@,
            spans_of(out@) =~= spans_of(v@).take(it.index()).map_values(
                |p: Span| resolve_span(p, len as int),
            ),
    {
        let start: usize = if p.start == EOF_SENTINEL {
            len
        } else {
            p.start
        };
        let end: usize = if p.end == EOF_SENTINEL {
            len
        } else {
            p.end
        };
        proof {
            assert(p == v@[it.index()]);
        }
        let ghost had = spans_of(out@);
        let ghost shown = resolve_span(p@, len as int);
        out.push(Patch { start, end, data: p.data });
        proof {
            assert(spans_of(out@) =~= had.push(shown));
            assert(spans_of(v@).take(it.index() + 1).map_values(
                |p: Span| resolve_span(p, len as int),
            ) =~= had.push(shown));
        }
    }
    proof {
        assert(spans_of(v@).take(v@.len() as int) =~= spans_of(v@));
    }
    out
}

/// What an edit comes to.
#[derive(Debug)]
pub struct EditOutcome {
    /// The number of edits applied.
    pub op_count: usize,
    /// The content to write; `None` where there is nothing to do.
    pub bytes: Option<Vec<u8>>,
    /// The old and the new text, for a check before the content is written.
    pub texts: Option<(String, String)>,
    /// The unified diff of the two.
    pub diff: Option<String>,
}

/// Apply byte edits to a file's content.
pub fn run_binary(content: &[u8], ops: Vec<EditOp>) -> (r: Result<EditOutcome, String>)
    ensures
        ops@.len() == 0 ==> is_idle_result(r),
        ops@.len() > 0 ==> is_binary_result(r, content@, ops@),
{
    let op_count: usize = ops.len();
    if op_count == 0 {
        return Ok(EditOutcome { op_count: 0, bytes: None, texts: None, diff: None });
    }
    let sorted = sort_patches(patches_of(ops));
    let patches = resolve_patches(sorted, content.len());
    match find_range_error(&patches, content.len()) {
        Some(m) => {
            return Err(m);
        },
        None => {},
    }
    match find_overlap(&patches) {
        Some(m) => {
            return Err(m);
        },
        None => {},
    }
    match apply_patches(content, &patches) {
        Ok(bytes) => Ok(EditOutcome { op_count, bytes: Some(bytes), texts: None, diff: None }),
        Err(m) => Err(m),
    }
}

// ── Line mode ───────────────────────────────────────────────────────────────

/// The length of the line ending that content begins with, CR LF, CR or LF in code units
/// of its encoding; zero where it begins with none.
pub open spec fn ending_len(s: Seq<u8>, kind: EncodingKind) -> nat {
    match kind {
        EncodingKind::Utf16Le => if s.len() >= 2 && s[0] == 0x0D && s[1] == 0x00 {
            if s.len() >= 4 && s[2] == 0x0A && s[3] == 0x00 {
                4
            } else {
                2
            }
        } else if s.len() >= 2 && s[0] == 0x0A && s[1] == 0x00 {
            2
        } else {
            0
        },
        EncodingKind::Utf16Be => if s.len() >= 2 && s[0] == 0x00 && s[1] == 0x0D {
            if s.len() >= 4 && s[2] == 0x00 && s[3] == 0x0A {
                4
            } else {
                2
            }
        } else if s.len() >= 2 && s[0] == 0x00 && s[1] == 0x0A {
            2
        } else {
            0
        },
        _ => if s.len() >= 1 && s[0] == 0x0D {
            if s.len() >= 2 && s[1] == 0x0A {
                2
            } else {
                1
            }
        } else if s.len() >= 1 && s[0] == 0x0A {
            1
        } else {
            0
        },
    }
}

/// The length of the code unit that content begins with; an odd last byte is one.
pub open spec fn unit_len(s: Seq<u8>, kind: EncodingKind) -> nat {
    match kind {
        EncodingKind::Utf16Le | EncodingKind::Utf16Be => if s.len() >= 2 {
            2
        } else {
            1
        },
        _ => 1,
    }
}

/// The offsets behind the line endings of content, from offset `i` on.
pub open spec fn ends_from(raw: Seq<u8>, kind: EncodingKind, i: int) -> Seq<int>
    decreases raw.len() - i,
{
    if i < 0 || i >= raw.len() {
        seq![]
    } else {
        let e = ending_len(raw.skip(i), kind);
        if e > 0 {
            seq![i + e] + ends_from(raw, kind, i + e)
        } else {
            ends_from(raw, kind, i + unit_len(raw.skip(i), kind))
        }
    }
}

/// The offsets in content at which lines begin: the start, and the offset behind each
/// line ending.
pub open spec fn line_starts(raw: Seq<u8>, kind: EncodingKind) -> Seq<int> {
    seq![0int] + ends_from(raw, kind, 0)
}

/// The number of lines of content; a line ending at the very end begins no further
/// line.
pub open spec fn total_lines(raw: Seq<u8>, kind: EncodingKind) -> int {
    let starts = line_starts(raw, kind);
    if starts.last() == raw.len() {
        starts.len() - 1
    } else {
        starts.len() as int
    }
}

/// The message for a line number beyond the last line.
pub open spec fn line_out_of_range(line: int, total: int) -> Seq<char> {
    "edit: line "@ + dec(line as nat) + " is out of range (file has "@ + dec(total as nat)
        + " line"@ + (if total == 1 {
        ""@
    } else {
        "s"@
    }) + ")"@
}

/// The range of offsets in content that the 1-based, inclusive line range takes, or the
/// message of the error.
pub open spec fn content_span(
    raw: Seq<u8>,
    kind: EncodingKind,
    start_line: int,
    end_line: int,
) -> Result<(int, int), Seq<char>> {
    let total = total_lines(raw, kind);
    let a = resolve_pos(start_line, total);
    let b = resolve_pos(end_line, total);
    if a == 0 {
        Err("edit: line numbers are 1-based (minimum 1)"@)
    } else if end_line != EOF_SENTINEL && a > b {
        Err(
            "edit: start line "@ + dec(a as nat) + " is after end line "@ + dec(b as nat),
        )
    } else if a > total {
        Err(line_out_of_range(a, total))
    } else if b > total {
        Err(line_out_of_range(b, total))
    } else {
        let starts = line_starts(raw, kind);
        Ok(
            (
                starts[a - 1],
                if b < starts.len() {
                    starts[b]
                } else {
                    raw.len() as int
                },
            ),
        )
    }
}

/// The byte range in the file, of content `raw` behind `bom_len` bytes, that a
/// line range takes, or the message of the error.
pub open spec fn line_span(
    raw: Seq<u8>,
    kind: EncodingKind,
    bom_len: nat,
    start_line: int,
    end_line: int,
) -> Result<(int, int), Seq<char>> {
    match content_span(raw, kind, start_line, end_line) {
        Ok((a, b)) => Ok((bom_len + a, bom_len + b)),
        Err(m) => Err(m),
    }
}

proof fn lemma_ends_from(raw: Seq<u8>, kind: EncodingKind, i: int)
    requires
        0 <= i <= raw.len(),
    ensures
        ends_from(raw, kind, i).len() <= raw.len() - i,
        forall|k: int|
            0 <= k < ends_from(raw, kind, i).len() ==> i < #[trigger] ends_from(raw, kind, i)[k]
                <= raw.len(),
        forall|j: int, k: int|
            0 <= j < k < ends_from(raw, kind, i).len() ==> #[trigger] ends_from(raw, kind, i)[j]
                < #[trigger] ends_from(raw, kind, i)[k],
    decreases raw.len() - i,
{
    if i < raw.len() {
        let e = ending_len(raw.skip(i), kind) as int;
        if e > 0 {
            lemma_ends_from(raw, kind, i + e);
            let rest = ends_from(raw, kind, i + e);
            let all = ends_from(raw, kind, i);
            assert(all =~= seq![i + e] + rest);
            assert forall|j: int, k: int| 0 <= j < k < all.len() implies #[trigger] all[j]
                < #[trigger] all[k] by {
                assert(all[k] == rest[k - 1]);
                if j > 0 {
                    assert(all[j] == rest[j - 1]);
                }
            }
            assert forall|k: int| 0 <= k < all.len() implies i < #[trigger] all[k] <= raw.len() by {
                if k > 0 {
                    assert(all[k] == rest[k - 1]);
                }
            }
        } else {
            lemma_ends_from(raw, kind, i + unit_len(raw.skip(i), kind));
        }
    }
}

proof fn lemma_line_starts(raw: Seq<u8>, kind: EncodingKind)
    ensures
        line_starts(raw, kind).len() >= 1,
        line_starts(raw, kind).len() <= raw.len() + 1,
        line_starts(raw, kind)[0] == 0,
        forall|i: int|
            0 <= i < line_starts(raw, kind).len() ==> 0 <= #[trigger] line_starts(raw, kind)[i]
                <= raw.len(),
        forall|i: int, j: int|
            0 <= i < j < line_starts(raw, kind).len() ==> #[trigger] line_starts(raw, kind)[i]
                < #[trigger] line_starts(raw, kind)[j],
        0 <= total_lines(raw, kind) <= line_starts(raw, kind).len(),
{
    lemma_ends_from(raw, kind, 0);
    let rest = ends_from(raw, kind, 0);
    let all = line_starts(raw, kind);
    assert forall|j: int, k: int| 0 <= j < k < all.len() implies #[trigger] all[j]
        < #[trigger] all[k] by {
        assert(all[k] == rest[k - 1]);
        if j > 0 {
            assert(all[j] == rest[j - 1]);
        }
    }
    assert forall|k: int| 0 <= k < all.len() implies 0 <= #[trigger] all[k] <= raw.len() by {
        if k > 0 {
            assert(all[k] == rest[k - 1]);
        }
    }
}

/// The length of the line ending at offset `i`; zero where there is none.
fn find_ending(raw: &[u8], encoding: &TextEncoding, i: usize) -> (r: usize)
    requires
        i < raw@.len(),
    ensures
        r == ending_len(raw@.skip(i as int), encoding@),
        i + r <= raw@.len(),
{
    let n: usize = raw.len() - i;
    let ghost s = raw@.skip(i as int);
    proof {
        assert(s[0] == raw@[i as int]);
        assert(n > 1 ==> s[1] == raw@[i + 1]);
        assert(n > 2 ==> s[2] == raw@[i + 2]);
        assert(n > 3 ==> s[3] == raw@[i + 3]);
    }
    match encoding {
        TextEncoding::Utf16Le => if n >= 2 && raw[i] == 0x0D && raw[i + 1] == 0x00 {
            if n >= 4 && raw[i + 2] == 0x0A && raw[i + 3] == 0x00 {
                4
            } else {
                2
            }
        } else if n >= 2 && raw[i] == 0x0A && raw[i + 1] == 0x00 {
            2
        } else {
            0
        },
        TextEncoding::Utf16Be => if n >= 2 && raw[i] == 0x00 && raw[i + 1] == 0x0D {
            if n >= 4 && raw[i + 2] == 0x00 && raw[i + 3] == 0x0A {
                4
            } else {
                2
            }
        } else if n >= 2 && raw[i] == 0x00 && raw[i + 1] == 0x0A {
            2
        } else {
            0
        },
        _ => if raw[i] == 0x0D {
            if n >= 2 && raw[i + 1] == 0x0A {
                2
            } else {
                1
            }
        } else if raw[i] == 0x0A {
            1
        } else {
            0
        },
    }
}

/// The offsets at which lines begin.
fn find_line_starts(view: &LineView) -> (r: Vec<usize>)
    ensures
        start_views(r@) == line_starts(view.raw(), view.kind()),
{
    let raw = view.content();
    let ghost kind = view.kind();
    let wide = match view.encoding() {
        TextEncoding::Utf16Le | TextEncoding::Utf16Be => true,
        _ => false,
    };
    let len: usize = raw.len();
    let mut starts: Vec<usize> = Vec::new();
    starts.push(0);
    let mut i: usize = 0;
    proof {
        assert(start_views(starts@) =~= seq![0int]);
    }
    while i < len
        invariant
            len == raw@.len(),
            raw@ == view.raw(),
            kind == view.kind(),
            i <= len,
            wide == (kind is Utf16Le || kind is Utf16Be),
            start_views(starts@) + ends_from(raw@, kind, i as int) == line_starts(raw@, kind),
        decreases len - i,
    {
        let e: usize = find_ending(raw, view.encoding(), i);
        if e > 0 {
            let ghost had = start_views(starts@);
            starts.push(i + e);
            proof {
                let rest = ends_from(raw@, kind, i + e);
                assert(start_views(starts@) =~= had.push(i + e));
                assert(start_views(starts@) + rest =~= had + (seq![(i + e) as int] + rest));
            }
            i = i + e;
        } else if wide && len - i >= 2 {
            i = i + 2;
        } else {
            i = i + 1;
        }
    }
    proof {
        assert(start_views(starts@) + ends_from(raw@, kind, i as int) =~= start_views(starts@));
    }
    starts
}

/// Offsets as numbers.
pub open spec fn start_views(v: Seq<usize>) -> Seq<int> {
    v.map_values(|o: usize| o as int)
}

fn out_of_range_message(line: usize, total: usize) -> (r: String)
    ensures
        r@ == line_out_of_range(line as int, total as int),
{
    let mut m = "edit: line ".to_owned();
    push_dec(&mut m, line as u64);
    m.push_str(" is out of range (file has ");
    push_dec(&mut m, total as u64);
    m.push_str(" line");
    m.push_str(if total == 1 { "" } else { "s" });
    m.push_str(")");
    m
}

/// The number of lines, given the offsets at which lines begin.
fn count_lines(view: &LineView, starts: &Vec<usize>) -> (r: usize)
    requires
        start_views(starts@) == line_starts(view.raw(), view.kind()),
    ensures
        r == total_lines(view.raw(), view.kind()),
{
    let n: usize = starts.len();
    proof {
        lemma_line_starts(view.raw(), view.kind());
        assert(start_views(starts@).len() == n);
        assert(start_views(starts@)[n - 1] == starts@[n - 1]);
    }
    if starts[n - 1] == view.content().len() {
        n - 1
    } else {
        n
    }
}

/// Map a 1-based inclusive line range to the byte range in the file; the end is
/// exclusive. [`EOF_SENTINEL`] stands for the last line.
pub fn line_range_to_source_bytes(view: &LineView, start_line: usize, end_line: usize) -> (r: Result<
    (usize, usize),
    String,
>)
    ensures
        match r {
            Ok((a, b)) => line_span(
                view.raw(),
                view.kind(),
                view.start(),
                start_line as int,
                end_line as int,
            ) == Ok::<(int, int), Seq<char>>((a as int, b as int)),
            Err(m) => line_span(
                view.raw(),
                view.kind(),
                view.start(),
                start_line as int,
                end_line as int,
            ) == Err::<(int, int), Seq<char>>(m@),
        },
        r matches Ok((a, b)) ==> view.start() <= a <= b <= view.start() + view.raw().len(),
{
    let starts = find_line_starts(view);
    let total: usize = count_lines(view, &starts);
    let ghost all = line_starts(view.raw(), view.kind());
    proof {
        lemma_line_starts(view.raw(), view.kind());
        assert(start_views(starts@).len() == starts@.len());
    }
    let a: usize = if start_line == EOF_SENTINEL {
        total
    } else {
        start_line
    };
    let b: usize = if end_line == EOF_SENTINEL {
        total
    } else {
        end_line
    };
    if a == 0 {
        return Err("edit: line numbers are 1-based (minimum 1)".to_owned());
    }
    if end_line != EOF_SENTINEL && a > b {
        let mut m = "edit: start line ".to_owned();
        push_dec(&mut m, a as u64);
        m.push_str(" is after end line ");
        push_dec(&mut m, b as u64);
        return Err(m);
    }
    if a > total {
        return Err(out_of_range_message(a, total));
    }
    if b > total {
        return Err(out_of_range_message(b, total));
    }
    let from: usize = starts[a - 1];
    let to: usize = if b < starts.len() {
        starts[b]
    } else {
        view.content().len()
    };
    proof {
        assert(start_views(starts@)[a - 1] == from);
        assert(all[a - 1] == from);
        if b < starts@.len() {
            assert(start_views(starts@)[b as int] == to);
            assert(all[b as int] == to);
        }
        assert(from <= to <= view.raw().len());
    }
    Ok((view.to_source(from), view.to_source(to)))
}

/// What is inserted into a file: text in UTF-8, encoded as the file is, with its LF
/// replaced by the line ending; or the message of the error. Bytes that are no UTF-8, and
/// bytes for a file in UTF-8, are taken for bytes in the encoding of the file.
pub open spec fn inserted(data: Seq<u8>, kind: EncodingKind, ending: LineEnding) -> Result<
    Seq<u8>,
    Seq<char>,
> {
    match kind {
        EncodingKind::Utf8 => Ok(native_lf_to(data, kind, ending)),
        _ => if !valid_utf8(data) {
            Ok(native_lf_to(data, kind, ending))
        } else {
            match encoded_strict(decode_utf8(data), kind) {
                Ok(bytes) => Ok(native_lf_to(bytes, kind, ending)),
                Err(m) => Err("edit: "@ + m),
            }
        },
    }
}

/// What is inserted into a file in the given encoding.
fn encode_inserted(data: Vec<u8>, encoding: &TextEncoding, ending: LineEnding) -> (r: Result<
    Vec<u8>,
    String,
>)
    ensures
        match r {
            Ok(b) => inserted(data@, encoding@, ending) == Ok::<Seq<u8>, Seq<char>>(b@),
            Err(m) => inserted(data@, encoding@, ending) == Err::<Seq<u8>, Seq<char>>(m@),
        },
{
    match encoding {
        TextEncoding::Utf8 => Ok(denormalize_lf(data, encoding, ending)),
        _ => match from_utf8(data.as_slice()) {
            Ok(text) => match encode_text_strict(text.as_str(), encoding) {
                Ok(bytes) => Ok(denormalize_lf(bytes, encoding, ending)),
                Err(m) => Err(prefixed("edit: ", m.as_str())),
            },
            Err(_) => Ok(denormalize_lf(data, encoding, ending)),
        },
    }
}

/// The span in the file of a line edit, or the message of the error.
pub open spec fn line_op_span(
    op: EditOp,
    file: Seq<u8>,
    kind: EncodingKind,
    bom_len: nat,
    ending: LineEnding,
) -> Result<Span, Seq<char>> {
    let raw = file.skip(bom_len as int);
    match op {
        EditOp::Delete { start, end } => match line_span(
            raw,
            kind,
            bom_len,
            start as int,
            end as int,
        ) {
            Ok((a, b)) => Ok(Span { start: a, end: b, data: seq![] }),
            Err(m) => Err("--delete: "@ + m),
        },
        EditOp::Insert { offset, data } => {
            let at = if offset == EOF_SENTINEL || offset == total_lines(raw, kind) + 1 {
                Ok((file.len() as int, file.len() as int))
            } else {
                line_span(raw, kind, bom_len, offset as int, offset as int)
            };
            match (at, inserted(data@, kind, ending)) {
                (Err(m), _) => Err("--insert: "@ + m),
                (_, Err(m)) => Err("--insert: "@ + m),
                (Ok((a, _)), Ok(shown)) => Ok(Span { start: a, end: a, data: shown }),
            }
        },
        EditOp::Splice { start, end, data } => match (
            line_span(raw, kind, bom_len, start as int, end as int),
            inserted(data@, kind, ending),
        ) {
            (Err(m), _) => Err("--splice: "@ + m),
            (_, Err(m)) => Err("--splice: "@ + m),
            (Ok((a, b)), Ok(shown)) => Ok(Span { start: a, end: b, data: shown }),
        },
    }
}

/// The spans of line edits, or the message of the first error.
pub open spec fn line_op_spans(
    ops: Seq<EditOp>,
    file: Seq<u8>,
    kind: EncodingKind,
    bom_len: nat,
    ending: LineEnding,
) -> Result<Seq<Span>, Seq<char>>
    decreases ops.len(),
{
    if ops.len() == 0 {
        Ok(seq![])
    } else {
        match line_op_spans(ops.drop_last(), file, kind, bom_len, ending) {
            Err(m) => Err(m),
            Ok(spans) => match line_op_span(ops.last(), file, kind, bom_len, ending) {
                Err(m) => Err(m),
                Ok(p) => Ok(spans.push(p)),
            },
        }
    }
}

/// A file after line edits, or the message of the error. All line numbers refer
/// to the file before.
pub open spec fn line_edited(
    file: Seq<u8>,
    kind: EncodingKind,
    bom_len: nat,
    ending: LineEnding,
    ops: Seq<EditOp>,
) -> Result<Seq<u8>, Seq<char>> {
    if file.len() - bom_len > VIEW_CEILING {
        Err(ceiling_message((file.len() - bom_len) as nat))
    } else {
        match line_op_spans(ops, file, kind, bom_len, ending) {
            Err(m) => Err(m),
            Ok(spans) => {
                let sorted = sort_spans(spans);
                match overlap_error(sorted, 0) {
                    Some(m) => Err(m),
                    None => Ok(rewritten(file, sorted, 0)),
                }
            },
        }
    }
}

/// Each span lies within `[lo, hi]`.
spec fn within(s: Seq<Span>, lo: int, hi: int) -> bool {
    forall|i: int| 0 <= i < s.len() ==> lo <= (#[trigger] s[i]).start <= s[i].end <= hi
}

proof fn lemma_insert_within(s: Seq<Span>, p: Span, lo: int, hi: int)
    requires
        within(s, lo, hi),
        lo <= p.start <= p.end <= hi,
    ensures
        within(insert_span(s, p), lo, hi),
        insert_span(s, p).len() == s.len() + 1,
    decreases s.len(),
{
    if s.len() > 0 && before(p, s.last()) {
        assert(within(s.drop_last(), lo, hi));
        lemma_insert_within(s.drop_last(), p, lo, hi);
    }
}

proof fn lemma_sort_within(s: Seq<Span>, lo: int, hi: int)
    requires
        within(s, lo, hi),
    ensures
        within(sort_spans(s), lo, hi),
        sort_spans(s).len() == s.len(),
    decreases s.len(),
{
    if s.len() > 0 {
        assert(within(s.drop_last(), lo, hi));
        lemma_sort_within(s.drop_last(), lo, hi);
        lemma_insert_within(sort_spans(s.drop_last()), s.last(), lo, hi);
    }
}

fn prefixed(what: &str, m: &str) -> (r: String)
    ensures
        r@ == what@ + m@,
{
    let mut out = what.to_owned();
    out.push_str(m);
    out
}

/// The patch of a line edit.
fn line_patch(
    op: EditOp,
    view: &LineView,
    total: usize,
    file_len: usize,
    ending: LineEnding,
    Ghost(file): Ghost<Seq<u8>>,
) -> (r: Result<Patch, String>)
    requires
        view.start() <= file.len(),
        view.raw() == file.skip(view.start() as int),
        total == total_lines(view.raw(), view.kind()),
        file_len == file.len(),
    ensures
        match r {
            Ok(p) => line_op_span(op, file, view.kind(), view.start(), ending) == Ok::<
                Span,
                Seq<char>,
            >(p@) && view.start() <= p@.start <= p@.end <= file.len(),
            Err(m) => line_op_span(op, file, view.kind(), view.start(), ending) == Err::<
                Span,
                Seq<char>,
            >(m@),
        },
{
    match op {
        EditOp::Delete { start, end } => match line_range_to_source_bytes(view, start, end) {
            Ok((a, b)) => {
                let p = Patch { start: a, end: b, data: Vec::new() };
                proof {
                    assert(p.data@ =~= seq![]);
                }
                Ok(p)
            },
            Err(m) => Err(prefixed("--delete: ", m.as_str())),
        },
        EditOp::Insert { offset, data } => {
            let at: usize = if offset == EOF_SENTINEL || (offset > 0 && offset - 1 == total) {
                file_len
            } else {
                match line_range_to_source_bytes(view, offset, offset) {
                    Ok((a, _)) => a,
                    Err(m) => {
                        return Err(prefixed("--insert: ", m.as_str()));
                    },
                }
            };
            match encode_inserted(data, view.encoding(), ending) {
                Ok(shown) => Ok(Patch { start: at, end: at, data: shown }),
                Err(m) => Err(prefixed("--insert: ", m.as_str())),
            }
        },
        EditOp::Splice { start, end, data } => match line_range_to_source_bytes(view, start, end) {
            Ok((a, b)) => match encode_inserted(data, view.encoding(), ending) {
                Ok(shown) => Ok(Patch { start: a, end: b, data: shown }),
                Err(m) => Err(prefixed("--splice: ", m.as_str())),
            },
            Err(m) => Err(prefixed("--splice: ", m.as_str())),
        },
    }
}

/// The patches of line edits.
fn line_patches(
    ops: Vec<EditOp>,
    view: &LineView,
    total: usize,
    file_len: usize,
    ending: LineEnding,
    Ghost(file): Ghost<Seq<u8>>,
) -> (r: Result<Vec<Patch>, String>)
    requires
        view.start() <= file.len(),
        view.raw() == file.skip(view.start() as int),
        total == total_lines(view.raw(), view.kind()),
        file_len == file.len(),
    ensures
        match r {
            Ok(v) => line_op_spans(ops@, file, view.kind(), view.start(), ending) == Ok::<
                Seq<Span>,
                Seq<char>,
            >(spans_of(v@)) && within(spans_of(v@), view.start() as int, file.len() as int) && v@.len()
                == ops@.len(),
            Err(m) => line_op_spans(ops@, file, view.kind(), view.start(), ending) == Err::<
                Seq<Span>,
                Seq<char>,
            >(m@),
        },
{
    let mut out: Vec<Patch> = Vec::new();
    proof {
        assert(ops@.take(0) =~= seq![]);
        assert(spans_of(out@) =~= seq![]);
    }
    for op in it: ops
        invariant
            it.seq() == ops@,
            view.start() <= file.len(),
            view.raw() == file.skip(view.start() as int),
            total == total_lines(view.raw(), view.kind()),
            file_len == file.len(),
            out@.len() == it.index(),
            line_op_spans(ops@.take(it.index()), file, view.kind(), view.start(), ending) == Ok::<
                Seq<Span>,
                Seq<char>,
            >(spans_of(out@)),
            within(spans_of(out@), view.start() as int, file.len() as int),
    {
        proof {
            let k = it.index();
            assert(op == ops@[k]);
            assert(ops@.take(k + 1).drop_last() =~= ops@.take(k));
            assert(ops@.take(k + 1).last() == op);
        }
        let ghost had = spans_of(out@);
        match line_patch(op, view, total, file_len, ending, Ghost(file)) {
            Ok(p) => {
                let ghost shown = p@;
                out.push(p);
                proof {
                    assert(spans_of(out@) =~= had.push(shown));
                    assert(within(spans_of(out@), view.start() as int, file.len() as int));
                }
            },
            Err(m) => {
                proof {
                    lemma_first_line_error(
                        ops@,
                        it.index() + 1,
                        file,
                        view.kind(),
                        view.start(),
                        ending,
                        m@,
                    );
                }
                return Err(m);
            },
        }
    }
    proof {
        assert(ops@.take(ops@.len() as int) =~= ops@);
    }
    Ok(out)
}

proof fn lemma_first_line_error(
    ops: Seq<EditOp>,
    k: int,
    file: Seq<u8>,
    kind: EncodingKind,
    bom_len: nat,
    ending: LineEnding,
    m: Seq<char>,
)
    requires
        0 < k <= ops.len(),
        line_op_spans(ops.take(k), file, kind, bom_len, ending) == Err::<Seq<Span>, Seq<char>>(m),
    ensures
        line_op_spans(ops, file, kind, bom_len, ending) == Err::<Seq<Span>, Seq<char>>(m),
    decreases ops.len(),
{
    if k == ops.len() {
        assert(ops.take(k) =~= ops);
    } else {
        assert(ops.drop_last().take(k) =~= ops.take(k));
        lemma_first_line_error(ops.drop_last(), k, file, kind, bom_len, ending, m);
    }
}

/// The texts that a line edit's outcome is checked by: the normalised content
/// before, and the file after, decoded.
pub open spec fn guard_texts(
    file: Seq<u8>,
    bom_len: nat,
    encoding: EncodingKind,
    bytes: Seq<u8>,
) -> (Option<Seq<char>>, Option<Seq<char>>) {
    (
        whatwg_sniffed(encoding.name(), native_to_lf(file.skip(bom_len as int), encoding)),
        whatwg_sniffed(encoding.name(), bytes),
    )
}

/// The unified diff that a line edit's outcome is shown by: of the texts before and after,
/// with line endings normalised.
pub open spec fn line_edit_diff(
    label: Seq<char>,
    file: Seq<u8>,
    bom_len: nat,
    encoding: EncodingKind,
    bytes: Seq<u8>,
) -> Seq<char> {
    file_diff(
        label,
        decoded_replacing(native_to_lf(file.skip(bom_len as int), encoding), encoding)->Ok_0,
        decoded_replacing(native_to_lf(bytes.skip(bom_len as int), encoding), encoding)->Ok_0,
    )
}

/// The outcome of a line edit that leaves `bytes`.
pub open spec fn is_line_outcome(
    o: EditOutcome,
    label: Seq<char>,
    file: Seq<u8>,
    info: SourceModel,
    op_count: int,
    bytes: Seq<u8>,
    want_texts: bool,
    want_diff: bool,
) -> bool {
    &&& o.op_count == op_count
    &&& o.bytes is Some && o.bytes->0@ == bytes
    &&& match o.texts {
        Some((old_text, new_text)) => want_texts && guard_texts(
            file,
            info.bom_len,
            info.encoding,
            bytes,
        ) == (Some(old_text@), Some(new_text@)),
        None => !want_texts,
    }
    &&& match o.diff {
        Some(diff) => want_diff && diff@ == line_edit_diff(
            label,
            file,
            info.bom_len,
            info.encoding,
            bytes,
        ),
        None => !want_diff,
    }
}

/// The result of line edits to a file of which `info` was detected. It is `Ok`
/// where the edits are valid, unless the new content cannot be addressed.
pub open spec fn is_line_result(
    r: Result<EditOutcome, String>,
    label: Seq<char>,
    file: Seq<u8>,
    info: SourceModel,
    ops: Seq<EditOp>,
    line_ending_override: Option<LineEnding>,
    want_texts: bool,
    want_diff: bool,
) -> bool {
    let ending = match line_ending_override {
        Some(e) => e,
        None => info.line_ending,
    };
    match line_edited(file, info.encoding, info.bom_len, ending, ops) {
        Err(m) => r is Err && r->Err_0@ == m,
        Ok(bytes) => {
            &&& r matches Ok(o) ==> is_line_outcome(
                o,
                label,
                file,
                info,
                ops.len() as int,
                bytes,
                want_texts,
                want_diff,
            )
            &&& bytes.len() <= usize::MAX && is_known(info.encoding) ==> r is Ok
        },
    }
}

/// The result of byte edits.
pub open spec fn is_binary_result(
    r: Result<EditOutcome, String>,
    content: Seq<u8>,
    ops: Seq<EditOp>,
) -> bool {
    match binary_edited(content, ops) {
        Err(m) => r is Err && r->Err_0@ == m,
        Ok(bytes) => {
            &&& r matches Ok(o) ==> o.op_count == ops.len() && o.bytes is Some && o.bytes->0@
                == bytes && o.texts is None && o.diff is None
            &&& bytes.len() <= usize::MAX ==> r is Ok
        },
    }
}

/// The result where there is nothing to do.
pub open spec fn is_idle_result(r: Result<EditOutcome, String>) -> bool {
    r matches Ok(o) && o.op_count == 0 && o.bytes is None && o.texts is None && o.diff is None
}

/// Apply line edits to a file of which `info` was detected. Lines are told and texts are
/// inserted in the encoding of the file. `want_texts` asks
/// for the texts to check before writing, `want_diff` for a unified diff.
pub fn run_line(
    label: &str,
    file: &[u8],
    info: &SourceInfo,
    ops: Vec<EditOp>,
    line_ending_override: Option<LineEnding>,
    want_texts: bool,
    want_diff: bool,
) -> (r: Result<EditOutcome, String>)
    requires
        info.bom_len <= file@.len(),
        ops@.len() > 0,
    ensures
        is_line_result(
            r,
            label@,
            file@,
            info@,
            ops@,
            line_ending_override,
            want_texts,
            want_diff,
        ),
{
    let ending = match line_ending_override {
        Some(e) => e,
        None => info.line_ending,
    };
    let op_count: usize = ops.len();
    let view = match LineView::over(file, info.bom_len, &info.encoding) {
        Ok(v) => v,
        Err(m) => {
            return Err(m);
        },
    };
    let starts = find_line_starts(&view);
    let total: usize = count_lines(&view, &starts);
    let patches = match line_patches(ops, &view, total, file.len(), ending, Ghost(file@)) {
        Ok(v) => v,
        Err(m) => {
            return Err(m);
        },
    };
    proof {
        lemma_sort_within(spans_of(patches@), info.bom_len as int, file@.len() as int);
    }
    let sorted = sort_patches(patches);
    match find_overlap(&sorted) {
        Some(m) => {
            return Err(m);
        },
        None => {},
    }
    let bytes = match apply_patches(file, &sorted) {
        Ok(b) => b,
        Err(m) => {
            return Err(m);
        },
    };
    proof {
        let spans = spans_of(sorted@);
        assert(spans[0].start >= info.bom_len);
        assert(bytes@.len() >= info.bom_len);
    }
    let texts = if want_texts {
        let old_text = match decode_text_lossy(view.bytes().as_slice(), &info.encoding) {
            Ok(t) => t,
            Err(m) => {
                return Err(m);
            },
        };
        let new_text = match decode_text_lossy(bytes.as_slice(), &info.encoding) {
            Ok(t) => t,
            Err(m) => {
                return Err(m);
            },
        };
        Some((old_text, new_text))
    } else {
        None
    };
    let diff = if want_diff {
        let old_text = match decode_text_replacing(view.bytes().as_slice(), &info.encoding) {
            Ok(t) => t,
            Err(m) => {
                return Err(m);
            },
        };
        let content = vstd::slice::slice_subrange(bytes.as_slice(), info.bom_len, bytes.len());
        proof {
            assert(content@ =~= bytes@.skip(info.bom_len as int));
        }
        let norm = normalize_native_to_lf(content, &info.encoding);
        let new_text = match decode_text_replacing(norm.as_slice(), &info.encoding) {
            Ok(t) => t,
            Err(m) => {
                return Err(m);
            },
        };
        Some(unified_diff(label, old_text.as_str(), new_text.as_str()))
    } else {
        None
    };
    Ok(EditOutcome { op_count, bytes: Some(bytes), texts, diff })
}

/// Apply edits to a file: byte edits in binary mode, line edits otherwise.
pub fn run(
    label: &str,
    file: &[u8],
    ops: Vec<EditOp>,
    binary: bool,
    line_ending_override: Option<LineEnding>,
    want_texts: bool,
    want_diff: bool,
) -> (r: Result<EditOutcome, String>)
    ensures
        ops@.len() == 0 ==> is_idle_result(r),
        ops@.len() > 0 && binary ==> is_binary_result(r, file@, ops@),
        ops@.len() > 0 && !binary ==> match source_of(file@) {
            Err(m) => r is Err && r->Err_0@ == m,
            Ok(info) => is_known(info.encoding) && is_line_result(
                r,
                label@,
                file@,
                info,
                ops@,
                line_ending_override,
                want_texts,
                want_diff,
            ),
        },
{
    if binary {
        return run_binary(file, ops);
    }
    if ops.len() == 0 {
        return Ok(EditOutcome { op_count: 0, bytes: None, texts: None, diff: None });
    }
    match open_source(file) {
        Ok(info) => run_line(
            label,
            file,
            &info,
            ops,
            line_ending_override,
            want_texts,
            want_diff,
        ),
        Err(m) => Err(m),
    }
}

// ── Laws ────────────────────────────────────────────────────────────────────

/// No two spans take the same range.
pub open spec fn distinct_ranges(s: Seq<Span>) -> bool {
    forall|i: int, j: int|
        0 <= i < j < s.len() ==> before(#[trigger] s[i], #[trigger] s[j]) || before(s[j], s[i])
}

/// No span comes before one that stands ahead of it.
spec fn in_order(s: Seq<Span>) -> bool {
    forall|i: int, j: int| 0 <= i < j < s.len() ==> !before(#[trigger] s[j], #[trigger] s[i])
}

proof fn lemma_insert_span(s: Seq<Span>, p: Span)
    requires
        in_order(s),
    ensures
        in_order(insert_span(s, p)),
        insert_span(s, p).to_multiset() =~= s.to_multiset().insert(p),
        insert_span(s, p).len() == s.len() + 1,
        forall|k: int| 0 <= k <= s.len() ==> #[trigger] insert_span(s, p)[k] == p || s.contains(
            insert_span(s, p)[k],
        ),
    decreases s.len(),
{
    broadcast use vstd::seq_lib::group_to_multiset_ensures;

    let r = insert_span(s, p);
    if s.len() > 0 && before(p, s.last()) {
        let t = s.drop_last();
        assert(in_order(t)) by {
            assert forall|i: int, j: int| 0 <= i < j < t.len() implies !before(
                #[trigger] t[j],
                #[trigger] t[i],
            ) by {
                assert(t[i] == s[i] && t[j] == s[j]);
            }
        }
        lemma_insert_span(t, p);
        let rt = insert_span(t, p);
        assert(r =~= rt.push(s.last()));
        assert(s =~= t.push(s.last()));
        assert(r.to_multiset() =~= rt.to_multiset().insert(s.last()));
        assert(s.to_multiset() =~= t.to_multiset().insert(s.last()));
        assert forall|k: int| 0 <= k <= s.len() implies #[trigger] r[k] == p || s.contains(r[k]) by {
            if k < rt.len() {
                assert(r[k] == rt[k]);
                if rt[k] != p {
                    let m = choose|m: int| 0 <= m < t.len() && t[m] == rt[k];
                    assert(s[m] == r[k]);
                }
            } else {
                assert(r[k] == s[s.len() - 1]);
            }
        }
        assert forall|i: int, j: int| 0 <= i < j < r.len() implies !before(
            #[trigger] r[j],
            #[trigger] r[i],
        ) by {
            if j < rt.len() {
                assert(r[i] == rt[i] && r[j] == rt[j]);
            } else {
                assert(r[j] == s.last());
                assert(r[i] == rt[i]);
                if rt[i] != p {
                    let m = choose|m: int| 0 <= m < t.len() && t[m] == rt[i];
                    assert(s[m] == rt[i]);
                }
            }
        }
    } else {
        assert(r =~= s.push(p));
        assert forall|k: int| 0 <= k <= s.len() implies #[trigger] r[k] == p || s.contains(r[k]) by {
            if k < s.len() {
                assert(s[k] == r[k]);
            }
        }
        assert forall|i: int, j: int| 0 <= i < j < r.len() implies !before(
            #[trigger] r[j],
            #[trigger] r[i],
        ) by {
            if j < s.len() {
                assert(r[i] == s[i] && r[j] == s[j]);
            } else {
                assert(r[i] == s[i]);
                if i < s.len() - 1 {
                    assert(!before(s[s.len() - 1], s[i]));
                }
            }
        }
    }
}

proof fn lemma_sort_spans(s: Seq<Span>)
    ensures
        in_order(sort_spans(s)),
        sort_spans(s).to_multiset() =~= s.to_multiset(),
        sort_spans(s).len() == s.len(),
    decreases s.len(),
{
    broadcast use vstd::seq_lib::group_to_multiset_ensures;

    if s.len() > 0 {
        lemma_sort_spans(s.drop_last());
        lemma_insert_span(sort_spans(s.drop_last()), s.last());
        assert(s =~= s.drop_last().push(s.last()));
        assert(s.to_multiset() =~= s.drop_last().to_multiset().insert(s.last()));
    } else {
        assert(sort_spans(s) =~= s);
    }
}

/// Any two spans that both occur are one and the same or differ in their range.
spec fn separated(s: Seq<Span>) -> bool {
    forall|a: Span, b: Span|
        #![trigger s.contains(a), s.contains(b)]
        s.contains(a) && s.contains(b) && a != b ==> before(a, b) || before(b, a)
}

proof fn lemma_in_order_unique(a: Seq<Span>, b: Seq<Span>)
    requires
        in_order(a),
        in_order(b),
        a.to_multiset() =~= b.to_multiset(),
        separated(a),
    ensures
        a == b,
    decreases a.len(),
{
    broadcast use vstd::seq_lib::group_to_multiset_ensures;

    assert(a.len() == b.len()) by {
        assert(a.to_multiset().len() == a.len());
        assert(b.to_multiset().len() == b.len());
    }
    if a.len() == 0 {
        assert(a =~= b);
    } else {
        let x = a.last();
        let y = b.last();
        assert(a.contains(x));
        assert(a.to_multiset().contains(x));
        assert(b.contains(x));
        assert(b.contains(y));
        assert(b.to_multiset().contains(y));
        assert(a.contains(y));
        let i = choose|i: int| 0 <= i < a.len() && a[i] == y;
        let j = choose|j: int| 0 <= j < b.len() && b[j] == x;
        if i < a.len() - 1 {
            assert(!before(a[a.len() - 1], a[i]));
        }
        if j < b.len() - 1 {
            assert(!before(b[b.len() - 1], b[j]));
        }
        assert(x == y);
        let c = a.drop_last();
        let d = b.drop_last();
        assert(a =~= c.push(x));
        assert(b =~= d.push(x));
        assert(a.to_multiset() =~= c.to_multiset().insert(x));
        assert(b.to_multiset() =~= d.to_multiset().insert(x));
        assert(c.to_multiset() =~= a.to_multiset().remove(x));
        assert(d.to_multiset() =~= b.to_multiset().remove(x));
        assert forall|u: Span, v: Span|
            #![trigger c.contains(u), c.contains(v)]
            c.contains(u) && c.contains(v) && u != v implies before(u, v) || before(v, u) by {
            let m = choose|m: int| 0 <= m < c.len() && c[m] == u;
            let n = choose|n: int| 0 <= n < c.len() && c[n] == v;
            assert(a[m] == u && a[n] == v);
            assert(a.contains(u) && a.contains(v));
        }
        assert(in_order(c)) by {
            assert forall|i: int, j: int| 0 <= i < j < c.len() implies !before(
                #[trigger] c[j],
                #[trigger] c[i],
            ) by {
                assert(c[i] == a[i] && c[j] == a[j]);
            }
        }
        assert(in_order(d)) by {
            assert forall|i: int, j: int| 0 <= i < j < d.len() implies !before(
                #[trigger] d[j],
                #[trigger] d[i],
            ) by {
                assert(d[i] == b[i] && d[j] == b[j]);
            }
        }
        lemma_in_order_unique(c, d);
    }
}

/// Edits that take distinct ranges give the same result in whatever order they
/// are listed.
pub proof fn law_order_of_edits_is_irrelevant(content: Seq<u8>, a: Seq<EditOp>, b: Seq<EditOp>)
    requires
        a.map_values(|op: EditOp| op_span(op)).to_multiset() == b.map_values(
            |op: EditOp| op_span(op),
        ).to_multiset(),
        distinct_ranges(a.map_values(|op: EditOp| op_span(op))),
    ensures
        binary_edited(content, a) == binary_edited(content, b),
{
    broadcast use vstd::seq_lib::group_to_multiset_ensures;

    let sa = a.map_values(|op: EditOp| op_span(op));
    let sb = b.map_values(|op: EditOp| op_span(op));
    lemma_sort_spans(sa);
    lemma_sort_spans(sb);
    let ra = sort_spans(sa);
    assert forall|u: Span, v: Span|
        #![trigger ra.contains(u), ra.contains(v)]
        ra.contains(u) && ra.contains(v) && u != v implies before(u, v) || before(v, u) by {
        assert(ra.to_multiset().contains(u));
        assert(ra.to_multiset().contains(v));
        assert(sa.contains(u));
        assert(sa.contains(v));
        let m = choose|m: int| 0 <= m < sa.len() && sa[m] == u;
        let n = choose|n: int| 0 <= n < sa.len() && sa[n] == v;
        assert(before(sa[m], sa[n]) || before(sa[n], sa[m]));
    }
    lemma_in_order_unique(ra, sort_spans(sb));
}

/// What stands before the first edited range stays as it is.
pub proof fn law_edits_keep_what_is_before_them(content: Seq<u8>, spans: Seq<Span>, k: int)
    requires
        0 <= k <= content.len(),
        forall|i: int|
            0 <= i < spans.len() ==> k <= (#[trigger] spans[i]).start <= content.len(),
    ensures
        rewritten(content, spans, 0).len() >= k,
        rewritten(content, spans, 0).take(k) == content.take(k),
{
    if spans.len() > 0 {
        assert(k <= spans[0].start);
    }
    assert(rewritten(content, spans, 0).take(k) =~= content.take(k));
}

/// LF in an encoding.
spec fn lf_unit(kind: EncodingKind) -> Seq<u8> {
    match kind {
        EncodingKind::Utf16Le => seq![0x0Au8, 0x00u8],
        EncodingKind::Utf16Be => seq![0x00u8, 0x0Au8],
        _ => seq![0x0Au8],
    }
}

/// Normalising takes one line ending or one code unit at a time.
proof fn lemma_native_step(s: Seq<u8>, kind: EncodingKind)
    requires
        s.len() > 0,
    ensures
        ending_len(s, kind) <= s.len(),
        ending_len(s, kind) > 0 ==> native_to_lf(s, kind) == lf_unit(kind) + native_to_lf(
            s.skip(ending_len(s, kind) as int),
            kind,
        ),
        ending_len(s, kind) == 0 ==> native_to_lf(s, kind) == s.take(unit_len(s, kind) as int)
            + native_to_lf(s.skip(unit_len(s, kind) as int), kind),
{
    if s.len() >= 2 {
        assert(s.take(2) =~= seq![s[0], s[1]]);
    }
    assert(s.take(1) =~= seq![s[0]]);
    if s.len() == 1 {
        assert(s.take(1) + s.skip(1) =~= s);
    }
}

/// The line endings from an offset on are those of what stands from there on.
proof fn lemma_ends_shift(raw: Seq<u8>, kind: EncodingKind, n: int, i: int)
    requires
        0 <= n <= i <= raw.len(),
    ensures
        ends_from(raw, kind, i) == ends_from(raw.skip(n), kind, i - n).map_values(|p: int| p + n),
    decreases raw.len() - i,
{
    let rest = raw.skip(n);
    if i < raw.len() {
        assert(raw.skip(i) =~= rest.skip(i - n));
        let e = ending_len(raw.skip(i), kind);
        lemma_native_step(raw.skip(i), kind);
        if e > 0 {
            lemma_ends_shift(raw, kind, n, i + e);
        } else {
            lemma_ends_shift(raw, kind, n, i + unit_len(raw.skip(i), kind));
        }
    }
    assert(ends_from(raw, kind, i) =~= ends_from(rest, kind, i - n).map_values(|p: int| p + n));
}

/// The length of the line ending, or else of the code unit, that content begins with.
spec fn step_len(s: Seq<u8>, kind: EncodingKind) -> int {
    if ending_len(s, kind) > 0 {
        ending_len(s, kind) as int
    } else {
        unit_len(s, kind) as int
    }
}

/// What the line ending, or else the code unit, that content begins with normalises to.
spec fn step_head(s: Seq<u8>, kind: EncodingKind) -> Seq<u8> {
    if ending_len(s, kind) > 0 {
        lf_unit(kind)
    } else {
        s.take(unit_len(s, kind) as int)
    }
}

proof fn lemma_step_head(s: Seq<u8>, kind: EncodingKind)
    requires
        s.len() > 0,
    ensures
        0 < step_len(s, kind) <= s.len(),
        0 < step_head(s, kind).len(),
        native_to_lf(s, kind) == step_head(s, kind) + native_to_lf(
            s.skip(step_len(s, kind)),
            kind,
        ),
        (ending_len(native_to_lf(s, kind), kind) > 0) == (ending_len(s, kind) > 0),
        step_len(native_to_lf(s, kind), kind) == step_head(s, kind).len(),
{
    lemma_native_step(s, kind);
    let rest = native_to_lf(s.skip(step_len(s, kind)), kind);
    let norm = step_head(s, kind) + rest;
    assert(norm[0] == step_head(s, kind)[0]);
    if step_head(s, kind).len() > 1 {
        assert(norm[1] == step_head(s, kind)[1]);
    } else if s.len() == 1 {
        assert(s.skip(1) =~= seq![]);
        assert(rest =~= seq![]);
    }
}

proof fn lemma_take_step(s: Seq<u8>, kind: EncodingKind, a: int)
    requires
        s.len() > 0,
        0 <= a <= s.len() - step_len(s, kind),
    ensures
        native_to_lf(s.take(step_len(s, kind) + a), kind) == step_head(s, kind) + native_to_lf(
            s.skip(step_len(s, kind)).take(a),
            kind,
        ),
{
    lemma_step_head(s, kind);
    let n = step_len(s, kind);
    let t = s.take(n + a);
    assert(ending_len(t, kind) == ending_len(s, kind));
    assert(step_len(t, kind) == n);
    assert(t.take(n) =~= s.take(n));
    assert(t.skip(n) =~= s.skip(n).take(a));
    lemma_native_step(t, kind);
}

proof fn lemma_ends_step(s: Seq<u8>, kind: EncodingKind)
    requires
        s.len() > 0,
    ensures
        ({
            let n = step_len(s, kind);
            ends_from(s, kind, 0) == (if ending_len(s, kind) > 0 {
                seq![n]
            } else {
                seq![]
            }) + ends_from(s.skip(n), kind, 0).map_values(|p: int| p + n)
        }),
{
    lemma_step_head(s, kind);
    assert(s.skip(0) =~= s);
    let n = step_len(s, kind);
    lemma_ends_shift(s, kind, n, n);
    let rest = ends_from(s.skip(n), kind, 0).map_values(|p: int| p + n);
    assert(Seq::<int>::empty() + rest =~= rest);
}

proof fn lemma_ends_normalised(s: Seq<u8>, kind: EncodingKind)
    ensures
        ({
            let norm = native_to_lf(s, kind);
            let from = ends_from(s, kind, 0);
            let to = ends_from(norm, kind, 0);
            &&& from.len() == to.len()
            &&& (norm.len() == 0) == (s.len() == 0)
            &&& forall|k: int|
                0 <= k < from.len() ==> native_to_lf(s.take(#[trigger] from[k]), kind) == norm.take(
                    to[k],
                )
            &&& from.len() > 0 ==> (from.last() == s.len()) == (to.last() == norm.len())
        }),
    decreases s.len(),
{
    let norm = native_to_lf(s, kind);
    let from = ends_from(s, kind, 0);
    let to = ends_from(norm, kind, 0);
    if s.len() > 0 {
        lemma_step_head(s, kind);
        let head = step_head(s, kind);
        let n = step_len(s, kind);
        let m = head.len() as int;
        let rest = s.skip(n);
        assert(norm.skip(m) =~= native_to_lf(rest, kind));
        lemma_ends_normalised(rest, kind);
        lemma_ends_step(s, kind);
        lemma_ends_step(norm, kind);
        lemma_ends_from(rest, kind, 0);
        let from_rest = ends_from(rest, kind, 0);
        let to_rest = ends_from(norm.skip(m), kind, 0);
        lemma_ends_from(norm.skip(m), kind, 0);
        let one: int = if ending_len(s, kind) > 0 {
            1
        } else {
            0
        };
        assert(from.len() == one + from_rest.len() && to.len() == one + to_rest.len());
        assert forall|k: int| 0 <= k < from.len() implies native_to_lf(
            s.take(#[trigger] from[k]),
            kind,
        ) == norm.take(to[k]) by {
            if k < one {
                lemma_take_step(s, kind, 0);
                assert(rest.take(0) =~= seq![]);
                assert(norm.take(m) =~= head + Seq::<u8>::empty());
                assert(from[k] == n && to[k] == m);
            } else {
                let a = from_rest[k - one];
                let b = to_rest[k - one];
                assert(from[k] == n + a && to[k] == m + b);
                lemma_take_step(s, kind, a);
                assert(norm.take(m + b) =~= head + norm.skip(m).take(b));
            }
        }
        if from_rest.len() > 0 {
            assert(from.last() == n + from_rest.last());
            assert(to.last() == m + to_rest.last());
        }
    }
}

/// The lines that edits count are those of the normalised content: there are as many,
/// and what stands before each line of the file normalises to what stands before that
/// line of the normalised content.
pub proof fn law_lines_are_those_of_the_normalised_content(raw: Seq<u8>, kind: EncodingKind)
    ensures
        total_lines(raw, kind) == total_lines(native_to_lf(raw, kind), kind),
        line_starts(raw, kind).len() == line_starts(native_to_lf(raw, kind), kind).len(),
        forall|i: int|
            0 <= i < line_starts(raw, kind).len() ==> native_to_lf(
                raw.take(#[trigger] line_starts(raw, kind)[i]),
                kind,
            ) == native_to_lf(raw, kind).take(line_starts(native_to_lf(raw, kind), kind)[i]),
{
    let norm = native_to_lf(raw, kind);
    lemma_ends_normalised(raw, kind);
    let from = ends_from(raw, kind, 0);
    let to = ends_from(norm, kind, 0);
    assert(line_starts(raw, kind).last() == (if from.len() == 0 {
        0
    } else {
        from.last()
    }));
    assert(line_starts(norm, kind).last() == (if to.len() == 0 {
        0
    } else {
        to.last()
    }));
    assert forall|i: int| 0 <= i < line_starts(raw, kind).len() implies native_to_lf(
        raw.take(#[trigger] line_starts(raw, kind)[i]),
        kind,
    ) == norm.take(line_starts(norm, kind)[i]) by {
        if i == 0 {
            assert(raw.take(0) =~= seq![]);
            assert(norm.take(0) =~= seq![]);
        } else {
            assert(line_starts(raw, kind)[i] == from[i - 1]);
            assert(line_starts(norm, kind)[i] == to[i - 1]);
        }
    }
}

/// An insertion is a replacement of the empty range at its offset.
pub proof fn law_insert_is_an_empty_splice(offset: usize, data: Vec<u8>)
    ensures
        op_span(EditOp::Insert { offset, data }) == op_span(
            EditOp::Splice { start: offset, end: offset, data },
        ),
{
}

/// What is inserted into a file in UTF-8 takes the file's line ending as a whole: every LF
/// becomes that ending, no other is left, and normalising gives back what was to be
/// inserted.
pub proof fn law_inserted_bytes_take_the_ending(data: Seq<u8>, ending: LineEnding)
    requires
        forall|i: int| 0 <= i < data.len() ==> #[trigger] data[i] != 0x0D,
    ensures
        inserted(data, EncodingKind::Utf8, ending) matches Ok(bytes) && {
            &&& to_lf(bytes) == data
            &&& match ending {
                LineEnding::Lf => bytes == data,
                LineEnding::CrLf => {
                    &&& forall|i: int|
                        0 <= i < bytes.len() && #[trigger] bytes[i] == 0x0A ==> i > 0 && bytes[i
                            - 1] == 0x0D
                    &&& forall|i: int|
                        0 <= i < bytes.len() && #[trigger] bytes[i] == 0x0D ==> i + 1 < bytes.len()
                            && bytes[i + 1] == 0x0A
                },
                LineEnding::Cr => forall|i: int|
                    0 <= i < bytes.len() ==> #[trigger] bytes[i] != 0x0A,
            }
        },
{
    law_converted_bytes_have_one_ending(data, ending);
    law_normalize_undoes_denormalize(data, EncodingKind::Utf8, ending);
}

/// Text inserted into a file in another encoding is that text, with the file's line ending,
/// in the encoding of the file; where the encoding cannot hold it, nothing is inserted. Bytes
/// that are no text are taken for bytes in the encoding of the file.
pub proof fn law_inserted_text_is_encoded(text: Seq<char>, kind: EncodingKind, ending: LineEnding)
    ensures
        !(kind is Legacy) ==> inserted(encode_utf8(text), kind, ending) == encoded_strict(
            text_lf_to(text, ending),
            kind,
        ),
        kind is Legacy ==> match encoded_strict(text, kind) {
            Ok(bytes) => inserted(encode_utf8(text), kind, ending) matches Ok(b) && (
            is_lf_only(bytes, kind) ==> native_to_lf(b, kind) == bytes && only_ending(b, ending)),
            Err(_) => inserted(encode_utf8(text), kind, ending) is Err,
        },
        forall|data: Seq<u8>|
            !valid_utf8(data) && is_lf_only(data, kind) ==> (#[trigger] inserted(data, kind, ending)
                matches Ok(b) && native_to_lf(b, kind) == data),
{
    encode_utf8_valid_utf8(text);
    encode_utf8_decode_utf8(text);
    if !(kind is Legacy) {
        law_native_conversion_is_text_conversion(text, kind, ending);
    } else {
        match encoded_strict(text, kind) {
            Ok(bytes) => {
                if is_lf_only(bytes, kind) {
                    law_normalize_undoes_denormalize(bytes, kind, ending);
                    law_converted_bytes_have_one_ending(bytes, ending);
                }
            },
            Err(_) => {},
        }
    }
    assert forall|data: Seq<u8>| !valid_utf8(data) && is_lf_only(data, kind) implies (
    #[trigger] inserted(data, kind, ending) matches Ok(b) && native_to_lf(b, kind) == data) by {
        law_normalize_undoes_denormalize(data, kind, ending);
    }
}

/// The number of bytes of a code unit.
pub open spec fn unit_width(kind: EncodingKind) -> int {
    if kind is Utf16Le || kind is Utf16Be {
        2
    } else {
        1
    }
}

/// The code unit before offset `p` is the ASCII character `b`.
pub open spec fn unit_before(raw: Seq<u8>, kind: EncodingKind, p: int, b: u8) -> bool {
    &&& unit_width(kind) <= p <= raw.len()
    &&& p % unit_width(kind) == 0
    &&& match kind {
        EncodingKind::Utf16Le => raw[p - 2] == b && raw[p - 1] == 0,
        EncodingKind::Utf16Be => raw[p - 2] == 0 && raw[p - 1] == b,
        _ => raw[p - 1] == b,
    }
}

/// A line ends at offset `p`: LF stands before it, or CR without LF behind it.
pub open spec fn line_ends_at(raw: Seq<u8>, kind: EncodingKind, p: int) -> bool {
    unit_before(raw, kind, p, 0x0A) || (unit_before(raw, kind, p, 0x0D) && !unit_before(
        raw,
        kind,
        p + unit_width(kind),
        0x0A,
    ))
}

proof fn lemma_ends_are(raw: Seq<u8>, kind: EncodingKind, i: int, p: int)
    requires
        0 <= i <= raw.len(),
        i % unit_width(kind) == 0 || i == raw.len(),
        !(unit_before(raw, kind, i, 0x0D) && unit_before(raw, kind, i + unit_width(kind), 0x0A)),
    ensures
        ends_from(raw, kind, i).contains(p) <==> i < p && line_ends_at(raw, kind, p),
    decreases raw.len() - i,
{
    let all = ends_from(raw, kind, i);
    if i < raw.len() {
        let s = raw.skip(i);
        let e = ending_len(s, kind) as int;
        let u = unit_len(s, kind) as int;
        let w = unit_width(kind);
        assert forall|k: int| 0 <= k < s.len() implies #[trigger] s[k] == raw[i + k] by {}
        let n = if e > 0 {
            e
        } else {
            u
        };
        let next = i + n;
        assert(next <= raw.len());
        assert(next % w == 0 || next == raw.len());
        if unit_before(raw, kind, next, 0x0D) && unit_before(raw, kind, next + w, 0x0A) {
            assert(s[n] == raw[next]);
            if w == 2 {
                assert(s[n + 1] == raw[next + 1]);
            }
            assert(false);
        }
        lemma_ends_are(raw, kind, next, p);
        let rest = ends_from(raw, kind, next);
        if e > 0 {
            assert(all =~= seq![next] + rest);
            assert(line_ends_at(raw, kind, next));
            if e == 2 * w {
                assert(!line_ends_at(raw, kind, i + w)) by {
                    assert(unit_before(raw, kind, i + 2 * w, 0x0A));
                }
            }
            if all.contains(p) {
                let k = choose|k: int| 0 <= k < all.len() && all[k] == p;
                if k > 0 {
                    assert(rest[k - 1] == p);
                    assert(rest.contains(p));
                }
            }
            if i < p && line_ends_at(raw, kind, p) {
                if p <= next {
                    assert(p % w == 0);
                    assert(p == next);
                    assert(all[0] == p);
                } else {
                    let k = choose|k: int| 0 <= k < rest.len() && rest[k] == p;
                    assert(all[k + 1] == p);
                }
            }
        } else {
            assert(all =~= rest);
            if i < p <= next && line_ends_at(raw, kind, p) {
                assert(p % w == 0);
                assert(p == next);
                assert(false);
            }
        }
    }
}

/// Lines begin at the start and behind each line ending, CR LF being one, and nowhere else;
/// their starts are listed in order, each once.
pub proof fn law_lines_begin_behind_line_endings(raw: Seq<u8>, kind: EncodingKind, p: int)
    ensures
        line_starts(raw, kind).contains(p) <==> p == 0 || line_ends_at(raw, kind, p),
        forall|i: int, j: int|
            0 <= i < j < line_starts(raw, kind).len() ==> #[trigger] line_starts(raw, kind)[i]
                < #[trigger] line_starts(raw, kind)[j],
        total_lines(raw, kind) == line_starts(raw, kind).len() - (if raw.len() == 0
            || line_ends_at(raw, kind, raw.len() as int) {
            1int
        } else {
            0
        }),
{
    lemma_line_starts(raw, kind);
    lemma_ends_from(raw, kind, 0);
    let all = line_starts(raw, kind);
    let rest = ends_from(raw, kind, 0);
    assert forall|q: int| all.contains(q) <==> q == 0 || #[trigger] line_ends_at(raw, kind, q) by {
        lemma_ends_are(raw, kind, 0, q);
        if all.contains(q) {
            let k = choose|k: int| 0 <= k < all.len() && all[k] == q;
            if k > 0 {
                assert(rest[k - 1] == q);
                assert(rest.contains(q));
            }
        }
        if q == 0 {
            assert(all[0] == 0);
        } else if line_ends_at(raw, kind, q) {
            let k = choose|k: int| 0 <= k < rest.len() && rest[k] == q;
            assert(all[k + 1] == q);
        }
    }
    assert(line_ends_at(raw, kind, p) || true);
    let n = raw.len() as int;
    assert(all.contains(n) <==> n == 0 || line_ends_at(raw, kind, n));
    if all.contains(n) {
        let k = choose|k: int| 0 <= k < all.len() && all[k] == n;
        if k < all.len() - 1 {
            assert(all[k] < all[all.len() - 1]);
        }
    } else if all.last() == n {
        assert(all.contains(n));
    }
}

/// A line range takes the lines from its first to its last, both included, with their line
/// endings: from where the first begins to where the one behind the last does, or to the
/// end. A range is refused where it begins with line zero, ends before it begins, or goes
/// beyond the last line.
pub proof fn law_a_line_range_takes_whole_lines(raw: Seq<u8>, kind: EncodingKind, a: int, b: int)
    requires
        0 <= a < EOF_SENTINEL,
        0 <= b < EOF_SENTINEL,
        raw.len() < EOF_SENTINEL,
    ensures
        ({
            let starts = line_starts(raw, kind);
            let total = total_lines(raw, kind);
            let span = |x: int, y: int|
                Ok::<(int, int), Seq<char>>(
                    (
                        starts[x - 1],
                        if y < starts.len() {
                            starts[y]
                        } else {
                            raw.len() as int
                        },
                    ),
                );
            let eof = EOF_SENTINEL as int;
            &&& 1 <= a <= b <= total ==> content_span(raw, kind, a, b) == span(a, b)
            &&& !(1 <= a <= b <= total) ==> content_span(raw, kind, a, b) is Err
            &&& 1 <= a <= total ==> content_span(raw, kind, a, eof) == span(a, total)
            &&& !(1 <= a <= total) ==> content_span(raw, kind, a, eof) is Err
            &&& 1 <= total ==> content_span(raw, kind, eof, eof) == span(total, total)
            &&& total < 1 ==> content_span(raw, kind, eof, eof) is Err
        }),
{
    lemma_line_starts(raw, kind);
}

/// The file with one range replaced.
pub open spec fn spliced(file: Seq<u8>, a: int, b: int, data: Seq<u8>) -> Seq<u8> {
    file.take(a) + data + file.skip(b)
}

proof fn lemma_one_span(file: Seq<u8>, p: Span)
    ensures
        sort_spans(seq![p]) == seq![p],
        overlap_error(seq![p], 0) is None,
        rewritten(file, seq![p], 0) == spliced(file, p.start, p.end, p.data),
{
    let one = seq![p];
    assert(one.drop_last() =~= seq![]);
    assert(sort_spans(one.drop_last()) =~= seq![]);
    assert(sort_spans(one) =~= one);
    assert(one.drop_first() =~= seq![]);
    assert(rewritten(file, one.drop_first(), p.end) =~= file.skip(p.end));
    assert(file.subrange(0, p.start) =~= file.take(p.start));
    assert(rewritten(file, one, 0) =~= spliced(file, p.start, p.end, p.data));
}

/// A single line edit replaces the lines of its range by what is inserted and leaves the
/// rest of the file as it is. Text is inserted before the line given, or behind the last.
pub proof fn law_a_single_line_edit(
    file: Seq<u8>,
    kind: EncodingKind,
    bom_len: nat,
    ending: LineEnding,
    op: EditOp,
)
    requires
        bom_len <= file.len(),
        file.len() - bom_len <= VIEW_CEILING,
    ensures
        ({
            let raw = file.skip(bom_len as int);
            let total = total_lines(raw, kind);
            let after = line_edited(file, kind, bom_len, ending, seq![op]);
            match op {
                EditOp::Delete { start, end } => match content_span(
                    raw,
                    kind,
                    start as int,
                    end as int,
                ) {
                    Ok((a, b)) => after == Ok::<Seq<u8>, Seq<char>>(
                        file.take(bom_len + a) + file.skip(bom_len + b),
                    ),
                    Err(_) => after is Err,
                },
                EditOp::Insert { offset, data } => match inserted(data@, kind, ending) {
                    Ok(shown) => if offset == EOF_SENTINEL || offset == total + 1 {
                        after == Ok::<Seq<u8>, Seq<char>>(file + shown)
                    } else {
                        match content_span(raw, kind, offset as int, offset as int) {
                            Ok((a, _)) => after == Ok::<Seq<u8>, Seq<char>>(
                                file.take(bom_len + a) + shown + file.skip(bom_len + a),
                            ),
                            Err(_) => after is Err,
                        }
                    },
                    Err(_) => after is Err,
                },
                EditOp::Splice { start, end, data } => match (
                    content_span(raw, kind, start as int, end as int),
                    inserted(data@, kind, ending),
                ) {
                    (Ok((a, b)), Ok(shown)) => after == Ok::<Seq<u8>, Seq<char>>(
                        file.take(bom_len + a) + shown + file.skip(bom_len + b),
                    ),
                    _ => after is Err,
                },
            }
        }),
{
    let one = seq![op];
    assert(one.drop_last() =~= seq![]);
    assert(line_op_spans(one.drop_last(), file, kind, bom_len, ending) == Ok::<
        Seq<Span>,
        Seq<char>,
    >(seq![]));
    match line_op_span(op, file, kind, bom_len, ending) {
        Ok(p) => {
            assert(Seq::<Span>::empty().push(p) =~= seq![p]);
            lemma_one_span(file, p);
            if op is Delete {
                assert(spliced(file, p.start, p.end, p.data) =~= file.take(p.start) + file.skip(
                    p.end,
                ));
            }
            if p.start == file.len() && p.end == file.len() {
                assert(spliced(file, p.start, p.end, p.data) =~= file + p.data);
            }
        },
        Err(_) => {},
    }
}

/// A single byte edit replaces its range by its data and leaves the rest as it is; the end of
/// the file may be named. A range that ends before it begins, or beyond the end, is refused.
pub proof fn law_a_single_byte_edit(content: Seq<u8>, op: EditOp)
    requires
        content.len() < EOF_SENTINEL,
    ensures
        ({
            let at = |pos: usize|
                if pos == EOF_SENTINEL {
                    content.len() as int
                } else {
                    pos as int
                };
            let (a, b, data) = match op {
                EditOp::Delete { start, end } => (at(start), at(end), seq![]),
                EditOp::Insert { offset, data } => (at(offset), at(offset), data@),
                EditOp::Splice { start, end, data } => (at(start), at(end), data@),
            };
            if a <= b <= content.len() {
                binary_edited(content, seq![op]) == Ok::<Seq<u8>, Seq<char>>(
                    content.take(a) + data + content.skip(b),
                )
            } else {
                binary_edited(content, seq![op]) is Err
            }
        }),
{
    let len = content.len() as int;
    let p = op_span(op);
    let q = resolve_span(p, len);
    assert(seq![op].map_values(|op: EditOp| op_span(op)) =~= seq![p]);
    lemma_one_span(content, p);
    lemma_one_span(content, q);
    assert(seq![p].map_values(|p: Span| resolve_span(p, len)) =~= seq![q]);
    assert(binary_spans(seq![op], len) == seq![q]);
    reveal_with_fuel(range_error, 2);
}

/// Several edits are each made at their own place: the last one, with what stands behind
/// it, leaves what stands before to the others.
pub proof fn law_edits_are_made_one_by_one(content: Seq<u8>, spans: Seq<Span>, from: int)
    requires
        spans.len() > 0,
        0 <= from <= spans[0].start,
        forall|i: int|
            0 <= i < spans.len() ==> (#[trigger] spans[i]).start <= spans[i].end <= content.len(),
        forall|i: int, j: int|
            0 <= i < j < spans.len() ==> (#[trigger] spans[i]).end <= (#[trigger] spans[j]).start,
    ensures
        rewritten(content, spans, from) == rewritten(
            content.take(spans.last().start),
            spans.drop_last(),
            from,
        ) + spans.last().data + content.skip(spans.last().end),
        rewritten(content, seq![], from) == content.skip(from),
    decreases spans.len(),
{
    let p = spans.last();
    let head = content.take(p.start);
    if spans.len() == 1 {
        assert(spans.drop_first() =~= seq![]);
        assert(spans.drop_last() =~= seq![]);
        assert(rewritten(content, spans.drop_first(), p.end) =~= content.skip(p.end));
        assert(rewritten(head, spans.drop_last(), from) =~= head.skip(from));
        assert(head.skip(from) =~= content.subrange(from, p.start));
        assert(rewritten(content, spans, from) =~= rewritten(head, spans.drop_last(), from)
            + p.data + content.skip(p.end));
    } else {
        let q = spans[0];
        let rest = spans.drop_first();
        assert forall|i: int| 0 <= i < rest.len() implies (#[trigger] rest[i]).start <= rest[i].end
            <= content.len() by {
            assert(rest[i] == spans[i + 1]);
        }
        assert forall|i: int, j: int| 0 <= i < j < rest.len() implies (#[trigger] rest[i]).end <= (
        #[trigger] rest[j]).start by {
            assert(rest[i] == spans[i + 1] && rest[j] == spans[j + 1]);
        }
        assert(rest[0] == spans[1]);
        law_edits_are_made_one_by_one(content, rest, q.end);
        assert(rest.last() == p);
        let init = spans.drop_last();
        assert(init.drop_first() =~= rest.drop_last());
        assert(init[0] == q);
        assert(spans[0].end <= spans[spans.len() - 1].start);
        assert(head.subrange(from, q.start) =~= content.subrange(from, q.start));
        assert(rewritten(content, spans, from) =~= rewritten(head, init, from) + p.data
            + content.skip(p.end));
    }
}

/// Edits are ordered by where they begin, and none is lost or added.
pub proof fn law_edits_are_ordered(s: Seq<Span>)
    ensures
        sort_spans(s).to_multiset() == s.to_multiset(),
        forall|i: int, j: int|
            0 <= i < j < s.len() ==> (#[trigger] sort_spans(s)[i]).start <= (
            #[trigger] sort_spans(s)[j]).start && (sort_spans(s)[i].start
                == sort_spans(s)[j].start ==> sort_spans(s)[i].end <= sort_spans(s)[j].end),
{
    lemma_sort_spans(s);
    let t = sort_spans(s);
    assert forall|i: int, j: int| 0 <= i < j < s.len() implies (#[trigger] t[i]).start <= (
    #[trigger] t[j]).start && (t[i].start == t[j].start ==> t[i].end <= t[j].end) by {
        assert(!before(t[j], t[i]));
    }
}

/// Ordered edits are refused where, and only where, one begins before its predecessor ends.
pub proof fn law_overlapping_edits_are_refused(spans: Seq<Span>, i: int)
    requires
        0 <= i,
    ensures
        overlap_error(spans, i) is None <==> forall|k: int|
            i <= k && k + 1 < spans.len() ==> (#[trigger] spans[k]).end <= spans[k + 1].start,
    decreases spans.len() - i,
{
    if i + 1 < spans.len() {
        law_overlapping_edits_are_refused(spans, i + 1);
    }
}

/// Byte edits are made where, and only where, each takes a range within the content and no
/// two overlap; all of them are counted in the content before.
pub proof fn law_byte_edits_are_all_or_nothing(content: Seq<u8>, ops: Seq<EditOp>)
    ensures
        binary_edited(content, ops) is Ok <==> ({
            let spans = binary_spans(ops, content.len() as int);
            &&& forall|k: int|
                0 <= k < spans.len() ==> (#[trigger] spans[k]).start <= spans[k].end
                    <= content.len()
            &&& forall|k: int|
                0 <= k && k + 1 < spans.len() ==> (#[trigger] spans[k]).end <= spans[k + 1].start
        }),
        binary_edited(content, ops) matches Ok(after) ==> after == rewritten(
            content,
            binary_spans(ops, content.len() as int),
            0,
        ),
        binary_spans(ops, content.len() as int).len() == ops.len(),
{
    let len = content.len() as int;
    let spans = binary_spans(ops, len);
    lemma_range_error(spans, 0, len);
    law_overlapping_edits_are_refused(spans, 0);
    lemma_sort_spans(ops.map_values(|op: EditOp| op_span(op)));
}

proof fn lemma_range_error(spans: Seq<Span>, i: int, len: int)
    requires
        0 <= i,
    ensures
        range_error(spans, i, len) is None <==> forall|k: int|
            i <= k < spans.len() ==> (#[trigger] spans[k]).start <= spans[k].end <= len,
    decreases spans.len() - i,
{
    if i < spans.len() {
        lemma_range_error(spans, i + 1, len);
    }
}

/// A line edit with a line ending asked for is the edit of a file with that line ending, and
/// one without takes the file's own; it counts its edits, and says what is written.
pub proof fn law_a_line_ending_asked_for_is_taken(
    r: Result<EditOutcome, String>,
    label: Seq<char>,
    file: Seq<u8>,
    info: SourceModel,
    ops: Seq<EditOp>,
    ending: LineEnding,
    want_texts: bool,
    want_diff: bool,
)
    ensures
        is_line_result(r, label, file, info, ops, Some(ending), want_texts, want_diff)
            == is_line_result(
            r,
            label,
            file,
            SourceModel { line_ending: ending, ..info },
            ops,
            None,
            want_texts,
            want_diff,
        ),
        is_line_result(r, label, file, info, ops, Some(ending), want_texts, want_diff) ==> (r
            matches Ok(o) ==> o.op_count == ops.len() && o.bytes is Some && line_edited(
            file,
            info.encoding,
            info.bom_len,
            ending,
            ops,
        ) == Ok::<Seq<u8>, Seq<char>>(o.bytes->0@) && (o.texts is Some) == want_texts && (o.diff
            is Some) == want_diff),
{
}

proof fn lemma_numeral_is_plain(n: nat)
    ensures
        trimmed(dec(n)) == dec(n),
        !dec(n).contains('-'),
        !is_eof_word(dec(n)),
        !has_prefix(dec(n), "0x"@),
        !has_prefix(dec(n), "0X"@),
{
    law_numerals_stand_for_their_number(n, n);
    let d = dec(n);
    assert('0' <= d[0] <= '9' && '0' <= d[d.len() - 1] <= '9');
    law_trimming_keeps_trimmed_text(d);
    reveal_strlit("0x");
    reveal_strlit("0X");
    reveal_strlit("$");
    reveal_strlit("eof");
    if has_prefix(d, "0x"@) {
        assert(d.take(2)[1] == "0x"@[1]);
        assert('0' <= d[1] <= '9');
    }
    if has_prefix(d, "0X"@) {
        assert(d.take(2)[1] == "0X"@[1]);
        assert('0' <= d[1] <= '9');
    }
    if lower_text(d) == "eof"@ {
        assert(lower_text(d)[0] == crate::text::lower(d[0]));
    }
    assert(d[0] != '$');
}

/// The words for lines: a numeral from one on, two with `-` between them for a range that
/// does not end before it begins, and `$` for the last line.
pub proof fn law_lines_as_text(a: usize, b: usize)
    requires
        a < EOF_SENTINEL,
        b < EOF_SENTINEL,
    ensures
        0 < a ==> line_num(dec(a as nat)) == Ok::<usize, Seq<char>>(a),
        line_num(dec(0)) is Err,
        line_num("$"@) == Ok::<usize, Seq<char>>(EOF_SENTINEL),
        0 < a ==> line_range(dec(a as nat)) == Ok::<(usize, usize), Seq<char>>((a, a)),
        0 < a <= b ==> line_range(dec(a as nat) + seq!['-'] + dec(b as nat)) == Ok::<
            (usize, usize),
            Seq<char>,
        >((a, b)),
        !(0 < a <= b) ==> line_range(dec(a as nat) + seq!['-'] + dec(b as nat)) is Err,
        0 < a ==> line_range(dec(a as nat) + seq!['-'] + "$"@) == Ok::<(usize, usize), Seq<char>>(
            (a, EOF_SENTINEL),
        ),
{
    law_numerals_stand_for_their_number(a as nat, usize::MAX as nat);
    law_numerals_stand_for_their_number(b as nat, usize::MAX as nat);
    law_numerals_stand_for_their_number(0, usize::MAX as nat);
    lemma_numeral_is_plain(a as nat);
    lemma_numeral_is_plain(b as nat);
    lemma_numeral_is_plain(0);
    reveal_strlit("$");
    law_trimming_keeps_trimmed_text("$"@);
    law_split_finds_the_parts(dec(a as nat), '-', dec(b as nat));
    law_split_finds_the_parts(dec(a as nat), '-', "$"@);
    law_split_loses_nothing(dec(a as nat), '-');
}

/// The words for bytes: a numeral from zero on for the byte there, two with `-` between them
/// for a range whose end is left out, and `$` for the end of the file.
pub proof fn law_bytes_as_text(a: usize, b: usize)
    requires
        a < EOF_SENTINEL,
        b < EOF_SENTINEL,
    ensures
        byte_pos(dec(a as nat)) == Ok::<usize, Seq<char>>(a),
        byte_pos("$"@) == Ok::<usize, Seq<char>>(EOF_SENTINEL),
        byte_range(dec(a as nat)) == Ok::<(usize, usize), Seq<char>>((a, (a + 1) as usize)),
        byte_range(dec(a as nat) + seq!['-'] + dec(b as nat)) == Ok::<(usize, usize), Seq<char>>(
            (a, b),
        ),
        byte_range(dec(a as nat) + seq!['-'] + "$"@) == Ok::<(usize, usize), Seq<char>>(
            (a, EOF_SENTINEL),
        ),
{
    law_numerals_stand_for_their_number(a as nat, usize::MAX as nat);
    law_numerals_stand_for_their_number(b as nat, usize::MAX as nat);
    lemma_numeral_is_plain(a as nat);
    lemma_numeral_is_plain(b as nat);
    reveal_strlit("$");
    law_trimming_keeps_trimmed_text("$"@);
    law_split_finds_the_parts(dec(a as nat), '-', dec(b as nat));
    law_split_finds_the_parts(dec(a as nat), '-', "$"@);
    law_split_loses_nothing(dec(a as nat), '-');
}

/// What is told of an edit: as many edits as there are, the content that is written, and where
/// it is asked for the text before and after, and their diff, in this order and under the
/// file's name on both sides.
pub proof fn law_an_edit_is_told(
    o: EditOutcome,
    label: Seq<char>,
    file: Seq<u8>,
    info: SourceModel,
    op_count: int,
    bytes: Seq<u8>,
    want_texts: bool,
    want_diff: bool,
)
    requires
        is_line_outcome(o, label, file, info, op_count, bytes, want_texts, want_diff),
    ensures
        o.op_count == op_count,
        o.bytes matches Some(b) && b@ == bytes,
        want_texts == (o.texts is Some),
        o.texts matches Some((old_text, new_text)) ==> {
            let body = file.skip(info.bom_len as int);
            &&& whatwg_sniffed(info.encoding.name(), native_to_lf(body, info.encoding)) == Some(
                old_text@,
            )
            &&& whatwg_sniffed(info.encoding.name(), bytes) == Some(new_text@)
        },
        want_diff == (o.diff is Some),
        o.diff matches Some(d) ==> {
            let old_body = native_to_lf(file.skip(info.bom_len as int), info.encoding);
            let new_body = native_to_lf(bytes.skip(info.bom_len as int), info.encoding);
            d@ == similar_unified(
                decoded_replacing(old_body, info.encoding)->Ok_0,
                decoded_replacing(new_body, info.encoding)->Ok_0,
                "a/"@ + label,
                "b/"@ + label,
            )
        },
{
}

/// Positions may be given in hexadecimal digits of either case behind `0x` or `0X`.
pub proof fn law_positions_may_be_hexadecimal(n: usize, upper: bool)
    ensures
        usize_maybe_hex("0x"@ + hex_fixed(n as nat, 16, upper)) == Ok::<usize, Seq<char>>(n),
        usize_maybe_hex("0X"@ + hex_fixed(n as nat, 16, upper)) == Ok::<usize, Seq<char>>(n),
{
    reveal_strlit("0x");
    reveal_strlit("0X");
    let digits = hex_fixed(n as nat, 16, upper);
    vstd::arithmetic::power::lemma_pow0(16);
    assert(vstd::arithmetic::power::pow(16, 16) == 0x10000000000000000) by {
        reveal_with_fuel(vstd::arithmetic::power::pow, 17);
    }
    law_hex_digits_stand_for_their_number(n as nat, 16, upper, usize::MAX as nat);
    assert(("0x"@ + digits).take(2) =~= "0x"@ && ("0x"@ + digits).skip(2) =~= digits);
    assert(("0X"@ + digits).take(2) =~= "0X"@ && ("0X"@ + digits).skip(2) =~= digits);
}

/// What is inserted where something is replaced stands before what replaces it, whichever was
/// asked for first; of two insertions in one place the one asked for first stands first.
pub proof fn law_insertions_stand_first(content: Seq<u8>, p: Span, q: Span)
    requires
        0 <= p.start == p.end == q.start <= q.end <= content.len(),
    ensures
        rewritten(content, sort_spans(seq![p, q]), 0) == content.take(p.start) + p.data + q.data
            + content.skip(q.end),
        q.start < q.end ==> sort_spans(seq![q, p]) == sort_spans(seq![p, q]),
        overlap_error(sort_spans(seq![p, q]), 0) is None,
{
    let (pq, qp) = (seq![p, q], seq![q, p]);
    lemma_one_span(content, p);
    lemma_one_span(content, q);
    assert(pq.drop_last() =~= seq![p]);
    assert(qp.drop_last() =~= seq![q]);
    assert(sort_spans(pq) == insert_span(seq![p], q));
    assert(sort_spans(qp) == insert_span(seq![q], p));
    assert(insert_span(seq![p], q) =~= pq);
    if q.start < q.end {
        assert(before(p, q));
        assert(seq![q].drop_last() =~= seq![]);
        assert(insert_span(Seq::<Span>::empty(), p) =~= seq![p]);
        assert(insert_span(seq![q], p) =~= pq);
    }
    assert(overlap_error(pq, 1) is None);
    assert(pq.drop_first() =~= seq![q]);
    assert(seq![q].drop_first() =~= seq![]);
    assert(rewritten(content, Seq::<Span>::empty(), q.end) =~= content.skip(q.end));
    assert(content.subrange(0, p.start) =~= content.take(p.start));
    assert(content.subrange(p.end, q.start) =~= seq![]);
    assert(rewritten(content, seq![q], p.end) =~= q.data + content.skip(q.end));
    assert(rewritten(content, pq, 0) =~= content.take(p.start) + p.data + q.data + content.skip(
        q.end,
    ));
}

} // verus!
