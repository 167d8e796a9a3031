//! Laws of line-ending conversion and of the encodings.

use vstd::prelude::*;
use vstd::utf8::*;

use crate::encoding::{
    char_utf16, encoded_strict, ending_text, lf_to_cr, lf_to_crlf, native_lf_to, native_to_lf,
    only_ending, replace_units, text_lf_to, text_to_lf, text_utf16, to_lf, units_to_lf, BomPolicy,
    EncodingKind, LineEnding,
};

verus! {

/// No byte of `s` is `b`.
pub open spec fn lacks(s: Seq<u8>, b: u8) -> bool {
    forall|i: int| 0 <= i < s.len() ==> #[trigger] s[i] != b
}

/// A normalised stream holds no CR.
pub proof fn law_to_lf_lacks_cr(s: Seq<u8>)
    ensures
        lacks(to_lf(s), 0x0D),
    decreases s.len(),
{
    if s.len() > 0 {
        law_to_lf_lacks_cr(s.skip(1));
        if s.len() > 1 {
            law_to_lf_lacks_cr(s.skip(2));
        }
    }
}

/// Normalising a stream without CR changes nothing.
pub proof fn law_to_lf_keeps_lf_only(s: Seq<u8>)
    requires
        lacks(s, 0x0D),
    ensures
        to_lf(s) == s,
    decreases s.len(),
{
    if s.len() > 0 {
        assert forall|i: int| 0 <= i < s.skip(1).len() implies #[trigger] s.skip(1)[i] != 0x0D by {
            assert(s.skip(1)[i] == s[i + 1]);
        }
        law_to_lf_keeps_lf_only(s.skip(1));
        assert(seq![s[0]] + s.skip(1) =~= s);
    } else {
        assert(s =~= seq![]);
    }
}

proof fn lemma_lacks_skip(s: Seq<u8>, b: u8)
    requires
        lacks(s, b),
        s.len() > 0,
    ensures
        lacks(s.skip(1), b),
{
    assert forall|i: int| 0 <= i < s.skip(1).len() implies #[trigger] s.skip(1)[i] != b by {
        assert(s.skip(1)[i] == s[i + 1]);
    }
}

/// Normalising undoes the conversion of LF to CR LF.
pub proof fn law_crlf_undone(s: Seq<u8>)
    requires
        lacks(s, 0x0D),
    ensures
        to_lf(lf_to_crlf(s)) == s,
    decreases s.len(),
{
    if s.len() > 0 {
        lemma_lacks_skip(s, 0x0D);
        law_crlf_undone(s.skip(1));
        let rest = lf_to_crlf(s.skip(1));
        if s[0] == 0x0A {
            assert(lf_to_crlf(s).skip(2) =~= rest);
        } else {
            assert(lf_to_crlf(s).skip(1) =~= rest);
        }
        assert(seq![s[0]] + s.skip(1) =~= s);
    } else {
        assert(s =~= seq![]);
    }
}

/// Normalising undoes the conversion of LF to CR.
pub proof fn law_cr_undone(s: Seq<u8>)
    requires
        lacks(s, 0x0D),
    ensures
        to_lf(lf_to_cr(s)) == s,
    decreases s.len(),
{
    if s.len() > 0 {
        lemma_lacks_skip(s, 0x0D);
        law_cr_undone(s.skip(1));
        assert(lf_to_cr(s).skip(1) =~= lf_to_cr(s.skip(1)));
        assert(seq![s[0]] + s.skip(1) =~= s);
    } else {
        assert(lf_to_cr(s) =~= s);
    }
}

/// Normalising a stream that holds line endings of one kind, and converting it back to that
/// kind, changes nothing.
pub proof fn law_one_ending_comes_back(s: Seq<u8>, e: LineEnding)
    requires
        only_ending(s, e),
    ensures
        native_lf_to(to_lf(s), EncodingKind::Utf8, e) == s,
    decreases s.len(),
{
    if e == LineEnding::Lf {
        law_to_lf_keeps_lf_only(s);
    } else if s.len() == 0 {
        assert(native_lf_to(to_lf(s), EncodingKind::Utf8, e) =~= s);
    } else if s[0] == 0x0D && e == LineEnding::CrLf {
        let rest = s.skip(2);
        assert(s[1] == 0x0A);
        lemma_only_ending_skip(s, e, 2);
        law_one_ending_comes_back(rest, e);
        assert(to_lf(s).skip(1) =~= to_lf(rest));
        assert(lf_to_crlf(to_lf(s)) =~= s);
    } else {
        let rest = s.skip(1);
        lemma_only_ending_skip(s, e, 1);
        law_one_ending_comes_back(rest, e);
        assert(to_lf(s).skip(1) =~= to_lf(rest));
        if e == LineEnding::CrLf {
            assert(s[0] != 0x0A);
            assert(lf_to_crlf(to_lf(s)) =~= s);
        } else {
            assert(s.len() > 1 ==> s[1] != 0x0A);
            let t = to_lf(s);
            assert(lf_to_cr(t) =~= s) by {
                assert forall|i: int| 0 < i < s.len() implies lf_to_cr(t)[i] == s[i] by {
                    assert(t[i] == to_lf(rest)[i - 1]);
                    assert(lf_to_cr(to_lf(rest))[i - 1] == rest[i - 1]);
                }
            }
        }
    }
}

proof fn lemma_only_ending_skip(s: Seq<u8>, e: LineEnding, n: int)
    requires
        only_ending(s, e),
        0 < n <= s.len(),
        e == LineEnding::CrLf ==> s[n - 1] != 0x0D,
    ensures
        only_ending(s.skip(n), e),
{
    let t = s.skip(n);
    assert forall|i: int| 0 <= i < t.len() implies t[i] == #[trigger] s[i + n] by {}
    match e {
        LineEnding::CrLf => {
            assert forall|i: int| 0 <= i < t.len() && #[trigger] t[i] == 0x0D implies i + 1
                < t.len() && t[i + 1] == 0x0A by {
                assert(s[i + n] == 0x0D);
            }
            assert forall|i: int| 0 <= i < t.len() && #[trigger] t[i] == 0x0A implies i > 0
                && t[i - 1] == 0x0D by {
                assert(s[i + n] == 0x0A);
            }
        },
        _ => {
            assert forall|i: int| 0 <= i < t.len() implies #[trigger] t[i] == s[i + n] by {}
        },
    }
}

// ── Two-byte units ──────────────────────────────────────────────────────────

/// No unit of `s` is `u`.
pub open spec fn lacks_unit(s: Seq<u8>, u: Seq<u8>) -> bool
    decreases s.len(),
{
    s.len() >= 2 ==> !(s[0] == u[0] && s[1] == u[1]) && lacks_unit(s.skip(2), u)
}

proof fn lemma_units_to_lf_lacks_cr(s: Seq<u8>, cr: Seq<u8>, lf: Seq<u8>)
    requires
        cr.len() == 2,
        lf.len() == 2,
        cr != lf,
    ensures
        lacks_unit(units_to_lf(s, cr, lf), cr),
    decreases s.len(),
{
    assert(cr =~= seq![cr[0], cr[1]]);
    assert(lf =~= seq![lf[0], lf[1]]);
    if s.len() >= 2 {
        lemma_units_to_lf_lacks_cr(s.skip(2), cr, lf);
        if s.len() >= 4 {
            lemma_units_to_lf_lacks_cr(s.skip(4), cr, lf);
        }
        let r = units_to_lf(s, cr, lf);
        if s[0] == cr[0] && s[1] == cr[1] {
            if s.len() >= 4 && s[2] == lf[0] && s[3] == lf[1] {
                assert(r.skip(2) =~= units_to_lf(s.skip(4), cr, lf));
            } else {
                assert(r.skip(2) =~= units_to_lf(s.skip(2), cr, lf));
            }
        } else {
            assert(r.skip(2) =~= units_to_lf(s.skip(2), cr, lf));
        }
    }
}

proof fn lemma_units_to_lf_id(s: Seq<u8>, cr: Seq<u8>, lf: Seq<u8>)
    requires
        lacks_unit(s, cr),
    ensures
        units_to_lf(s, cr, lf) == s,
    decreases s.len(),
{
    if s.len() >= 2 {
        lemma_units_to_lf_id(s.skip(2), cr, lf);
        assert(s.take(2) + s.skip(2) =~= s);
    }
}

proof fn lemma_unit_crlf_undone(s: Seq<u8>, cr: Seq<u8>, lf: Seq<u8>)
    requires
        cr.len() == 2,
        lf.len() == 2,
        lacks_unit(s, cr),
    ensures
        units_to_lf(replace_units(s, lf, cr + lf), cr, lf) == s,
    decreases s.len(),
{
    if s.len() >= 2 {
        lemma_unit_crlf_undone(s.skip(2), cr, lf);
        let rest = replace_units(s.skip(2), lf, cr + lf);
        let all = replace_units(s, lf, cr + lf);
        if s[0] == lf[0] && s[1] == lf[1] {
            assert(all.skip(4) =~= rest);
            assert(lf =~= s.take(2));
        } else {
            assert(all.skip(2) =~= rest);
            assert(all.take(2) =~= s.take(2));
        }
        assert(s.take(2) + s.skip(2) =~= s);
    }
}

proof fn lemma_replace_units_lacks(s: Seq<u8>, lf: Seq<u8>, cr: Seq<u8>)
    requires
        cr.len() == 2,
        lf.len() == 2,
        cr != lf,
    ensures
        lacks_unit(replace_units(s, lf, cr), lf),
    decreases s.len(),
{
    assert(cr =~= seq![cr[0], cr[1]]);
    assert(lf =~= seq![lf[0], lf[1]]);
    if s.len() >= 2 {
        lemma_replace_units_lacks(s.skip(2), lf, cr);
        assert(replace_units(s, lf, cr).skip(2) =~= replace_units(s.skip(2), lf, cr));
    }
}

proof fn lemma_unit_cr_undone(s: Seq<u8>, cr: Seq<u8>, lf: Seq<u8>)
    requires
        cr.len() == 2,
        lf.len() == 2,
        cr != lf,
        lacks_unit(s, cr),
    ensures
        units_to_lf(replace_units(s, lf, cr), cr, lf) == s,
    decreases s.len(),
{
    if s.len() >= 2 {
        lemma_unit_cr_undone(s.skip(2), cr, lf);
        let rest = replace_units(s.skip(2), lf, cr);
        let all = replace_units(s, lf, cr);
        assert(all.skip(2) =~= rest);
        lemma_replace_units_lacks(s.skip(2), lf, cr);
        if s[0] == lf[0] && s[1] == lf[1] {
            assert(lf =~= s.take(2));
            if all.len() >= 4 {
                assert(rest[0] == all[2] && rest[1] == all[3]);
            }
        } else {
            assert(all.take(2) =~= s.take(2));
        }
        assert(s.take(2) + s.skip(2) =~= s);
    }
}

// ── All encodings ───────────────────────────────────────────────────────────

/// The native form of CR in an encoding.
spec fn cr_unit(encoding: EncodingKind) -> Seq<u8> {
    if encoding is Utf16Be {
        seq![0x00u8, 0x0Du8]
    } else {
        seq![0x0Du8, 0x00u8]
    }
}

/// The native form of LF in an encoding.
spec fn lf_unit(encoding: EncodingKind) -> Seq<u8> {
    if encoding is Utf16Be {
        seq![0x00u8, 0x0Au8]
    } else {
        seq![0x0Au8, 0x00u8]
    }
}

/// A native byte stream without carriage returns.
pub open spec fn is_lf_only(s: Seq<u8>, encoding: EncodingKind) -> bool {
    match encoding {
        EncodingKind::Utf16Le => lacks_unit(s, seq![0x0Du8, 0x00u8]),
        EncodingKind::Utf16Be => lacks_unit(s, seq![0x00u8, 0x0Du8]),
        _ => lacks(s, 0x0D),
    }
}

/// Normalising leaves no carriage return, in any encoding.
pub proof fn law_normalized_is_lf_only(s: Seq<u8>, encoding: EncodingKind)
    ensures
        is_lf_only(native_to_lf(s, encoding), encoding),
{
    let cr = cr_unit(encoding);
    let lf = lf_unit(encoding);
    assert(cr[0] != lf[0] || cr[1] != lf[1]);
    lemma_units_to_lf_lacks_cr(s, cr, lf);
    law_to_lf_lacks_cr(s);
}

/// Normalising undoes the conversion to any line ending, in any encoding.
pub proof fn law_normalize_undoes_denormalize(
    s: Seq<u8>,
    encoding: EncodingKind,
    target: LineEnding,
)
    requires
        is_lf_only(s, encoding),
    ensures
        native_to_lf(native_lf_to(s, encoding, target), encoding) == s,
{
    let cr = cr_unit(encoding);
    let lf = lf_unit(encoding);
    assert(cr[0] != lf[0] || cr[1] != lf[1]);
    assert(seq![0x0Du8, 0x00u8] + seq![0x0Au8, 0x00u8] =~= seq![0x0Du8, 0x00u8, 0x0Au8, 0x00u8]);
    assert(seq![0x00u8, 0x0Du8] + seq![0x00u8, 0x0Au8] =~= seq![0x00u8, 0x0Du8, 0x00u8, 0x0Au8]);
    match encoding {
        EncodingKind::Utf16Le | EncodingKind::Utf16Be => {
            match target {
                LineEnding::Lf => lemma_units_to_lf_id(s, cr, lf),
                LineEnding::CrLf => lemma_unit_crlf_undone(s, cr, lf),
                LineEnding::Cr => lemma_unit_cr_undone(s, cr, lf),
            }
        },
        _ => {
            match target {
                LineEnding::Lf => law_to_lf_keeps_lf_only(s),
                LineEnding::CrLf => law_crlf_undone(s),
                LineEnding::Cr => law_cr_undone(s),
            }
        },
    }
}

/// Rewriting all line endings depends on the last target alone: an earlier
/// rewrite leaves no trace. In particular rewriting twice is rewriting once.
pub proof fn law_last_line_ending_wins(
    s: Seq<u8>,
    encoding: EncodingKind,
    first: LineEnding,
    second: LineEnding,
)
    ensures
        ({
            let once = native_lf_to(native_to_lf(s, encoding), encoding, first);
            native_lf_to(native_to_lf(once, encoding), encoding, second) == native_lf_to(
                native_to_lf(s, encoding),
                encoding,
                second,
            )
        }),
{
    law_normalized_is_lf_only(s, encoding);
    law_normalize_undoes_denormalize(native_to_lf(s, encoding), encoding, first);
}

// ── Native bytes and text ───────────────────────────────────────────────────

proof fn lemma_scalar_bytes(c: char)
    ensures
        (c as u32) < 0x80 ==> encode_scalar(c as u32) =~= seq![c as u8],
        (c as u32) >= 0x80 ==> forall|i: int|
            0 <= i < encode_scalar(c as u32).len() ==> #[trigger] encode_scalar(c as u32)[i] >= 0x80,
        encode_scalar(c as u32).len() > 0,
        c != '\n' ==> lacks(encode_scalar(c as u32), 0x0A),
        c != '\r' ==> lacks(encode_scalar(c as u32), 0x0D),
{
    let v = c as u32;
    char_is_scalar(c);
    if v < 0x80 {
        assert(leading_byte_width_1(v) == v as u8) by (bit_vector)
            requires
                v < 0x80,
        ;
    } else {
        assert(leading_byte_width_2(v) >= 0x80 && leading_byte_width_3(v) >= 0x80
            && leading_byte_width_4(v) >= 0x80 && last_continuation_byte(v) >= 0x80
            && second_last_continuation_byte(v) >= 0x80 && third_last_continuation_byte(v) >= 0x80)
            by (bit_vector)
            requires
                v <= 0x10FFFF,
        ;
    }
}

proof fn lemma_lf_to_crlf_add(a: Seq<u8>, b: Seq<u8>)
    ensures
        lf_to_crlf(a + b) == lf_to_crlf(a) + lf_to_crlf(b),
    decreases a.len(),
{
    if a.len() == 0 {
        assert(a + b =~= b);
        assert(lf_to_crlf(a) + lf_to_crlf(b) =~= lf_to_crlf(b));
    } else {
        lemma_lf_to_crlf_add(a.skip(1), b);
        assert((a + b).skip(1) =~= a.skip(1) + b);
        assert(lf_to_crlf(a + b) =~= lf_to_crlf(a) + lf_to_crlf(b));
    }
}

proof fn lemma_lf_to_crlf_id(a: Seq<u8>)
    requires
        lacks(a, 0x0A),
    ensures
        lf_to_crlf(a) == a,
    decreases a.len(),
{
    if a.len() > 0 {
        lemma_lacks_skip(a, 0x0A);
        lemma_lf_to_crlf_id(a.skip(1));
        assert(seq![a[0]] + a.skip(1) =~= a);
    } else {
        assert(lf_to_crlf(a) =~= a);
    }
}

proof fn lemma_to_lf_prefix(a: Seq<u8>, b: Seq<u8>)
    requires
        lacks(a, 0x0D),
    ensures
        to_lf(a + b) == a + to_lf(b),
    decreases a.len(),
{
    if a.len() == 0 {
        assert(a + b =~= b);
        assert(a + to_lf(b) =~= to_lf(b));
    } else {
        lemma_lacks_skip(a, 0x0D);
        lemma_to_lf_prefix(a.skip(1), b);
        assert((a + b).skip(1) =~= a.skip(1) + b);
        assert(to_lf(a + b) =~= a + to_lf(b));
    }
}

pub proof fn lemma_utf8_add(a: Seq<char>, b: Seq<char>)
    ensures
        encode_utf8(a + b) == encode_utf8(a) + encode_utf8(b),
    decreases a.len(),
{
    if a.len() == 0 {
        assert(a + b =~= b);
        assert(encode_utf8(a) + encode_utf8(b) =~= encode_utf8(b));
    } else {
        lemma_utf8_add(a.drop_first(), b);
        assert((a + b).drop_first() =~= a.drop_first() + b);
        assert(encode_utf8(a + b) =~= encode_utf8(a) + encode_utf8(b));
    }
}

proof fn lemma_utf8_ending(e: LineEnding)
    ensures
        encode_utf8(ending_text(e)) =~= (match e {
            LineEnding::Lf => seq![0x0Au8],
            LineEnding::CrLf => seq![0x0Du8, 0x0Au8],
            LineEnding::Cr => seq![0x0Du8],
        }),
{
    reveal_with_fuel(encode_utf8, 3);
    lemma_scalar_bytes('\r');
    lemma_scalar_bytes('\n');
    assert(seq!['\n'].drop_first() =~= Seq::<char>::empty());
    assert(seq!['\r'].drop_first() =~= Seq::<char>::empty());
    assert(seq!['\r', '\n'].drop_first() =~= seq!['\n']);
}

proof fn lemma_utf8_lf_to(s: Seq<char>, target: LineEnding)
    ensures
        encode_utf8(text_lf_to(s, target)) == native_lf_to(
            encode_utf8(s),
            EncodingKind::Utf8,
            target,
        ),
    decreases s.len(),
{
    if s.len() == 0 {
        assert(encode_utf8(text_lf_to(s, target)) =~= native_lf_to(
            encode_utf8(s),
            EncodingKind::Utf8,
            target,
        ));
    } else {
        let c = s[0];
        let rest = s.skip(1);
        assert(s.drop_first() =~= rest);
        lemma_utf8_lf_to(rest, target);
        lemma_scalar_bytes(c);
        lemma_utf8_ending(target);
        let head = encode_scalar(c as u32);
        let tail = encode_utf8(rest);
        lemma_lf_to_crlf_add(head, tail);
        assert(lf_to_cr(head + tail) =~= lf_to_cr(head) + lf_to_cr(tail));
        if c == '\n' {
            lemma_utf8_add(ending_text(target), text_lf_to(rest, target));
            assert(head =~= seq![0x0Au8]);
            reveal_with_fuel(lf_to_crlf, 2);
            assert(head.skip(1) =~= seq![]);
            assert(lf_to_crlf(head) =~= seq![0x0Du8, 0x0Au8]);
            assert(lf_to_cr(head) =~= seq![0x0Du8]);
        } else {
            lemma_lf_to_crlf_id(head);
            assert(lf_to_cr(head) =~= head);
            let shown = text_lf_to(s, target);
            assert(shown.drop_first() =~= text_lf_to(rest, target));
            assert(shown[0] == c);
        }
    }
}

pub proof fn lemma_utf8_to_lf(s: Seq<char>)
    ensures
        encode_utf8(text_to_lf(s)) == to_lf(encode_utf8(s)),
    decreases s.len(),
{
    if s.len() == 0 {
        assert(encode_utf8(text_to_lf(s)) =~= to_lf(encode_utf8(s)));
    } else {
        let c = s[0];
        let rest = s.skip(1);
        let shown = text_to_lf(s);
        let all = encode_utf8(s);
        assert(s.drop_first() =~= rest);
        lemma_utf8_to_lf(rest);
        lemma_scalar_bytes(c);
        lemma_scalar_bytes('\n');
        let head = encode_scalar(c as u32);
        if c == '\r' {
            assert(all[0] == 0x0D);
            assert(all.skip(1) =~= encode_utf8(rest));
            if s.len() > 1 {
                lemma_scalar_bytes(s[1]);
                assert(rest[0] == s[1]);
                assert(encode_scalar(s[1] as u32).len() > 0);
                assert(all[1] == encode_scalar(s[1] as u32)[0]);
                if s[1] == '\n' {
                    let tail = s.skip(2);
                    lemma_utf8_to_lf(tail);
                    assert(rest.drop_first() =~= tail);
                    assert(all.skip(2) =~= encode_utf8(tail));
                    assert(shown.drop_first() =~= text_to_lf(tail));
                } else {
                    assert(shown.drop_first() =~= text_to_lf(rest));
                }
            } else {
                assert(encode_utf8(rest) =~= seq![]);
                assert(shown.drop_first() =~= text_to_lf(rest));
            }
        } else {
            lemma_to_lf_prefix(head, encode_utf8(rest));
            assert(shown.drop_first() =~= text_to_lf(rest));
        }
    }
}

/// The bytes of a text without NUL hold no zero.
pub proof fn lemma_utf8_lacks_nul(s: Seq<char>)
    requires
        forall|i: int| 0 <= i < s.len() ==> #[trigger] s[i] != '\0',
    ensures
        lacks(encode_utf8(s), 0),
    decreases s.len(),
{
    if s.len() > 0 {
        let rest = s.drop_first();
        assert forall|i: int| 0 <= i < rest.len() implies #[trigger] rest[i] != '\0' by {
            assert(rest[i] == s[i + 1]);
        }
        lemma_utf8_lacks_nul(rest);
        lemma_scalar_bytes(s[0]);
        assert(s[0] as u32 != 0) by {
            if s[0] as u32 == 0 {
                char_u32_cast(s[0], 0u32);
                assert(s[0] == '\0');
            }
        }
        let v = s[0] as u32;
        let bytes = encode_scalar(v);
        if v < 0x80 {
            assert(bytes =~= seq![leading_byte_width_1(v)]);
            assert(leading_byte_width_1(v) != 0) by (bit_vector)
                requires
                    0 < v < 0x80,
            ;
        }
        assert(lacks(bytes, 0)) by {
            assert forall|i: int| 0 <= i < bytes.len() implies #[trigger] bytes[i] != 0 by {}
        }
    }
}

/// The UTF-16 form of a character below U+10000.
spec fn short_unit(c: char, big: bool) -> Seq<u8> {
    if big {
        seq![(c as int / 256) as u8, (c as int % 256) as u8]
    } else {
        seq![(c as int % 256) as u8, (c as int / 256) as u8]
    }
}

proof fn lemma_char_utf16(c: char, big: bool)
    ensures
        (c as int) < 0x10000 ==> char_utf16(c, big) =~= short_unit(c, big),
        (c as int) >= 0x10000 ==> char_utf16(c, big).len() == 4,
        (c as int) >= 0x10000 ==> (if big {
            char_utf16(c, big)[0] >= 0xD8 && char_utf16(c, big)[2] >= 0xDC
        } else {
            char_utf16(c, big)[1] >= 0xD8 && char_utf16(c, big)[3] >= 0xDC
        }),
        (c as int) < 0x10000 && c != '\n' ==> short_unit(c, big) != short_unit('\n', big),
        (c as int) < 0x10000 && c != '\r' ==> short_unit(c, big) != short_unit('\r', big),
{
    let v = c as int;
    if v >= 0x10000 {
        let hi = 0xD800 + (v - 0x10000) / 0x400;
        let lo = 0xDC00 + (v - 0x10000) % 0x400;
        assert(0xD8 <= hi / 256 <= 0xDB);
        assert(0xDC <= lo / 256 <= 0xDF);
    } else {
        assert(char_utf16(c, big) =~= short_unit(c, big));
        let u = short_unit(c, big);
        if big {
            assert(u[0] as int * 256 + u[1] as int == v);
            assert(short_unit('\n', big)[1] == 10 && short_unit('\n', big)[0] == 0);
            assert(short_unit('\r', big)[1] == 13 && short_unit('\r', big)[0] == 0);
        } else {
            assert(u[1] as int * 256 + u[0] as int == v);
            assert(short_unit('\n', big)[0] == 10 && short_unit('\n', big)[1] == 0);
            assert(short_unit('\r', big)[0] == 13 && short_unit('\r', big)[1] == 0);
        }
    }
}

proof fn lemma_utf16_replace_step(c: char, tail: Seq<u8>, big: bool, with: Seq<u8>)
    ensures
        replace_units(char_utf16(c, big) + tail, short_unit('\n', big), with) =~= (if c == '\n' {
            with
        } else {
            char_utf16(c, big)
        }) + replace_units(tail, short_unit('\n', big), with),
{
    lemma_char_utf16(c, big);
    let head = char_utf16(c, big);
    let all = head + tail;
    let needle = short_unit('\n', big);
    if (c as int) < 0x10000 {
        assert(all.skip(2) =~= tail);
        assert(all.take(2) =~= head);
        if c != '\n' && all[0] == needle[0] && all[1] == needle[1] {
            assert(head =~= needle);
        }
    } else {
        assert(all.skip(2).skip(2) =~= tail);
        assert(all.take(2) + all.skip(2).take(2) =~= head);
        assert(all.skip(2)[0] == all[2] && all.skip(2)[1] == all[3]);
        assert(replace_units(all.skip(2), needle, with) =~= all.skip(2).take(2) + replace_units(
            tail,
            needle,
            with,
        ));
    }
}

pub proof fn lemma_utf16_add(a: Seq<char>, b: Seq<char>, big: bool)
    ensures
        text_utf16(a + b, big) == text_utf16(a, big) + text_utf16(b, big),
    decreases a.len(),
{
    if a.len() == 0 {
        assert(a + b =~= b);
        assert(text_utf16(a, big) + text_utf16(b, big) =~= text_utf16(b, big));
    } else {
        lemma_utf16_add(a.drop_first(), b, big);
        assert((a + b).drop_first() =~= a.drop_first() + b);
        assert(text_utf16(a + b, big) =~= text_utf16(a, big) + text_utf16(b, big));
    }
}

proof fn lemma_utf16_ending(e: LineEnding, big: bool)
    ensures
        text_utf16(ending_text(e), big) =~= (match e {
            LineEnding::Lf => short_unit('\n', big),
            LineEnding::CrLf => short_unit('\r', big) + short_unit('\n', big),
            LineEnding::Cr => short_unit('\r', big),
        }),
{
    reveal_with_fuel(text_utf16, 3);
    lemma_char_utf16('\r', big);
    lemma_char_utf16('\n', big);
    assert(seq!['\n'].drop_first() =~= Seq::<char>::empty());
    assert(seq!['\r'].drop_first() =~= Seq::<char>::empty());
    assert(seq!['\r', '\n'].drop_first() =~= seq!['\n']);
}

proof fn lemma_utf16_lf_to(s: Seq<char>, big: bool, target: LineEnding)
    ensures
        text_utf16(text_lf_to(s, target), big) == replace_units(
            text_utf16(s, big),
            short_unit('\n', big),
            text_utf16(ending_text(target), big),
        ),
    decreases s.len(),
{
    let with = text_utf16(ending_text(target), big);
    if s.len() == 0 {
        assert(text_utf16(text_lf_to(s, target), big) =~= replace_units(
            text_utf16(s, big),
            short_unit('\n', big),
            with,
        ));
    } else {
        let c = s[0];
        let rest = s.skip(1);
        assert(s.drop_first() =~= rest);
        lemma_utf16_lf_to(rest, big, target);
        lemma_utf16_replace_step(c, text_utf16(rest, big), big, with);
        if c == '\n' {
            lemma_utf16_add(ending_text(target), text_lf_to(rest, target), big);
        } else {
            assert(text_lf_to(s, target).drop_first() =~= text_lf_to(rest, target));
        }
    }
}

proof fn lemma_replace_same(s: Seq<u8>, u: Seq<u8>)
    requires
        u.len() == 2,
    ensures
        replace_units(s, u, u) == s,
    decreases s.len(),
{
    if s.len() >= 2 {
        lemma_replace_same(s.skip(2), u);
        assert(s.take(2) + s.skip(2) =~= s);
        if s[0] == u[0] && s[1] == u[1] {
            assert(s.take(2) =~= u);
        }
    }
}

proof fn lemma_utf16_to_lf(s: Seq<char>, big: bool)
    ensures
        text_utf16(text_to_lf(s), big) == units_to_lf(
            text_utf16(s, big),
            short_unit('\r', big),
            short_unit('\n', big),
        ),
    decreases s.len(),
{
    let cr = short_unit('\r', big);
    let lf = short_unit('\n', big);
    let all = text_utf16(s, big);
    let shown = text_to_lf(s);
    lemma_char_utf16('\r', big);
    lemma_char_utf16('\n', big);
    if s.len() == 0 {
        assert(text_utf16(shown, big) =~= units_to_lf(all, cr, lf));
    } else {
        let c = s[0];
        let rest = s.skip(1);
        let tail = text_utf16(rest, big);
        assert(s.drop_first() =~= rest);
        lemma_char_utf16(c, big);
        lemma_utf16_to_lf(rest, big);
        if c == '\r' {
            assert(all.skip(2) =~= tail);
            if s.len() > 1 && s[1] == '\n' {
                let tail2 = s.skip(2);
                lemma_utf16_to_lf(tail2, big);
                assert(rest.drop_first() =~= tail2);
                assert(all.skip(4) =~= text_utf16(tail2, big));
                assert(shown.drop_first() =~= text_to_lf(tail2));
                assert(all[2] == lf[0] && all[3] == lf[1]);
            } else {
                if s.len() > 1 {
                    lemma_char_utf16(s[1], big);
                    let next = char_utf16(s[1], big);
                    assert(rest[0] == s[1]);
                    assert(all[2] == next[0] && all[3] == next[1]);
                    if all[2] == lf[0] && all[3] == lf[1] {
                        if (s[1] as int) < 0x10000 {
                            assert(short_unit(s[1], big) =~= lf);
                        }
                    }
                }
                assert(shown.drop_first() =~= text_to_lf(rest));
            }
        } else {
            assert(shown.drop_first() =~= text_to_lf(rest));
            if (c as int) < 0x10000 {
                assert(all.skip(2) =~= tail);
                assert(all.take(2) =~= char_utf16(c, big));
                if all[0] == cr[0] && all[1] == cr[1] {
                    assert(short_unit(c, big) =~= cr);
                }
            } else {
                assert(all.skip(2).skip(2) =~= tail);
                assert(all.take(2) + all.skip(2).take(2) =~= char_utf16(c, big));
                assert(all.skip(2)[0] == all[2] && all.skip(2)[1] == all[3]);
                assert(units_to_lf(all.skip(2), cr, lf) =~= all.skip(2).take(2) + units_to_lf(
                    tail,
                    cr,
                    lf,
                ));
                assert(units_to_lf(all, cr, lf) =~= char_utf16(c, big) + units_to_lf(tail, cr, lf));
            }
        }
    }
}

/// Converting line endings in native bytes is converting them in the text: for
/// UTF-8 and UTF-16, encoding the converted text gives the converted bytes.
pub proof fn law_native_conversion_is_text_conversion(
    s: Seq<char>,
    encoding: EncodingKind,
    target: LineEnding,
)
    requires
        !(encoding is Legacy),
    ensures
        encoded_strict(text_lf_to(s, target), encoding) == Ok::<Seq<u8>, Seq<char>>(
            native_lf_to(encoded_strict(s, encoding)->Ok_0, encoding, target),
        ),
        encoded_strict(text_to_lf(s), encoding) == Ok::<Seq<u8>, Seq<char>>(
            native_to_lf(encoded_strict(s, encoding)->Ok_0, encoding),
        ),
{
    lemma_utf8_lf_to(s, target);
    lemma_utf8_to_lf(s);
    assert(short_unit('\n', false) =~= seq![0x0Au8, 0x00u8]);
    assert(short_unit('\r', false) =~= seq![0x0Du8, 0x00u8]);
    assert(short_unit('\n', true) =~= seq![0x00u8, 0x0Au8]);
    assert(short_unit('\r', true) =~= seq![0x00u8, 0x0Du8]);
    let big = encoding is Utf16Be;
    lemma_utf16_ending(target, big);
    lemma_utf16_lf_to(s, big, target);
    lemma_utf16_to_lf(s, big);
    lemma_replace_same(text_utf16(s, big), short_unit('\n', big));
    assert(short_unit('\r', false) + short_unit('\n', false) =~= seq![
        0x0Du8,
        0x00u8,
        0x0Au8,
        0x00u8,
    ]);
    assert(short_unit('\r', true) + short_unit('\n', true) =~= seq![
        0x00u8,
        0x0Du8,
        0x00u8,
        0x0Au8,
    ]);
}

// ── One kind of line ending ─────────────────────────────────────────────────

/// Converting the line endings of an LF-only stream leaves no line ending of another kind:
/// with CR LF each LF stands behind a CR and each CR before an LF, and with CR no LF is left.
pub proof fn law_converted_bytes_have_one_ending(s: Seq<u8>, e: LineEnding)
    requires
        lacks(s, 0x0D),
    ensures
        only_ending(native_lf_to(s, EncodingKind::Utf8, e), e),
{
    if e == LineEnding::CrLf {
        lemma_crlf_only(s);
    }
}

proof fn lemma_crlf_only(s: Seq<u8>)
    requires
        lacks(s, 0x0D),
    ensures
        only_ending(lf_to_crlf(s), LineEnding::CrLf),
    decreases s.len(),
{
    if s.len() > 0 {
        lemma_lacks_skip(s, 0x0D);
        lemma_crlf_only(s.skip(1));
        let rest = lf_to_crlf(s.skip(1));
        let all = lf_to_crlf(s);
        let n: int = if s[0] == 0x0A {
            2
        } else {
            1
        };
        assert(all.skip(n) =~= rest);
        assert(s[0] != 0x0D);
        assert forall|i: int| 0 <= i < all.len() && #[trigger] all[i] == 0x0D implies i + 1
            < all.len() && all[i + 1] == 0x0A by {
            if i >= n {
                assert(rest[i - n] == 0x0D);
                assert(rest[i - n + 1] == all[i + 1]);
            }
        }
        assert forall|i: int| 0 <= i < all.len() && #[trigger] all[i] == 0x0A implies i > 0 && all[i
            - 1] == 0x0D by {
            if i >= n {
                assert(rest[i - n] == 0x0A);
                assert(rest[i - n - 1] == all[i - 1]);
            }
        }
    }
}

/// Converting the LF of a text without CR to a line ending leaves no line ending of another
/// kind, and normalising gives the text back.
pub proof fn law_converted_text_has_one_ending(s: Seq<char>, e: LineEnding)
    requires
        forall|i: int| 0 <= i < s.len() ==> #[trigger] s[i] != '\r',
    ensures
        ({
            let t = text_lf_to(s, e);
            &&& text_to_lf(t) == s
            &&& match e {
                LineEnding::Lf => t == s,
                LineEnding::CrLf => {
                    &&& forall|i: int|
                        0 <= i < t.len() && #[trigger] t[i] == '\r' ==> i + 1 < t.len() && t[i + 1]
                            == '\n'
                    &&& forall|i: int|
                        0 <= i < t.len() && #[trigger] t[i] == '\n' ==> i > 0 && t[i - 1] == '\r'
                },
                LineEnding::Cr => forall|i: int| 0 <= i < t.len() ==> #[trigger] t[i] != '\n',
            }
        }),
    decreases s.len(),
{
    let t = text_lf_to(s, e);
    if s.len() > 0 {
        let rest = s.skip(1);
        assert forall|i: int| 0 <= i < rest.len() implies #[trigger] rest[i] != '\r' by {
            assert(rest[i] == s[i + 1]);
        }
        law_converted_text_has_one_ending(rest, e);
        let tail = text_lf_to(rest, e);
        let head = if s[0] == '\n' {
            ending_text(e)
        } else {
            seq![s[0]]
        };
        let n = head.len() as int;
        assert(t =~= head + tail);
        assert(t.skip(n) =~= tail);
        assert forall|i: int| n <= i < t.len() implies #[trigger] t[i] == tail[i - n] by {}
        assert(seq![s[0]] + rest =~= s);
        if e == LineEnding::Cr && s[0] == '\n' && tail.len() > 0 {
            assert(t[1] == tail[0]);
            assert(tail[0] != '\n');
        }
        assert(text_to_lf(t) =~= seq![s[0]] + text_to_lf(tail));
        if e == LineEnding::CrLf {
            assert forall|i: int| 0 <= i < t.len() && #[trigger] t[i] == '\r' implies i + 1
                < t.len() && t[i + 1] == '\n' by {
                if i >= n {
                    assert(tail[i - n] == '\r');
                    assert(tail[i - n + 1] == t[i + 1]);
                }
            }
            assert forall|i: int| 0 <= i < t.len() && #[trigger] t[i] == '\n' implies i > 0 && t[i
                - 1] == '\r' by {
                if i >= n {
                    assert(tail[i - n] == '\n');
                    assert(tail[i - n - 1] == t[i - 1]);
                }
            }
        } else if e == LineEnding::Cr {
            assert forall|i: int| 0 <= i < t.len() implies #[trigger] t[i] != '\n' by {
                if i >= n {
                    assert(tail[i - n] == t[i]);
                }
            }
        }
    } else {
        assert(t =~= s);
        assert(text_to_lf(t) =~= s);
    }
}

/// Normalising changes nothing but line endings: what is left without CR and LF is the same.
pub proof fn law_normalising_keeps_the_rest(s: Seq<char>, c: char)
    requires
        c != '\r',
        c != '\n',
    ensures
        text_to_lf(s).to_multiset().count(c) == s.to_multiset().count(c),
        forall|i: int| 0 <= i < text_to_lf(s).len() ==> #[trigger] text_to_lf(s)[i] != '\r',
    decreases s.len(),
{
    broadcast use vstd::seq_lib::group_to_multiset_ensures;

    if s.len() > 0 {
        let n: int = if s[0] == '\r' && s.len() > 1 && s[1] == '\n' {
            2
        } else {
            1
        };
        let head = if s[0] == '\r' {
            '\n'
        } else {
            s[0]
        };
        let rest = s.skip(n);
        law_normalising_keeps_the_rest(rest, c);
        let t = text_to_lf(s);
        let tail = text_to_lf(rest);
        assert(t =~= seq![head] + tail);
        assert forall|i: int| 0 <= i < t.len() implies #[trigger] t[i] != '\r' by {
            if i > 0 {
                assert(t[i] == tail[i - 1]);
            }
        }
        assert(t.remove(0) =~= tail);
        assert(s =~= s.take(n) + rest);
        vstd::seq_lib::lemma_multiset_commutative(seq![head], tail);
        vstd::seq_lib::lemma_multiset_commutative(s.take(n), rest);
        assert(seq![head] =~= Seq::<char>::empty().push(head));
        assert(Seq::<char>::empty().push(head).to_multiset() =~= Seq::<char>::empty().to_multiset().insert(
            head,
        ));
        if n == 1 {
            assert(s.take(1) =~= Seq::<char>::empty().push(s[0]));
        } else {
            assert(s.take(2) =~= Seq::<char>::empty().push(s[0]).push(s[1]));
            assert(Seq::<char>::empty().push(s[0]).push(s[1]).to_multiset() =~= Seq::<
                char,
            >::empty().to_multiset().insert(s[0]).insert(s[1]));
        }
    }
}

/// The UTF-8 of a text without LF holds no byte of LF.
pub proof fn lemma_utf8_lacks_lf(s: Seq<char>)
    requires
        forall|i: int| 0 <= i < s.len() ==> #[trigger] s[i] != '\n',
    ensures
        lacks(encode_utf8(s), 0x0A),
    decreases s.len(),
{
    if s.len() > 0 {
        let rest = s.drop_first();
        assert forall|i: int| 0 <= i < rest.len() implies #[trigger] rest[i] != '\n' by {
            assert(rest[i] == s[i + 1]);
        }
        lemma_utf8_lacks_lf(rest);
        lemma_scalar_bytes(s[0]);
        assert(s[0] != '\n');
    }
}

/// The UTF-8 of LF is one byte.
pub proof fn lemma_utf8_lf()
    ensures
        encode_utf8(seq!['\n']) == seq![0x0Au8],
{
    let s = seq!['\n'];
    assert(s.drop_first() =~= seq![]);
    assert(encode_utf8(s.drop_first()) =~= seq![]);
    let v = 0x0Au32;
    assert(leading_byte_width_1(v) == 0x0A) by (bit_vector)
        requires
            v == 0x0A,
    ;
    assert(encode_utf8(s) =~= seq![0x0Au8]);
}

/// Line endings are normalised piece by piece: unless a CR LF is cut through, the pieces of a
/// text are normalised as they would be by themselves; CR LF, CR and LF each become one LF, and
/// anything else stays.
pub proof fn law_text_is_normalised_piece_by_piece(a: Seq<char>, b: Seq<char>, c: char)
    requires
        a.len() > 0 && b.len() > 0 ==> !(a.last() == '\r' && b[0] == '\n'),
    ensures
        text_to_lf(a + b) == text_to_lf(a) + text_to_lf(b),
        text_to_lf(seq!['\r', '\n']) == seq!['\n'],
        text_to_lf(seq!['\r']) == seq!['\n'],
        text_to_lf(seq!['\n']) == seq!['\n'],
        c != '\r' ==> text_to_lf(seq![c]) == seq![c],
    decreases a.len(),
{
    let none = Seq::<char>::empty();
    assert(text_to_lf(none) =~= none);
    assert(seq!['\r', '\n'].skip(2) =~= none);
    assert(seq!['\r'].skip(1) =~= none);
    assert(seq!['\n'].skip(1) =~= none);
    assert(seq![c].skip(1) =~= none);
    assert(text_to_lf(seq!['\r', '\n']) =~= seq!['\n']);
    assert(text_to_lf(seq!['\r']) =~= seq!['\n']);
    assert(text_to_lf(seq!['\n']) =~= seq!['\n']);
    assert(c != '\r' ==> text_to_lf(seq![c]) =~= seq![c]);
    let s = a + b;
    if a.len() == 0 {
        assert(s =~= b);
        assert(text_to_lf(a) + text_to_lf(b) =~= text_to_lf(b));
    } else {
        let n: int = if a[0] == '\r' && a.len() > 1 && a[1] == '\n' {
            2
        } else {
            1
        };
        assert(s[0] == a[0]);
        if s.len() > 1 && a.len() == 1 {
            assert(s[1] == b[0]);
            assert(a.last() == a[0]);
        }
        assert(s.skip(n) =~= a.skip(n) + b);
        if a.skip(n).len() > 0 {
            assert(a.skip(n).last() == a.last());
        }
        law_text_is_normalised_piece_by_piece(a.skip(n), b, c);
        assert(text_to_lf(s) =~= text_to_lf(a) + text_to_lf(b));
    }
}

/// Bytes are normalised piece by piece, likewise.
pub proof fn law_bytes_are_normalised_piece_by_piece(a: Seq<u8>, b: Seq<u8>, c: u8)
    requires
        a.len() > 0 && b.len() > 0 ==> !(a.last() == 0x0D && b[0] == 0x0A),
    ensures
        to_lf(a + b) == to_lf(a) + to_lf(b),
        to_lf(seq![0x0Du8, 0x0Au8]) == seq![0x0Au8],
        to_lf(seq![0x0Du8]) == seq![0x0Au8],
        c != 0x0D ==> to_lf(seq![c]) == seq![c],
    decreases a.len(),
{
    let none = Seq::<u8>::empty();
    assert(to_lf(none) =~= none);
    assert(seq![0x0Du8, 0x0Au8].skip(2) =~= none);
    assert(seq![0x0Du8].skip(1) =~= none);
    assert(seq![c].skip(1) =~= none);
    assert(to_lf(seq![0x0Du8, 0x0Au8]) =~= seq![0x0Au8]);
    assert(to_lf(seq![0x0Du8]) =~= seq![0x0Au8]);
    assert(c != 0x0D ==> to_lf(seq![c]) =~= seq![c]);
    let s = a + b;
    if a.len() == 0 {
        assert(s =~= b);
        assert(to_lf(a) + to_lf(b) =~= to_lf(b));
    } else {
        let n: int = if a[0] == 0x0D && a.len() > 1 && a[1] == 0x0A {
            2
        } else {
            1
        };
        assert(s[0] == a[0]);
        if s.len() > 1 && a.len() == 1 {
            assert(s[1] == b[0]);
            assert(a.last() == a[0]);
        }
        assert(s.skip(n) =~= a.skip(n) + b);
        if a.skip(n).len() > 0 {
            assert(a.skip(n).last() == a.last());
        }
        law_bytes_are_normalised_piece_by_piece(a.skip(n), b, c);
        assert(to_lf(s) =~= to_lf(a) + to_lf(b));
    }
}

/// Line endings are put in piece by piece: each LF becomes the line ending asked for, and
/// anything else stays.
pub proof fn law_text_is_converted_piece_by_piece(
    a: Seq<char>,
    b: Seq<char>,
    c: char,
    e: LineEnding,
)
    ensures
        text_lf_to(a + b, e) == text_lf_to(a, e) + text_lf_to(b, e),
        text_lf_to(seq!['\n'], LineEnding::Lf) == seq!['\n'],
        text_lf_to(seq!['\n'], LineEnding::CrLf) == seq!['\r', '\n'],
        text_lf_to(seq!['\n'], LineEnding::Cr) == seq!['\r'],
        c != '\n' ==> text_lf_to(seq![c], e) == seq![c],
    decreases a.len(),
{
    let none = Seq::<char>::empty();
    assert(seq!['\n'].skip(1) =~= none);
    assert(seq![c].skip(1) =~= none);
    assert(text_lf_to(none, e) =~= none);
    assert(text_lf_to(none, LineEnding::Lf) =~= none);
    assert(text_lf_to(none, LineEnding::CrLf) =~= none);
    assert(text_lf_to(none, LineEnding::Cr) =~= none);
    assert(text_lf_to(seq!['\n'], LineEnding::Lf) =~= seq!['\n']);
    assert(text_lf_to(seq!['\n'], LineEnding::CrLf) =~= seq!['\r', '\n']);
    assert(text_lf_to(seq!['\n'], LineEnding::Cr) =~= seq!['\r']);
    assert(c != '\n' ==> text_lf_to(seq![c], e) =~= seq![c]);
    if a.len() == 0 {
        assert(a + b =~= b);
        assert(text_lf_to(a, e) + text_lf_to(b, e) =~= text_lf_to(b, e));
    } else {
        law_text_is_converted_piece_by_piece(a.skip(1), b, c, e);
        assert((a + b).skip(1) =~= a.skip(1) + b);
        assert(text_lf_to(a + b, e) =~= text_lf_to(a, e) + text_lf_to(b, e));
    }
}

/// In UTF-16 a character is its code in two bytes, low byte first or high byte first; one that
/// needs more is a high and a low surrogate, which together give its code.
pub proof fn law_utf16_holds_the_codes(c: char, rest: Seq<char>)
    ensures
        text_utf16(seq![c] + rest, false) == text_utf16(seq![c], false) + text_utf16(rest, false),
        text_utf16(seq![c] + rest, true) == text_utf16(seq![c], true) + text_utf16(rest, true),
        ({
            let le = text_utf16(seq![c], false);
            let be = text_utf16(seq![c], true);
            &&& (c as nat) < 0x10000 ==> le.len() == 2 && le[0] + 256 * le[1] == c as nat
            &&& (c as nat) >= 0x10000 ==> {
                let hi = le[0] + 256 * le[1];
                let lo = le[2] + 256 * le[3];
                &&& le.len() == 4
                &&& 0xD800 <= hi < 0xDC00
                &&& 0xDC00 <= lo < 0xE000
                &&& (hi - 0xD800) * 0x400 + (lo - 0xDC00) + 0x10000 == c as nat
            }
            &&& be.len() == le.len()
            &&& be[0] == le[1] && be[1] == le[0]
            &&& le.len() == 4 ==> be[2] == le[3] && be[3] == le[2]
        }),
{
    let one = seq![c];
    assert((one + rest).drop_first() =~= rest);
    assert(one.drop_first() =~= seq![]);
    assert(text_utf16(seq![], false) =~= seq![]);
    assert(text_utf16(seq![], true) =~= seq![]);
    assert(text_utf16(one, false) =~= char_utf16(c, false));
    assert(text_utf16(one, true) =~= char_utf16(c, true));
}

/// The names of encodings, line endings and policies are those that are read back.
pub proof fn law_names_are_read_back(name: Seq<char>)
    ensures
        EncodingKind::of_name(EncodingKind::Utf8.name()) == EncodingKind::Utf8,
        EncodingKind::of_name(EncodingKind::Utf16Le.name()) == EncodingKind::Utf16Le,
        EncodingKind::of_name(EncodingKind::Utf16Be.name()) == EncodingKind::Utf16Be,
        EncodingKind::of_name(name).name() == name,
        LineEnding::named("lf"@) == Ok::<LineEnding, Seq<char>>(LineEnding::Lf),
        LineEnding::named("crlf"@) == Ok::<LineEnding, Seq<char>>(LineEnding::CrLf),
        LineEnding::named("cr"@) == Ok::<LineEnding, Seq<char>>(LineEnding::Cr),
        LineEnding::named(name) is Ok ==> name == "lf"@ || name == "crlf"@ || name == "cr"@,
        BomPolicy::named("strip"@) == Ok::<BomPolicy, Seq<char>>(BomPolicy::Strip),
        BomPolicy::named("preserve"@) == Ok::<BomPolicy, Seq<char>>(BomPolicy::Preserve),
        BomPolicy::named("force"@) == Ok::<BomPolicy, Seq<char>>(BomPolicy::Force),
        BomPolicy::named(name) is Ok ==> name == "strip"@ || name == "preserve"@ || name
            == "force"@,
{
    reveal_strlit("UTF-8");
    reveal_strlit("UTF-16LE");
    reveal_strlit("UTF-16BE");
    reveal_strlit("lf");
    reveal_strlit("crlf");
    reveal_strlit("cr");
    reveal_strlit("strip");
    reveal_strlit("preserve");
    reveal_strlit("force");
    assert("UTF-8"@.len() == 5 && "UTF-16LE"@.len() == 8 && "UTF-16BE"@.len() == 8);
    assert("UTF-16LE"@[6] != "UTF-16BE"@[6]);
    assert("lf"@[0] != "cr"@[0] && "lf"@.len() == 2 && "crlf"@.len() == 4 && "cr"@.len() == 2);
    assert("strip"@[0] != "force"@[0] && "strip"@.len() == 5 && "preserve"@.len() == 8);
}

} // verus!
