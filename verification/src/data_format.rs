//! Byte payloads as text: hexadecimal, base-64 and escaped.

use vstd::prelude::*;
use vstd::seq_lib::*;
use vstd::string::*;
use vstd::utf8::*;

use crate::escape::{
    self, hex_run, holds_at, lemma_hex_char_value, lemma_named_scalar, unescape_bytes, DecodeError,
};
use crate::num::{dec, hex_char, hex_digit_char, hex_value, hex_value_of, push_dec};
use crate::text::{
    char_debug, chars_of, format_char_debug, format_str_debug, outcome, same, str_debug,
};

verus! {

/// How a byte payload is written as text.
#[derive(Clone, Copy, Debug, PartialEq, Eq, Structural)]
pub enum DataFormat {
    /// Hexadecimal digits in either case, with optional `-` separators.
    Hex,
    /// Standard base-64 with required `=` padding; ASCII whitespace is ignored.
    Base64,
    /// The escape codec of [`crate::escape`].
    Encoded,
}

impl DataFormat {
    /// The format with the given name, or the message of the error.
    pub open spec fn named(name: Seq<char>) -> Result<DataFormat, Seq<char>> {
        if name == "hex"@ {
            Ok(DataFormat::Hex)
        } else if name == "base64"@ {
            Ok(DataFormat::Base64)
        } else if name == "encoded"@ {
            Ok(DataFormat::Encoded)
        } else {
            Err(
                "unknown data format "@ + str_debug(name)
                    + "; expected hex, base64, or encoded"@,
            )
        }
    }

    /// The format with the given name.
    pub fn from_name(name: &str) -> (r: Result<DataFormat, String>)
        ensures
            outcome(r) == DataFormat::named(name@),
    {
        if same(name, "hex") {
            Ok(DataFormat::Hex)
        } else if same(name, "base64") {
            Ok(DataFormat::Base64)
        } else if same(name, "encoded") {
            Ok(DataFormat::Encoded)
        } else {
            let mut m = "unknown data format ".to_owned();
            m.push_str(format_str_debug(name).as_str());
            m.push_str("; expected hex, base64, or encoded");
            Err(m)
        }
    }
}

/// The bytes that `data` stands for in `format`, or the message of the error.
pub open spec fn decoded(format: DataFormat, data: Seq<char>) -> Result<Seq<u8>, Seq<char>> {
    match format {
        DataFormat::Hex => hex_decoded(encode_utf8(data)),
        DataFormat::Base64 => base64_decoded(encode_utf8(data)),
        DataFormat::Encoded => match unescape_bytes(encode_utf8(data), 0) {
            Ok(b) => Ok(b),
            Err(e) => Err(e.message_spec()),
        },
    }
}

/// A decoding result, by its views.
pub open spec fn bytes_outcome(r: Result<Vec<u8>, String>) -> Result<Seq<u8>, Seq<char>> {
    match r {
        Ok(v) => Ok(v@),
        Err(m) => Err(m@),
    }
}

/// Decode `data` according to `format`. The error is a message for the user.
pub fn decode(format: &DataFormat, data: &str) -> (r: Result<Vec<u8>, String>)
    ensures
        bytes_outcome(r) == decoded(*format, data@),
{
    match format {
        DataFormat::Hex => decode_hex(data),
        DataFormat::Base64 => decode_base64(data),
        DataFormat::Encoded => decode_encoded(data),
    }
}

// ── Hex ─────────────────────────────────────────────────────────────────────

/// The bytes other than `-`.
pub open spec fn without_dashes(s: Seq<u8>) -> Seq<u8> {
    s.filter(|b: u8| b != 0x2D)
}

/// The message for the non-digit `b` at position `pos`.
pub open spec fn hex_digit_message(b: u8, pos: nat) -> Seq<char> {
    "invalid hex digit "@ + char_debug(b as char) + " at position "@ + dec(pos)
}

/// The bytes that the digit pairs from position `i` on stand for.
pub open spec fn hex_pairs(s: Seq<u8>, i: nat) -> Result<Seq<u8>, Seq<char>>
    decreases s.len() - i,
{
    if i + 1 >= s.len() {
        Ok(seq![])
    } else {
        match (hex_value(s[i as int]), hex_value(s[i as int + 1])) {
            (None, _) => Err(hex_digit_message(s[i as int], i)),
            (_, None) => Err(hex_digit_message(s[i as int + 1], i + 1)),
            (Some(h), Some(l)) => match hex_pairs(s, i + 2) {
                Ok(rest) => Ok(seq![(h * 16 + l) as u8] + rest),
                Err(m) => Err(m),
            },
        }
    }
}

/// The bytes that a hexadecimal text stands for.
pub open spec fn hex_decoded(s: Seq<u8>) -> Result<Seq<u8>, Seq<char>> {
    let clean = without_dashes(s);
    if clean.len() % 2 != 0 {
        Err(
            "hex data has an odd number of digits ("@ + dec(clean.len()) + " digit"@ + (if clean.len()
                == 1 {
                ""@
            } else {
                "s"@
            }) + " after stripping dashes)"@,
        )
    } else {
        hex_pairs(clean, 0)
    }
}

fn hex_error(b: u8, pos: usize) -> (r: String)
    ensures
        r@ == hex_digit_message(b, pos as nat),
{
    let mut m = "invalid hex digit ".to_owned();
    let shown = format_char_debug(b as char);
    m.push_str(shown.as_str());
    m.push_str(" at position ");
    push_dec(&mut m, pos as u64);
    m
}

/// The bytes of `s` other than `-`.
fn strip_dashes(s: &[u8]) -> (r: Vec<u8>)
    ensures
        r@ == without_dashes(s@),
{
    let mut out: Vec<u8> = Vec::new();
    let mut i: usize = 0;
    proof {
        assert(s@.take(0) =~= seq![]);
        reveal(Seq::filter);
    }
    while i < s.len()
        invariant
            i <= s@.len(),
            out@ == without_dashes(s@.take(i as int)),
        decreases s@.len() - i,
    {
        proof {
            reveal(Seq::filter);
            assert(s@.take(i + 1).drop_last() =~= s@.take(i as int));
            assert(s@.take(i + 1).last() == s@[i as int]);
        }
        if s[i] != 0x2D {
            out.push(s[i]);
        }
        i = i + 1;
    }
    proof {
        assert(s@.take(i as int) =~= s@);
    }
    out
}

pub fn decode_hex(s: &str) -> (r: Result<Vec<u8>, String>)
    ensures
        bytes_outcome(r) == hex_decoded(encode_utf8(s@)),
{
    let clean = strip_dashes(s.as_bytes());
    if clean.len() % 2 != 0 {
        let mut m = "hex data has an odd number of digits (".to_owned();
        push_dec(&mut m, clean.len() as u64);
        m.push_str(" digit");
        m.push_str(if clean.len() == 1 { "" } else { "s" });
        m.push_str(" after stripping dashes)");
        return Err(m);
    }
    let mut out: Vec<u8> = Vec::new();
    let mut i: usize = 0;
    while i < clean.len()
        invariant
            i <= clean@.len(),
            i % 2 == 0,
            clean@.len() % 2 == 0,
            clean@ == without_dashes(encode_utf8(s@)),
            match hex_pairs(clean@, i as nat) {
                Ok(rest) => hex_pairs(clean@, 0) == Ok::<Seq<u8>, Seq<char>>(out@ + rest),
                Err(m) => hex_pairs(clean@, 0) == Err::<Seq<u8>, Seq<char>>(m),
            },
        decreases clean@.len() - i,
    {
        let hi: u8 = match hex_value_of(clean[i]) {
            Some(d) => d,
            None => {
                return Err(hex_error(clean[i], i));
            },
        };
        let lo: u8 = match hex_value_of(clean[i + 1]) {
            Some(d) => d,
            None => {
                return Err(hex_error(clean[i + 1], i + 1));
            },
        };
        let ghost before = out@;
        out.push(hi * 16 + lo);
        proof {
            if let Ok(rest) = hex_pairs(clean@, (i + 2) as nat) {
                assert(before + (seq![(hi * 16 + lo) as u8] + rest) =~= out@ + rest);
            }
        }
        i = i + 2;
    }
    proof {
        assert(out@ + Seq::<u8>::empty() =~= out@);
    }
    Ok(out)
}

// ── Base64 ──────────────────────────────────────────────────────────────────

/// ASCII whitespace: tab, line feed, form feed, carriage return and space.
pub open spec fn is_ascii_space(b: u8) -> bool {
    b == 9 || b == 10 || b == 12 || b == 13 || b == 32
}

/// The bytes other than ASCII whitespace.
pub open spec fn without_spaces(s: Seq<u8>) -> Seq<u8> {
    s.filter(|b: u8| !is_ascii_space(b))
}

/// The value of a base-64 digit.
pub open spec fn base64_value(b: u8) -> Option<nat> {
    if 65 <= b <= 90 {
        Some((b - 65) as nat)
    } else if 97 <= b <= 122 {
        Some((b - 71) as nat)
    } else if 48 <= b <= 57 {
        Some((b + 4) as nat)
    } else if b == 43 {
        Some(62)
    } else if b == 47 {
        Some(63)
    } else {
        None
    }
}

/// The message for `b`, which is no base-64 digit, at position `pos`.
pub open spec fn base64_digit_message(b: u8, pos: nat) -> Seq<char> {
    if b == '=' as u8 {
        "unexpected '=' padding at position "@ + dec(pos)
    } else {
        "invalid base64 character "@ + char_debug(b as char) + " at position "@ + dec(pos)
    }
}

/// The first byte of a group, from its first two digits.
pub open spec fn group_byte_0(a: nat, b: nat) -> u8 {
    (a * 4 + b / 16) as u8
}

/// The second byte of a group, from its second and third digit.
pub open spec fn group_byte_1(b: nat, c: nat) -> u8 {
    (b % 16 * 16 + c / 4) as u8
}

/// The third byte of a group, from its last two digits.
pub open spec fn group_byte_2(c: nat, d: nat) -> u8 {
    (c % 4 * 64 + d) as u8
}

/// The bytes of the four-digit group at position `i`, and whether padding ends
/// the payload there.
#[verifier::opaque]
pub open spec fn base64_group(s: Seq<u8>, i: nat) -> Result<(Seq<u8>, bool), Seq<char>> {
    let (s0, s1, s2, s3) = (s[i as int], s[i as int + 1], s[i as int + 2], s[i as int + 3]);
    match (base64_value(s0), base64_value(s1)) {
        (None, _) => Err(base64_digit_message(s0, i)),
        (_, None) => Err(base64_digit_message(s1, i + 1)),
        (Some(a), Some(b)) => if s2 == '=' as u8 {
            if s3 != '=' as u8 {
                Err(
                    "invalid base64 padding at position "@ + dec(i + 3)
                        + "; expected '=' after '='"@,
                )
            } else {
                Ok((seq![group_byte_0(a, b)], true))
            }
        } else {
            match base64_value(s2) {
                None => Err(base64_digit_message(s2, i + 2)),
                Some(c) => if s3 == '=' as u8 {
                    Ok((seq![group_byte_0(a, b), group_byte_1(b, c)], true))
                } else {
                    match base64_value(s3) {
                        None => Err(base64_digit_message(s3, i + 3)),
                        Some(d) => Ok(
                            (
                                seq![group_byte_0(a, b), group_byte_1(b, c), group_byte_2(c, d)],
                                false,
                            ),
                        ),
                    }
                },
            }
        },
    }
}

/// The message for digits behind the padding, from position `pos` on.
pub open spec fn behind_padding(pos: nat) -> Seq<char> {
    "unexpected base64 data behind the padding at position "@ + dec(pos)
}

/// The bytes of the groups from position `i` on. Only the last group may be padded.
pub open spec fn base64_groups(s: Seq<u8>, i: nat) -> Result<Seq<u8>, Seq<char>>
    decreases s.len() - i,
{
    if i + 3 >= s.len() {
        Ok(seq![])
    } else {
        match base64_group(s, i) {
            Err(m) => Err(m),
            Ok((bytes, true)) => if i + 4 == s.len() {
                Ok(bytes)
            } else {
                Err(behind_padding(i + 4))
            },
            Ok((bytes, false)) => match base64_groups(s, i + 4) {
                Ok(rest) => Ok(bytes + rest),
                Err(m) => Err(m),
            },
        }
    }
}

/// The bytes that a base-64 text stands for.
pub open spec fn base64_decoded(s: Seq<u8>) -> Result<Seq<u8>, Seq<char>> {
    let stripped = without_spaces(s);
    if stripped.len() % 4 != 0 {
        Err(
            "base64 input length ("@ + dec(stripped.len())
                + " chars after stripping whitespace) is not a multiple of 4; padding may be missing"@,
        )
    } else {
        base64_groups(stripped, 0)
    }
}

/// The bytes of `s` other than ASCII whitespace.
fn strip_spaces(s: &[u8]) -> (r: Vec<u8>)
    ensures
        r@ == without_spaces(s@),
{
    let mut out: Vec<u8> = Vec::new();
    let mut i: usize = 0;
    proof {
        assert(s@.take(0) =~= seq![]);
        reveal(Seq::filter);
    }
    while i < s.len()
        invariant
            i <= s@.len(),
            out@ == without_spaces(s@.take(i as int)),
        decreases s@.len() - i,
    {
        proof {
            reveal(Seq::filter);
            assert(s@.take(i + 1).drop_last() =~= s@.take(i as int));
            assert(s@.take(i + 1).last() == s@[i as int]);
        }
        let b: u8 = s[i];
        if !(b == 9 || b == 10 || b == 12 || b == 13 || b == 32) {
            out.push(b);
        }
        i = i + 1;
    }
    proof {
        assert(s@.take(i as int) =~= s@);
    }
    out
}

fn b64_val(b: u8, pos: usize) -> (r: Result<u8, String>)
    ensures
        match r {
            Ok(v) => base64_value(b) == Some(v as nat) && v < 64,
            Err(m) => base64_value(b) is None && m@ == base64_digit_message(b, pos as nat),
        },
{
    if 65 <= b && b <= 90 {
        Ok(b - 65)
    } else if 97 <= b && b <= 122 {
        Ok(b - 71)
    } else if 48 <= b && b <= 57 {
        Ok(b + 4)
    } else if b == 43 {
        Ok(62)
    } else if b == 47 {
        Ok(63)
    } else if b == '=' as u8 {
        let mut m = "unexpected '=' padding at position ".to_owned();
        push_dec(&mut m, pos as u64);
        Err(m)
    } else {
        let mut m = "invalid base64 character ".to_owned();
        let shown = format_char_debug(b as char);
        m.push_str(shown.as_str());
        m.push_str(" at position ");
        push_dec(&mut m, pos as u64);
        Err(m)
    }
}

/// Decodes the group at position `i`, appending its bytes, and tells whether
/// padding ends the payload there.
fn decode_group(s: &Vec<u8>, i: usize, out: &mut Vec<u8>) -> (r: Result<bool, String>)
    requires
        i + 3 < s.len(),
    ensures
        match r {
            Ok(end) => base64_group(s@, i as nat) matches Ok(g) && g.1 == end && final(out)@
                =~= old(out)@ + g.0,
            Err(m) => base64_group(s@, i as nat) == Err::<(Seq<u8>, bool), Seq<char>>(m@),
        },
{
    proof {
        reveal(base64_group);
    }
    let a: u8 = match b64_val(s[i], i) {
        Ok(v) => v,
        Err(m) => {
            return Err(m);
        },
    };
    let b: u8 = match b64_val(s[i + 1], i + 1) {
        Ok(v) => v,
        Err(m) => {
            return Err(m);
        },
    };
    if s[i + 2] == '=' as u8 {
        if s[i + 3] != '=' as u8 {
            let mut m = "invalid base64 padding at position ".to_owned();
            push_dec(&mut m, (i + 3) as u64);
            m.push_str("; expected '=' after '='");
            return Err(m);
        }
        out.push(a * 4 + b / 16);
        return Ok(true);
    }
    let c: u8 = match b64_val(s[i + 2], i + 2) {
        Ok(v) => v,
        Err(m) => {
            return Err(m);
        },
    };
    if s[i + 3] == '=' as u8 {
        out.push(a * 4 + b / 16);
        out.push(b % 16 * 16 + c / 4);
        return Ok(true);
    }
    let d: u8 = match b64_val(s[i + 3], i + 3) {
        Ok(v) => v,
        Err(m) => {
            return Err(m);
        },
    };
    out.push(a * 4 + b / 16);
    out.push(b % 16 * 16 + c / 4);
    out.push(c % 4 * 64 + d);
    Ok(false)
}

pub fn decode_base64(s: &str) -> (r: Result<Vec<u8>, String>)
    ensures
        bytes_outcome(r) == base64_decoded(encode_utf8(s@)),
{
    let stripped = strip_spaces(s.as_bytes());
    if stripped.len() % 4 != 0 {
        let mut m = "base64 input length (".to_owned();
        push_dec(&mut m, stripped.len() as u64);
        m.push_str(
            " chars after stripping whitespace) is not a multiple of 4; padding may be missing",
        );
        return Err(m);
    }
    let mut out: Vec<u8> = Vec::new();
    let mut i: usize = 0;
    while i < stripped.len()
        invariant
            i <= stripped@.len(),
            i % 4 == 0,
            stripped@.len() % 4 == 0,
            stripped@ == without_spaces(encode_utf8(s@)),
            match base64_groups(stripped@, i as nat) {
                Ok(rest) => base64_groups(stripped@, 0) == Ok::<Seq<u8>, Seq<char>>(out@ + rest),
                Err(m) => base64_groups(stripped@, 0) == Err::<Seq<u8>, Seq<char>>(m),
            },
        decreases stripped@.len() - i,
    {
        let ghost before = out@;
        match decode_group(&stripped, i, &mut out) {
            Ok(end) => {
                if end {
                    if i + 4 < stripped.len() {
                        let mut m = "unexpected base64 data behind the padding at position ".to_owned();
                        push_dec(&mut m, (i + 4) as u64);
                        return Err(m);
                    }
                    return Ok(out);
                }
                proof {
                    let g = base64_group(stripped@, i as nat)->Ok_0;
                    if let Ok(rest) = base64_groups(stripped@, (i + 4) as nat) {
                        assert(before + (g.0 + rest) =~= out@ + rest);
                    }
                }
            },
            Err(m) => {
                return Err(m);
            },
        }
        i = i + 4;
    }
    proof {
        assert(out@ + Seq::<u8>::empty() =~= out@);
    }
    Ok(out)
}

// ── Encoded ─────────────────────────────────────────────────────────────────

pub fn decode_encoded(s: &str) -> (r: Result<Vec<u8>, String>)
    ensures
        bytes_outcome(r) == decoded(DataFormat::Encoded, s@),
{
    match escape::decode_bytes(s) {
        Ok(b) => Ok(b),
        Err(e) => Err(e.message()),
    }
}

// ── Encoders ────────────────────────────────────────────────────────────────

/// The text that stands for `data` in `format`.
pub open spec fn encoded(format: DataFormat, data: Seq<u8>) -> Seq<char> {
    match format {
        DataFormat::Hex => hex_encoded(data),
        DataFormat::Base64 => pem_encoded(data),
        DataFormat::Encoded => plain_encoded(data),
    }
}

/// Encode `data` according to `format`.
pub fn encode(format: &DataFormat, data: &[u8]) -> (r: String)
    ensures
        r@ == encoded(*format, data@),
{
    match format {
        DataFormat::Hex => encode_hex(data),
        DataFormat::Base64 => encode_base64_pem(data),
        DataFormat::Encoded => encode_encoded(data),
    }
}

/// One byte in the escaped format: printable ASCII as it is, the backslash
/// doubled, anything else as `\xHH` with upper-case digits.
pub open spec fn plain_encoded_byte(b: u8) -> Seq<char> {
    if b == 0x5C {
        seq!['\\', '\\']
    } else if 0x20 <= b <= 0x7E {
        seq![b as char]
    } else {
        seq!['\\', 'x', hex_char((b / 16) as nat, true), hex_char((b % 16) as nat, true)]
    }
}

/// A byte string in the escaped format.
pub open spec fn plain_encoded(s: Seq<u8>) -> Seq<char>
    decreases s.len(),
{
    if s.len() == 0 {
        seq![]
    } else {
        plain_encoded_byte(s[0]) + plain_encoded(s.drop_first())
    }
}

/// Encode `data` in the escaped format.
pub fn encode_encoded(data: &[u8]) -> (r: String)
    ensures
        r@ == plain_encoded(data@),
{
    let mut out = String::new();
    let mut i: usize = 0;
    proof {
        assert(data@.skip(0) =~= data@);
    }
    while i < data.len()
        invariant
            i <= data@.len(),
            out@ + plain_encoded(data@.skip(i as int)) =~= plain_encoded(data@),
        decreases data@.len() - i,
    {
        let b: u8 = data[i];
        proof {
            let rest = data@.skip(i as int);
            assert(rest[0] == b);
            assert(rest.drop_first() =~= data@.skip(i + 1));
        }
        let ghost before = out@;
        if b == 0x5C {
            out.push('\\');
            out.push('\\');
        } else if 0x20 <= b && b <= 0x7E {
            out.push(b as char);
        } else {
            out.push('\\');
            out.push('x');
            out.push(hex_digit_char(b / 16, true));
            out.push(hex_digit_char(b % 16, true));
        }
        proof {
            assert(out@ =~= before + plain_encoded_byte(b));
        }
        i = i + 1;
    }
    out
}

/// The two upper-case digits of a byte.
pub open spec fn hex_pair(b: u8) -> Seq<char> {
    seq![hex_char((b / 16) as nat, true), hex_char((b % 16) as nat, true)]
}

/// The digit pairs of a byte string, separated by `-`.
pub open spec fn hex_encoded(s: Seq<u8>) -> Seq<char>
    decreases s.len(),
{
    if s.len() == 0 {
        seq![]
    } else if s.len() == 1 {
        hex_pair(s[0])
    } else {
        hex_pair(s[0]) + seq!['-'] + hex_encoded(s.drop_first())
    }
}

/// Encode `data` as upper-case digit pairs separated by `-`.
pub fn encode_hex(data: &[u8]) -> (r: String)
    ensures
        r@ == hex_encoded(data@),
{
    let mut out = String::new();
    let mut i: usize = 0;
    proof {
        assert(data@.skip(0) =~= data@);
    }
    while i < data.len()
        invariant
            i <= data@.len(),
            i == 0 ==> out@ =~= seq![],
            0 < i < data@.len() ==> out@ + seq!['-'] + hex_encoded(data@.skip(i as int))
                =~= hex_encoded(data@),
            0 < i == data@.len() ==> out@ =~= hex_encoded(data@),
        decreases data@.len() - i,
    {
        let ghost before = out@;
        let b: u8 = data[i];
        if i > 0 {
            out.push('-');
        }
        out.push(hex_digit_char(b / 16, true));
        out.push(hex_digit_char(b % 16, true));
        proof {
            let rest = data@.skip(i as int);
            assert(rest[0] == b);
            assert(rest.drop_first() =~= data@.skip(i + 1));
            if i > 0 {
                assert(out@ =~= before + seq!['-'] + hex_pair(b));
            } else {
                assert(out@ =~= hex_pair(b));
            }
        }
        i = i + 1;
    }
    out
}

/// The base-64 digit for `v`, for `v` below 64.
pub open spec fn base64_char(v: nat) -> char {
    if v < 26 {
        (65 + v) as char
    } else if v < 52 {
        (71 + v) as char
    } else if v < 62 {
        (v - 4) as char
    } else if v == 62 {
        '+'
    } else {
        '/'
    }
}

/// The four characters of the group that begins the bytes `s`: one to three
/// bytes, padded with `=`.
pub open spec fn base64_quad(s: Seq<u8>) -> Seq<char> {
    let b0 = s[0] as nat;
    let b1 = if s.len() > 1 {
        s[1] as nat
    } else {
        0
    };
    let b2 = if s.len() > 2 {
        s[2] as nat
    } else {
        0
    };
    seq![
        base64_char(b0 / 4),
        base64_char(b0 % 4 * 16 + b1 / 16),
        if s.len() > 1 {
            base64_char(b1 % 16 * 4 + b2 / 64)
        } else {
            '='
        },
        if s.len() > 2 {
            base64_char(b2 % 64)
        } else {
            '='
        },
    ]
}

/// A byte string in base-64, on one line.
pub open spec fn base64_encoded(s: Seq<u8>) -> Seq<char>
    decreases s.len(),
{
    if s.len() == 0 {
        seq![]
    } else if s.len() <= 3 {
        base64_quad(s)
    } else {
        base64_quad(s) + base64_encoded(s.skip(3))
    }
}

fn b64_char(v: u8) -> (r: char)
    requires
        v < 64,
    ensures
        r == base64_char(v as nat),
{
    if v < 26 {
        (65 + v) as char
    } else if v < 52 {
        (71 + v) as char
    } else if v < 62 {
        (v - 4) as char
    } else if v == 62 {
        '+'
    } else {
        '/'
    }
}

/// Encode `data` as standard base-64 with `=` padding.
pub fn encode_base64(data: &[u8]) -> (r: String)
    ensures
        r@ == base64_encoded(data@),
{
    let mut out = String::new();
    let mut i: usize = 0;
    let len: usize = data.len();
    proof {
        assert(data@.skip(0) =~= data@);
    }
    while i < len
        invariant
            len == data@.len(),
            i <= len,
            out@ + base64_encoded(data@.skip(i as int)) =~= base64_encoded(data@),
        decreases len - i,
    {
        let ghost before = out@;
        let left: usize = len - i;
        let b0: u8 = data[i];
        let b1: u8 = if left > 1 {
            data[i + 1]
        } else {
            0
        };
        let b2: u8 = if left > 2 {
            data[i + 2]
        } else {
            0
        };
        out.push(b64_char(b0 / 4));
        out.push(b64_char(b0 % 4 * 16 + b1 / 16));
        if left > 1 {
            out.push(b64_char(b1 % 16 * 4 + b2 / 64));
        } else {
            out.push('=');
        }
        if left > 2 {
            out.push(b64_char(b2 % 64));
        } else {
            out.push('=');
        }
        proof {
            let rest = data@.skip(i as int);
            assert(out@ =~= before + base64_quad(rest));
            if left > 3 {
                assert(rest.skip(3) =~= data@.skip(i + 3));
            } else {
                assert(base64_encoded(data@.skip(len as int)) =~= seq![]);
            }
        }
        i = if left > 3 {
            i + 3
        } else {
            len
        };
    }
    out
}

/// A text cut into lines of 64 characters, each ended by CR LF.
pub open spec fn wrapped(s: Seq<char>) -> Seq<char>
    decreases s.len(),
{
    if s.len() == 0 {
        seq![]
    } else if s.len() <= 64 {
        s + seq!['\r', '\n']
    } else {
        s.take(64) + seq!['\r', '\n'] + wrapped(s.skip(64))
    }
}

/// A byte string in base-64, in lines of 64 characters.
pub open spec fn pem_encoded(s: Seq<u8>) -> Seq<char> {
    wrapped(base64_encoded(s))
}

/// Encode `data` as base-64 in lines of 64 characters, each ended by CR LF.
pub fn encode_base64_pem(data: &[u8]) -> (r: String)
    ensures
        r@ == pem_encoded(data@),
{
    let flat = chars_of(encode_base64(data).as_str());
    let mut out = String::new();
    let mut pos: usize = 0;
    let len: usize = flat.len();
    proof {
        assert(flat@.skip(0) =~= flat@);
    }
    while pos < len
        invariant
            len == flat@.len(),
            pos <= len,
            flat@ == base64_encoded(data@),
            out@ + wrapped(flat@.skip(pos as int)) =~= wrapped(flat@),
        decreases len - pos,
    {
        let end: usize = if len - pos > 64 {
            pos + 64
        } else {
            len
        };
        let ghost before = out@;
        let mut k: usize = pos;
        while k < end
            invariant
                pos <= k <= end <= len,
                len == flat@.len(),
                out@ =~= before + flat@.subrange(pos as int, k as int),
            decreases end - k,
        {
            out.push(flat[k]);
            k = k + 1;
        }
        out.push('\r');
        out.push('\n');
        proof {
            let rest = flat@.skip(pos as int);
            assert(out@ =~= before + flat@.subrange(pos as int, end as int) + seq!['\r', '\n']);
            if len - pos > 64 {
                assert(rest.take(64) =~= flat@.subrange(pos as int, end as int));
                assert(rest.skip(64) =~= flat@.skip(end as int));
            } else {
                assert(rest =~= flat@.subrange(pos as int, end as int));
                assert(wrapped(flat@.skip(end as int)) =~= seq![]);
            }
        }
        pos = end;
    }
    proof {
        assert(wrapped(flat@.skip(pos as int)) =~= seq![]);
    }
    out
}

// ── Laws ────────────────────────────────────────────────────────────────────

/// The characters of an ASCII text as bytes.
pub open spec fn ascii_bytes(s: Seq<char>) -> Seq<u8> {
    s.map_values(|c: char| c as u8)
}

proof fn lemma_ascii_bytes(s: Seq<char>)
    requires
        is_ascii_chars(s),
    ensures
        encode_utf8(s) == ascii_bytes(s),
{
    is_ascii_chars_encode_utf8(s);
    assert(encode_utf8(s) =~= ascii_bytes(s));
}

proof fn lemma_filter_all(s: Seq<u8>, p: spec_fn(u8) -> bool)
    requires
        forall|i: int| 0 <= i < s.len() ==> p(#[trigger] s[i]),
    ensures
        s.filter(p) == s,
    decreases s.len(),
{
    reveal(Seq::filter);
    if s.len() > 0 {
        lemma_filter_all(s.drop_last(), p);
        assert(s.drop_last().push(s.last()) =~= s);
    } else {
        assert(s.filter(p) =~= s);
    }
}

proof fn lemma_filter_none(s: Seq<u8>, p: spec_fn(u8) -> bool)
    requires
        forall|i: int| 0 <= i < s.len() ==> !p(#[trigger] s[i]),
    ensures
        s.filter(p) =~= seq![],
    decreases s.len(),
{
    reveal(Seq::filter);
    if s.len() > 0 {
        lemma_filter_none(s.drop_last(), p);
    }
}

proof fn lemma_plain_encoded_ascii(s: Seq<u8>)
    ensures
        is_ascii_chars(plain_encoded(s)),
    decreases s.len(),
{
    if s.len() > 0 {
        lemma_plain_encoded_ascii(s.drop_first());
    }
}

proof fn lemma_hex_encoded_ascii(s: Seq<u8>)
    ensures
        is_ascii_chars(hex_encoded(s)),
    decreases s.len(),
{
    if s.len() > 1 {
        lemma_hex_encoded_ascii(s.drop_first());
    }
}

/// A base-64 digit or padding.
spec fn is_base64_text(s: Seq<char>) -> bool {
    forall|i: int| 0 <= i < s.len() ==> '+' <= #[trigger] s[i] <= 'z'
}

proof fn lemma_base64_text(s: Seq<u8>)
    ensures
        is_base64_text(base64_encoded(s)),
    decreases s.len(),
{
    if s.len() > 3 {
        lemma_base64_text(s.skip(3));
    }
}

proof fn lemma_wrapped_ascii(s: Seq<char>)
    requires
        is_base64_text(s),
    ensures
        is_ascii_chars(wrapped(s)),
    decreases s.len(),
{
    if s.len() > 64 {
        lemma_wrapped_ascii(s.skip(64));
    }
}

/// The output of every encoder is ASCII.
pub proof fn law_encoded_is_ascii(format: DataFormat, data: Seq<u8>)
    ensures
        is_ascii_chars(encoded(format, data)),
{
    match format {
        DataFormat::Hex => lemma_hex_encoded_ascii(data),
        DataFormat::Base64 => {
            lemma_base64_text(data);
            lemma_wrapped_ascii(base64_encoded(data));
        },
        DataFormat::Encoded => lemma_plain_encoded_ascii(data),
    }
}

/// The digits of a byte string without separators.
spec fn hex_flat(s: Seq<u8>) -> Seq<u8>
    decreases s.len(),
{
    if s.len() == 0 {
        seq![]
    } else {
        ascii_bytes(hex_pair(s[0])) + hex_flat(s.drop_first())
    }
}

proof fn lemma_hex_stripped(s: Seq<u8>)
    ensures
        without_dashes(ascii_bytes(hex_encoded(s))) == hex_flat(s),
    decreases s.len(),
{
    let p = |b: u8| b != 0x2D;
    if s.len() == 0 {
        lemma_filter_all(ascii_bytes(hex_encoded(s)), p);
        assert(ascii_bytes(hex_encoded(s)) =~= seq![]);
    } else {
        let pair = ascii_bytes(hex_pair(s[0]));
        lemma_filter_all(pair, p);
        if s.len() == 1 {
            assert(hex_flat(s.drop_first()) =~= seq![]);
            assert(hex_flat(s) =~= pair);
        } else {
            let dash = ascii_bytes(seq!['-']);
            let rest = ascii_bytes(hex_encoded(s.drop_first()));
            assert(ascii_bytes(hex_encoded(s)) =~= pair + dash + rest);
            Seq::filter_distributes_over_add(pair + dash, rest, p);
            Seq::filter_distributes_over_add(pair, dash, p);
            lemma_filter_none(dash, p);
            lemma_hex_stripped(s.drop_first());
            assert(pair + Seq::<u8>::empty() =~= pair);
        }
    }
}

proof fn lemma_hex_pairs_back(b: Seq<u8>, i: nat, s: Seq<u8>)
    requires
        i <= b.len(),
        b.skip(i as int) == hex_flat(s),
    ensures
        hex_pairs(b, i) == Ok::<Seq<u8>, Seq<char>>(s),
        (b.len() - i) % 2 == 0,
    decreases s.len(),
{
    if s.len() == 0 {
        assert(b.skip(i as int).len() == 0);
        assert(s =~= seq![]);
    } else {
        let pair = ascii_bytes(hex_pair(s[0]));
        let tail = hex_flat(s.drop_first());
        assert(b.skip(i as int)[0] == pair[0]);
        assert(b.skip(i as int)[1] == pair[1]);
        assert(b.skip(i as int + 2) =~= b.skip(i as int).skip(2));
        assert(b.skip(i as int).skip(2) =~= tail);
        lemma_hex_pairs_back(b, i + 2, s.drop_first());
        lemma_hex_char_value((s[0] / 16) as nat, true);
        lemma_hex_char_value((s[0] % 16) as nat, true);
        assert(seq![s[0]] + s.drop_first() =~= s);
    }
}

proof fn lemma_wrapped_stripped(s: Seq<char>)
    requires
        is_base64_text(s),
    ensures
        without_spaces(ascii_bytes(wrapped(s))) == ascii_bytes(s),
    decreases s.len(),
{
    let p = |b: u8| !is_ascii_space(b);
    let crlf = ascii_bytes(seq!['\r', '\n']);
    lemma_filter_none(crlf, p);
    if s.len() == 0 {
        lemma_filter_all(ascii_bytes(wrapped(s)), p);
        assert(ascii_bytes(wrapped(s)) =~= ascii_bytes(s));
    } else if s.len() <= 64 {
        let head = ascii_bytes(s);
        lemma_filter_all(head, p);
        assert(ascii_bytes(wrapped(s)) =~= head + crlf);
        Seq::filter_distributes_over_add(head, crlf, p);
        assert(head + Seq::<u8>::empty() =~= head);
    } else {
        let head = ascii_bytes(s.take(64));
        let rest = ascii_bytes(wrapped(s.skip(64)));
        lemma_filter_all(head, p);
        assert(ascii_bytes(wrapped(s)) =~= head + crlf + rest);
        Seq::filter_distributes_over_add(head + crlf, rest, p);
        Seq::filter_distributes_over_add(head, crlf, p);
        lemma_wrapped_stripped(s.skip(64));
        assert(head + Seq::<u8>::empty() =~= head);
        assert(head + ascii_bytes(s.skip(64)) =~= ascii_bytes(s));
    }
}

proof fn lemma_base64_char_value(v: nat)
    requires
        v < 64,
    ensures
        base64_value(base64_char(v) as u8) == Some(v),
        base64_char(v) as u8 != '=' as u8,
{
}

proof fn lemma_group_back(b: Seq<u8>, i: nat, s: Seq<u8>)
    requires
        s.len() > 0,
        i + 4 <= b.len(),
        forall|k: int| 0 <= k < 4 ==> b[i + k] == #[trigger] base64_quad(s)[k] as u8,
    ensures
        base64_group(b, i) == Ok::<(Seq<u8>, bool), Seq<char>>(
            (s.take(if s.len() < 3 { s.len() as int } else { 3 }), s.len() < 3),
        ),
{
    reveal(base64_group);
    let q = base64_quad(s);
    let b0 = s[0] as nat;
    let b1 = if s.len() > 1 { s[1] as nat } else { 0 };
    let b2 = if s.len() > 2 { s[2] as nat } else { 0 };
    assert(b[i as int + 0] == q[0] as u8);
    assert(b[i as int + 1] == q[1] as u8);
    assert(b[i as int + 2] == q[2] as u8);
    assert(b[i as int + 3] == q[3] as u8);
    lemma_base64_char_value(b0 / 4);
    lemma_base64_char_value(b0 % 4 * 16 + b1 / 16);
    lemma_base64_char_value(b1 % 16 * 4 + b2 / 64);
    lemma_base64_char_value(b2 % 64);
    assert(group_byte_0(b0 / 4, b0 % 4 * 16 + b1 / 16) == s[0]);
    if s.len() > 1 {
        assert(group_byte_1(b0 % 4 * 16 + b1 / 16, b1 % 16 * 4 + b2 / 64) == s[1]);
    }
    if s.len() > 2 {
        assert(group_byte_2(b1 % 16 * 4 + b2 / 64, b2 % 64) == s[2]);
    }
    if s.len() == 1 {
        assert(s.take(1) =~= seq![s[0]]);
    } else if s.len() == 2 {
        assert(s.take(2) =~= seq![s[0], s[1]]);
    } else {
        assert(s.take(3) =~= seq![s[0], s[1], s[2]]);
    }
}

proof fn lemma_groups_back(b: Seq<u8>, i: nat, s: Seq<u8>)
    requires
        i <= b.len(),
        b.skip(i as int) == ascii_bytes(base64_encoded(s)),
    ensures
        base64_groups(b, i) == Ok::<Seq<u8>, Seq<char>>(s),
        (b.len() - i) % 4 == 0,
    decreases s.len(),
{
    let all = ascii_bytes(base64_encoded(s));
    assert(b.skip(i as int).len() == b.len() - i);
    if s.len() == 0 {
        assert(s =~= seq![]);
    } else {
        let q = base64_quad(s);
        assert forall|k: int| 0 <= k < 4 implies b[i + k] == #[trigger] q[k] as u8 by {
            assert(all[k] == q[k] as u8);
            assert(b.skip(i as int)[k] == b[i + k]);
        }
        lemma_group_back(b, i, s);
        if s.len() <= 3 {
            assert(s.take(s.len() as int) =~= s);
            if s.len() == 3 {
                assert(base64_groups(b, i + 4) == Ok::<Seq<u8>, Seq<char>>(seq![]));
                assert(s + Seq::<u8>::empty() =~= s);
            }
        } else {
            assert(b.skip(i as int + 4) =~= b.skip(i as int).skip(4));
            assert(all.skip(4) =~= ascii_bytes(base64_encoded(s.skip(3))));
            lemma_groups_back(b, i + 4, s.skip(3));
            assert(s.take(3) + s.skip(3) =~= s);
        }
    }
}

proof fn lemma_plain_step(b: Seq<u8>, i: int, x: u8)
    requires
        holds_at(b, i, plain_encoded_byte(x)),
    ensures
        unescape_bytes(b, i) == (match unescape_bytes(b, i + plain_encoded_byte(x).len()) {
            Ok(rest) => Ok::<Seq<u8>, DecodeError>(seq![x] + rest),
            Err(e) => Err(e),
        }),
{
    let t = plain_encoded_byte(x);
    assert(b[i + 0] == t[0] as u8);
    if t.len() > 1 {
        assert(b[i + 1] == t[1] as u8);
        if t[1] == 'x' {
            reveal_with_fuel(hex_run, 3);
            assert(b[i + 2] == t[2] as u8);
            assert(b[i + 3] == t[3] as u8);
            lemma_hex_char_value((x / 16) as nat, true);
            lemma_hex_char_value((x % 16) as nat, true);
            assert(hex_run(b, i, i + 2, 2, 0) == Ok::<nat, DecodeError>(x as nat));
        } else {
            lemma_named_scalar('\\');
        }
    }
}

proof fn lemma_plain_back(b: Seq<u8>, i: int, s: Seq<u8>)
    requires
        holds_at(b, i, plain_encoded(s)),
        i + plain_encoded(s).len() == b.len(),
    ensures
        unescape_bytes(b, i) == Ok::<Seq<u8>, DecodeError>(s),
    decreases s.len(),
{
    if s.len() == 0 {
        assert(s =~= seq![]);
    } else {
        let head = plain_encoded_byte(s[0]);
        let tail = plain_encoded(s.drop_first());
        let all = plain_encoded(s);
        assert forall|k: int| 0 <= k < head.len() implies b[i + k] == #[trigger] head[k] as u8 by {
            assert(all[k] == head[k]);
        }
        assert forall|k: int| 0 <= k < tail.len() implies b[i + head.len() + k]
            == #[trigger] tail[k] as u8 by {
            assert(all[head.len() + k] == tail[k]);
        }
        lemma_plain_step(b, i, s[0]);
        lemma_plain_back(b, i + head.len(), s.drop_first());
        assert(seq![s[0]] + s.drop_first() =~= s);
    }
}

/// Decoding what an encoder wrote, in the same format, gives the bytes back.
pub proof fn law_round_trip(format: DataFormat, data: Seq<u8>)
    ensures
        decoded(format, encoded(format, data)) == Ok::<Seq<u8>, Seq<char>>(data),
{
    let t = encoded(format, data);
    law_encoded_is_ascii(format, data);
    lemma_ascii_bytes(t);
    match format {
        DataFormat::Hex => {
            lemma_hex_stripped(data);
            let clean = without_dashes(encode_utf8(t));
            assert(clean.skip(0) =~= clean);
            lemma_hex_pairs_back(clean, 0, data);
        },
        DataFormat::Base64 => {
            lemma_base64_text(data);
            lemma_wrapped_stripped(base64_encoded(data));
            let clean = without_spaces(encode_utf8(t));
            assert(clean.skip(0) =~= clean);
            lemma_groups_back(clean, 0, data);
        },
        DataFormat::Encoded => {
            lemma_plain_back(encode_utf8(t), 0, data);
        },
    }
}

/// Decoding single-line base-64 gives the bytes back.
pub proof fn law_base64_round_trip(data: Seq<u8>)
    ensures
        decoded(DataFormat::Base64, base64_encoded(data)) == Ok::<Seq<u8>, Seq<char>>(data),
{
    let t = base64_encoded(data);
    lemma_base64_text(data);
    lemma_ascii_bytes(t);
    let p = |b: u8| !is_ascii_space(b);
    lemma_filter_all(ascii_bytes(t), p);
    let clean = without_spaces(encode_utf8(t));
    assert(clean.skip(0) =~= clean);
    lemma_groups_back(clean, 0, data);
}

/// Bytes as hexadecimal digits stand one behind the other with `-` between them, each as two
/// upper-case digits that stand for it.
pub proof fn law_hex_stands_in_pairs(a: Seq<u8>, b: Seq<u8>, x: u8)
    requires
        b.len() > 0,
    ensures
        hex_encoded(seq![x] + b) == hex_encoded(seq![x]) + seq!['-'] + hex_encoded(b),
        a.len() > 0 ==> hex_encoded(a + b) == hex_encoded(a) + seq!['-'] + hex_encoded(b),
        ({
            let s = hex_encoded(seq![x]);
            &&& s.len() == 2
            &&& hex_value(s[0] as u8) matches Some(h) && hex_value(s[1] as u8) matches Some(l) && h
                * 16 + l == x
            &&& !('a' <= s[0] <= 'f') && !('a' <= s[1] <= 'f')
        }),
        hex_encoded(seq![]).len() == 0,
    decreases a.len(),
{
    assert((seq![x] + b).drop_first() =~= b);
    if a.len() == 1 {
        assert((a + b).drop_first() =~= b);
    } else if a.len() > 1 {
        let rest = a.drop_first();
        law_hex_stands_in_pairs(rest, b, x);
        assert((a + b).drop_first() =~= rest + b);
        assert(hex_encoded(a + b) =~= hex_encoded(a) + seq!['-'] + hex_encoded(b));
    }
}

/// Dashes in hexadecimal digits do not count, nor does whitespace in base-64.
pub proof fn law_separators_do_not_count(a: Seq<u8>, x: u8, b: Seq<u8>)
    ensures
        hex_decoded(a + seq![0x2Du8] + b) == hex_decoded(a + b),
        x == 9 || x == 10 || x == 12 || x == 13 || x == 32 ==> base64_decoded(a + seq![x] + b)
            == base64_decoded(a + b),
{
    reveal_with_fuel(Seq::filter, 2);
    let no_dash = |c: u8| c != 0x2D;
    let no_space = |c: u8| !is_ascii_space(c);
    let dash = seq![0x2Du8];
    assert(dash.drop_last() =~= seq![]);
    assert(dash.filter(no_dash) =~= seq![]);
    Seq::filter_distributes_over_add(a + dash, b, no_dash);
    Seq::filter_distributes_over_add(a, dash, no_dash);
    Seq::filter_distributes_over_add(a, b, no_dash);
    assert((a + dash + b).filter(no_dash) =~= (a + b).filter(no_dash));
    if is_ascii_space(x) {
        let space = seq![x];
        assert(space.drop_last() =~= seq![]);
        assert(space.filter(no_space) =~= seq![]);
        Seq::filter_distributes_over_add(a + space, b, no_space);
        Seq::filter_distributes_over_add(a, space, no_space);
        Seq::filter_distributes_over_add(a, b, no_space);
        assert((a + space + b).filter(no_space) =~= (a + b).filter(no_space));
    }
}

/// The digits of base-64 are the letters, upper case before lower case, the decimal digits, `+`
/// and `/`, in this order; no other byte is one.
pub proof fn law_base64_digits(b: u8, v: nat)
    ensures
        base64_value('A' as u8) == Some(0nat),
        base64_value('Z' as u8) == Some(25nat),
        base64_value('a' as u8) == Some(26nat),
        base64_value('z' as u8) == Some(51nat),
        base64_value('0' as u8) == Some(52nat),
        base64_value('9' as u8) == Some(61nat),
        base64_value('+' as u8) == Some(62nat),
        base64_value('/' as u8) == Some(63nat),
        v < 64 ==> base64_value(base64_char(v) as u8) == Some(v),
        base64_value(b) matches Some(d) ==> d < 64 && base64_char(d) as u8 == b,
        v < 63 && v != 25 && v != 51 && v != 61 && v != 62 ==> base64_char(v + 1) as nat
            == base64_char(v) as nat + 1,
{
}

/// Base-64 is written in lines of 64 digits, each ended by CR LF; only the last may be shorter.
pub proof fn law_base64_is_written_in_lines(line: Seq<char>, rest: Seq<char>)
    requires
        0 < line.len() <= 64,
    ensures
        wrapped(line) == line + seq!['\r', '\n'],
        line.len() == 64 && rest.len() > 0 ==> wrapped(line + rest) == line + seq!['\r', '\n']
            + wrapped(rest),
        wrapped(seq![]).len() == 0,
{
    if line.len() == 64 && rest.len() > 0 {
        let s = line + rest;
        assert(s.take(64) =~= line);
        assert(s.skip(64) =~= rest);
    }
}

/// Three bytes make four digits, which together hold their bits in order; groups stand one
/// behind the other, and the last is padded.
pub proof fn law_base64_groups_hold_the_bits(x: u8, y: u8, z: u8, rest: Seq<u8>)
    requires
        rest.len() > 0,
    ensures
        base64_encoded(seq![x, y, z] + rest) == base64_encoded(seq![x, y, z]) + base64_encoded(rest),
        ({
            let s = base64_encoded(seq![x, y, z]);
            &&& s.len() == 4
            &&& base64_value(s[0] as u8)->0 * 262144 + base64_value(s[1] as u8)->0 * 4096
                + base64_value(s[2] as u8)->0 * 64 + base64_value(s[3] as u8)->0 == x as nat * 65536
                + y as nat * 256 + z as nat
        }),
        ({
            let s = base64_encoded(seq![x, y]);
            s.len() == 4 && s[3] == '=' && s[2] != '='
        }),
        ({
            let s = base64_encoded(seq![x]);
            s.len() == 4 && s[3] == '=' && s[2] == '=' && s[1] != '='
        }),
{
    assert((seq![x, y, z] + rest).skip(3) =~= rest);
    let (b0, b1, b2) = (x as nat, y as nat, z as nat);
    assert(b0 / 4 < 64 && b0 % 4 * 16 + b1 / 16 < 64 && b1 % 16 * 4 + b2 / 64 < 64 && b2 % 64 < 64);
    law_base64_digits(0, b0 / 4);
    law_base64_digits(0, b0 % 4 * 16 + b1 / 16);
    law_base64_digits(0, b1 % 16 * 4 + b2 / 64);
    law_base64_digits(0, b2 % 64);
    assert(base64_quad(seq![x, y, z] + rest) =~= base64_quad(seq![x, y, z]));
}

/// A byte in the escaped format is itself where it is printable, with the backslash doubled, and
/// otherwise given in two upper-case hexadecimal digits; bytes stand one behind the other.
pub proof fn law_plain_bytes_have_these_escapes(b: u8, rest: Seq<u8>)
    ensures
        plain_encoded(seq![b] + rest) == plain_encoded(seq![b]) + plain_encoded(rest),
        0x20 <= b <= 0x7E && b != 0x5C ==> plain_encoded(seq![b]) == seq![b as char],
        b == 0x5C ==> plain_encoded(seq![b]) == seq!['\\', '\\'],
        !(0x20 <= b <= 0x7E) ==> {
            let s = plain_encoded(seq![b]);
            &&& s.len() == 4
            &&& s[0] == '\\' && s[1] == 'x'
            &&& hex_value(s[2] as u8) matches Some(h) && hex_value(s[3] as u8) matches Some(l) && h
                * 16 + l == b
            &&& !('a' <= s[2] <= 'f') && !('a' <= s[3] <= 'f')
        },
{
    assert((seq![b] + rest).drop_first() =~= rest);
    let none = Seq::<u8>::empty();
    assert(plain_encoded(none) =~= seq![]);
    assert(seq![b].drop_first() =~= none);
    assert(plain_encoded(seq![b]) =~= plain_encoded_byte(b));
}

} // verus!
