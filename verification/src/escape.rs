//! Unicode escape codec: any text, or any byte string, as 7-bit printable
//! ASCII and back.
//!
//! | Sequence      | Meaning                                                  |
//! |---------------|----------------------------------------------------------|
//! | `\\`          | Literal backslash                                        |
//! | `\0`          | NUL                                                      |
//! | `\t`          | Horizontal tab                                           |
//! | `\n`          | Line feed                                                |
//! | `\r`          | Carriage return                                          |
//! | `\uXXXX`      | Scalar value, exactly 4 hex digits                       |
//! | `\UXXXXXXXX`  | Scalar value, exactly 8 hex digits                       |
//! | `\xHH`        | Single raw byte, exactly 2 hex digits (byte codec only)  |
//!
//! Printable ASCII other than the backslash stands for itself.

use vstd::prelude::*;
use vstd::string::*;
use vstd::utf8::*;

use crate::num::{
    dec, hex_char, hex_digit_char, hex_fixed, hex_value, hex_value_of,
    law_hex_digits_stand_for_their_number, number, push_dec, push_hex, NumError,
};
use crate::text::{char_debug, format_char_debug};

verus! {

/// Errors that can occur while decoding an escape sequence.
#[derive(Debug, PartialEq, Eq, Clone, Copy)]
pub enum DecodeError {
    /// The input ended while an escape sequence was being parsed.
    UnexpectedEnd {
        /// Byte offset of the `\` that started the incomplete sequence.
        at: usize,
    },
    /// An unrecognised character followed a backslash.
    UnknownEscape {
        /// Byte offset of the `\`.
        at: usize,
        /// The character that followed `\`.
        ch: char,
    },
    /// A non-hex character appeared inside a run of hex digits.
    InvalidHex {
        /// Byte offset of the `\` that started the sequence.
        at: usize,
        /// The offending character.
        ch: char,
    },
    /// The hex digits name a surrogate or a value above U+10FFFF.
    InvalidScalar {
        /// Byte offset of the `\` that started the sequence.
        at: usize,
        /// The value that is not a Unicode scalar value.
        value: u32,
    },
}

impl DecodeError {
    /// The message shown for this error.
    pub open spec fn message_spec(self) -> Seq<char> {
        match self {
            DecodeError::UnexpectedEnd { at } => "escape sequence truncated at offset "@ + dec(
                at as nat,
            ),
            DecodeError::UnknownEscape { at, ch } => "unknown escape '\\"@.push(ch)
                + "' at offset "@ + dec(at as nat),
            DecodeError::InvalidHex { at, ch } => "non-hex digit "@ + char_debug(ch)
                + " in escape sequence at offset "@ + dec(at as nat),
            DecodeError::InvalidScalar { at, value } => "U+"@ + hex_fixed(value as nat, 8, true)
                + " is not a valid Unicode scalar value (offset "@ + dec(at as nat) + ")"@,
        }
    }

    /// The message shown for this error.
    pub fn message(&self) -> (r: String)
        ensures
            r@ == self.message_spec(),
    {
        match self {
            DecodeError::UnexpectedEnd { at } => {
                let mut m = "escape sequence truncated at offset ".to_owned();
                push_dec(&mut m, *at as u64);
                m
            },
            DecodeError::UnknownEscape { at, ch } => {
                let mut m = "unknown escape '\\".to_owned();
                m.push(*ch);
                m.push_str("' at offset ");
                push_dec(&mut m, *at as u64);
                m
            },
            DecodeError::InvalidHex { at, ch } => {
                let mut m = "non-hex digit ".to_owned();
                let shown = format_char_debug(*ch);
                m.push_str(shown.as_str());
                m.push_str(" in escape sequence at offset ");
                push_dec(&mut m, *at as u64);
                m
            },
            DecodeError::InvalidScalar { at, value } => {
                let mut m = "U+".to_owned();
                push_hex(&mut m, *value, 8, true);
                m.push_str(" is not a valid Unicode scalar value (offset ");
                push_dec(&mut m, *at as u64);
                m.push_str(")");
                m
            },
        }
    }
}

// ── Encoding ────────────────────────────────────────────────────────────────

/// The escaped form of one character.
pub open spec fn escape_char(c: char) -> Seq<char> {
    if c == '\\' {
        seq!['\\', '\\']
    } else if c == '\0' {
        seq!['\\', '0']
    } else if c == '\t' {
        seq!['\\', 't']
    } else if c == '\n' {
        seq!['\\', 'n']
    } else if c == '\r' {
        seq!['\\', 'r']
    } else if ' ' <= c <= '~' {
        seq![c]
    } else if c as u32 <= 0xFFFF {
        seq!['\\', 'u'] + hex_fixed(c as nat, 4, true)
    } else {
        seq!['\\', 'U'] + hex_fixed(c as nat, 8, true)
    }
}

/// The escaped form of a text: the escaped forms of its characters in order.
pub open spec fn escape_text(s: Seq<char>) -> Seq<char>
    decreases s.len(),
{
    if s.len() == 0 {
        seq![]
    } else {
        escape_char(s[0]) + escape_text(s.drop_first())
    }
}

/// Encode a text as 7-bit printable ASCII.
pub fn encode(s: &str) -> (r: String)
    ensures
        r@ == escape_text(s@),
{
    let mut out = String::new();
    proof {
        assert(s@.skip(0) =~= s@);
    }
    for c in it: s.chars()
        invariant
            it.seq() == s@,
            out@ + escape_text(s@.skip(it.index())) =~= escape_text(s@),
    {
        proof {
            let rest = s@.skip(it.index());
            assert(rest[0] == c);
            assert(rest.drop_first() =~= s@.skip(it.index() + 1));
        }
        let ghost before = out@;
        push_escape_char(&mut out, c);
        proof {
            assert(out@ =~= before + escape_char(c));
        }
    }
    out
}

fn push_escape_char(out: &mut String, c: char)
    ensures
        final(out)@ =~= old(out)@ + escape_char(c),
{
    if c == '\\' {
        out.push('\\');
        out.push('\\');
    } else if c == '\0' {
        out.push('\\');
        out.push('0');
    } else if c == '\t' {
        out.push('\\');
        out.push('t');
    } else if c == '\n' {
        out.push('\\');
        out.push('n');
    } else if c == '\r' {
        out.push('\\');
        out.push('r');
    } else if ' ' <= c && c <= '~' {
        out.push(c);
    } else if c as u32 <= 0xFFFF {
        out.push('\\');
        out.push('u');
        push_hex(out, c as u32, 4, true);
    } else {
        out.push('\\');
        out.push('U');
        push_hex(out, c as u32, 8, true);
    }
}

/// The escaped form of one byte.
pub open spec fn escape_byte(b: u8) -> Seq<char> {
    if b == 0x5C {
        seq!['\\', '\\']
    } else if b == 0 {
        seq!['\\', '0']
    } else if b == 9 {
        seq!['\\', 't']
    } else if b == 10 {
        seq!['\\', 'n']
    } else if b == 13 {
        seq!['\\', 'r']
    } else if 0x20 <= b <= 0x7E {
        seq![b as char]
    } else {
        seq!['\\', 'x', hex_char((b / 16) as nat, false), hex_char((b % 16) as nat, false)]
    }
}

/// The escaped form of a byte string: the escaped forms of its bytes in order.
pub open spec fn escape_bytes(s: Seq<u8>) -> Seq<char>
    decreases s.len(),
{
    if s.len() == 0 {
        seq![]
    } else {
        escape_byte(s[0]) + escape_bytes(s.drop_first())
    }
}

/// Encode a byte string as 7-bit printable ASCII.
pub fn encode_bytes(bytes: &[u8]) -> (r: String)
    ensures
        r@ == escape_bytes(bytes@),
{
    let mut out = String::new();
    let mut i: usize = 0;
    proof {
        assert(bytes@.skip(0) =~= bytes@);
    }
    while i < bytes.len()
        invariant
            i <= bytes@.len(),
            out@ + escape_bytes(bytes@.skip(i as int)) =~= escape_bytes(bytes@),
        decreases bytes@.len() - i,
    {
        let b: u8 = bytes[i];
        proof {
            let rest = bytes@.skip(i as int);
            assert(rest[0] == b);
            assert(rest.drop_first() =~= bytes@.skip(i + 1));
        }
        let ghost before = out@;
        if b == 0x5C {
            out.push('\\');
            out.push('\\');
        } else if b == 0 {
            out.push('\\');
            out.push('0');
        } else if b == 9 {
            out.push('\\');
            out.push('t');
        } else if b == 10 {
            out.push('\\');
            out.push('n');
        } else if b == 13 {
            out.push('\\');
            out.push('r');
        } else if 0x20 <= b && b <= 0x7E {
            out.push(b as char);
        } else {
            out.push('\\');
            out.push('x');
            out.push(hex_digit_char(b / 16, false));
            out.push(hex_digit_char(b % 16, false));
        }
        proof {
            assert(out@ =~= before + escape_byte(b));
        }
        i = i + 1;
    }
    out
}

// ── Decoding ────────────────────────────────────────────────────────────────

/// The value of `count` hex digits at `pos`, read after `acc`, or the error of
/// the first byte that is missing or no hex digit. `at` is the offset of the
/// backslash that the digits belong to.
pub open spec fn hex_run(b: Seq<u8>, at: int, pos: int, count: nat, acc: nat) -> Result<
    nat,
    DecodeError,
>
    decreases count,
{
    if count == 0 {
        Ok(acc)
    } else if pos >= b.len() {
        Err(DecodeError::UnexpectedEnd { at: at as usize })
    } else {
        match hex_value(b[pos]) {
            Some(d) => hex_run(b, at, pos + 1, (count - 1) as nat, acc * 16 + d),
            None => Err(DecodeError::InvalidHex { at: at as usize, ch: b[pos] as char }),
        }
    }
}

/// The scalar value that `count` hex digits at `pos` name.
pub open spec fn scalar_run(b: Seq<u8>, at: int, pos: int, count: nat) -> Result<
    char,
    DecodeError,
> {
    match hex_run(b, at, pos, count, 0) {
        Ok(v) => if is_scalar(v as u32) {
            Ok(v as char)
        } else {
            Err(DecodeError::InvalidScalar { at: at as usize, value: v as u32 })
        },
        Err(e) => Err(e),
    }
}

/// The character that a one-letter escape stands for.
pub open spec fn named_escape(b: u8) -> Option<char> {
    if b == '\\' as u8 {
        Some('\\')
    } else if b == '0' as u8 {
        Some('\0')
    } else if b == 't' as u8 {
        Some('\t')
    } else if b == 'n' as u8 {
        Some('\n')
    } else if b == 'r' as u8 {
        Some('\r')
    } else {
        None
    }
}

/// The character that the escape sequence at `at` stands for, and the offset
/// behind it. `b[at]` is the backslash.
pub open spec fn text_escape_at(b: Seq<u8>, at: int) -> Result<(char, int), DecodeError> {
    if at + 1 >= b.len() {
        Err(DecodeError::UnexpectedEnd { at: at as usize })
    } else if named_escape(b[at + 1]) is Some {
        Ok((named_escape(b[at + 1])->0, at + 2))
    } else if b[at + 1] == 'u' as u8 {
        match scalar_run(b, at, at + 2, 4) {
            Ok(c) => Ok((c, at + 6)),
            Err(e) => Err(e),
        }
    } else if b[at + 1] == 'U' as u8 {
        match scalar_run(b, at, at + 2, 8) {
            Ok(c) => Ok((c, at + 10)),
            Err(e) => Err(e),
        }
    } else {
        Err(DecodeError::UnknownEscape { at: at as usize, ch: b[at + 1] as char })
    }
}

/// The text that the escaped bytes from offset `i` on stand for, or the error
/// of the first invalid escape sequence.
pub open spec fn unescape_text(b: Seq<u8>, i: int) -> Result<Seq<char>, DecodeError>
    decreases b.len() - i,
{
    if i >= b.len() || i < 0 {
        Ok(seq![])
    } else if b[i] != '\\' as u8 {
        match unescape_text(b, i + 1) {
            Ok(rest) => Ok(seq![b[i] as char] + rest),
            Err(e) => Err(e),
        }
    } else {
        match text_escape_at(b, i) {
            Ok((c, next)) => if i < next <= b.len() {
                match unescape_text(b, next) {
                    Ok(rest) => Ok(seq![c] + rest),
                    Err(e) => Err(e),
                }
            } else {
                Ok(seq![])
            },
            Err(e) => Err(e),
        }
    }
}

/// The bytes that the escape sequence at `at` stands for, and the offset
/// behind it. `b[at]` is the backslash.
pub open spec fn byte_escape_at(b: Seq<u8>, at: int) -> Result<(Seq<u8>, int), DecodeError> {
    if at + 1 < b.len() && b[at + 1] == 'x' as u8 {
        match hex_run(b, at, at + 2, 2, 0) {
            Ok(v) => Ok((seq![v as u8], at + 4)),
            Err(e) => Err(e),
        }
    } else {
        match text_escape_at(b, at) {
            Ok((c, next)) => Ok((encode_scalar(c as u32), next)),
            Err(e) => Err(e),
        }
    }
}

/// The bytes that the escaped bytes from offset `i` on stand for, or the error
/// of the first invalid escape sequence.
pub open spec fn unescape_bytes(b: Seq<u8>, i: int) -> Result<Seq<u8>, DecodeError>
    decreases b.len() - i,
{
    if i >= b.len() || i < 0 {
        Ok(seq![])
    } else if b[i] != '\\' as u8 {
        match unescape_bytes(b, i + 1) {
            Ok(rest) => Ok(seq![b[i]] + rest),
            Err(e) => Err(e),
        }
    } else {
        match byte_escape_at(b, i) {
            Ok((c, next)) => if i < next <= b.len() {
                match unescape_bytes(b, next) {
                    Ok(rest) => Ok(c + rest),
                    Err(e) => Err(e),
                }
            } else {
                Ok(seq![])
            },
            Err(e) => Err(e),
        }
    }
}

/// The largest value of `n` hex digits.
spec fn hex_max(n: nat) -> nat
    decreases n,
{
    if n == 0 {
        0
    } else {
        hex_max((n - 1) as nat) * 16 + 15
    }
}

proof fn lemma_hex_max(n: nat)
    requires
        n <= 7,
    ensures
        hex_max(n) <= 0xFFF_FFFF,
{
    reveal_with_fuel(hex_max, 8);
}

/// Reads exactly `count` hex digits at `pos`.
fn decode_hex_digits(bytes: &[u8], backslash_at: usize, pos: usize, count: usize) -> (r: Result<
    u32,
    DecodeError,
>)
    requires
        count <= 8,
        pos <= bytes@.len(),
    ensures
        match r {
            Ok(v) => hex_run(bytes@, backslash_at as int, pos as int, count as nat, 0) == Ok::<
                nat,
                DecodeError,
            >(v as nat) && pos + count <= bytes@.len(),
            Err(e) => hex_run(bytes@, backslash_at as int, pos as int, count as nat, 0) == Err::<
                nat,
                DecodeError,
            >(e),
        },
{
    let mut value: u32 = 0;
    let mut k: usize = 0;
    let len: usize = bytes.len();
    while k < count
        invariant
            k <= count <= 8,
            len == bytes@.len(),
            pos + k <= bytes@.len(),
            value as nat <= hex_max(k as nat),
            hex_run(
                bytes@,
                backslash_at as int,
                pos + k,
                (count - k) as nat,
                value as nat,
            ) == hex_run(bytes@, backslash_at as int, pos as int, count as nat, 0),
        decreases count - k,
    {
        if pos + k >= len {
            return Err(DecodeError::UnexpectedEnd { at: backslash_at });
        }
        let b: u8 = bytes[pos + k];
        match hex_value_of(b) {
            Some(d) => {
                proof {
                    lemma_hex_max(k as nat);
                }
                value = value * 16 + d as u32;
            },
            None => {
                return Err(DecodeError::InvalidHex { at: backslash_at, ch: b as char });
            },
        }
        k = k + 1;
    }
    Ok(value)
}

/// Reads the scalar value that `count` hex digits at `pos` name.
fn decode_scalar(bytes: &[u8], backslash_at: usize, pos: usize, count: usize) -> (r: Result<
    char,
    DecodeError,
>)
    requires
        count <= 8,
        pos <= bytes@.len(),
    ensures
        r == scalar_run(bytes@, backslash_at as int, pos as int, count as nat),
        r is Ok ==> pos + count <= bytes@.len(),
{
    match decode_hex_digits(bytes, backslash_at, pos, count) {
        Ok(value) => match char::from_u32(value) {
            Some(c) => Ok(c),
            None => Err(DecodeError::InvalidScalar { at: backslash_at, value }),
        },
        Err(e) => Err(e),
    }
}

/// Reads the escape sequence whose backslash stands at `at`.
fn decode_text_escape(bytes: &[u8], at: usize) -> (r: Result<(char, usize), DecodeError>)
    requires
        at < bytes@.len(),
    ensures
        match r {
            Ok((c, next)) => text_escape_at(bytes@, at as int) == Ok::<(char, int), DecodeError>(
                (c, next as int),
            ) && at < next <= bytes@.len(),
            Err(e) => text_escape_at(bytes@, at as int) == Err::<(char, int), DecodeError>(e),
        },
{
    let len: usize = bytes.len();
    if at + 1 >= len {
        return Err(DecodeError::UnexpectedEnd { at });
    }
    let b: u8 = bytes[at + 1];
    if b == '\\' as u8 {
        Ok(('\\', at + 2))
    } else if b == '0' as u8 {
        Ok(('\0', at + 2))
    } else if b == 't' as u8 {
        Ok(('\t', at + 2))
    } else if b == 'n' as u8 {
        Ok(('\n', at + 2))
    } else if b == 'r' as u8 {
        Ok(('\r', at + 2))
    } else if b == 'u' as u8 {
        match decode_scalar(bytes, at, at + 2, 4) {
            Ok(c) => Ok((c, at + 6)),
            Err(e) => Err(e),
        }
    } else if b == 'U' as u8 {
        match decode_scalar(bytes, at, at + 2, 8) {
            Ok(c) => Ok((c, at + 10)),
            Err(e) => Err(e),
        }
    } else {
        Err(DecodeError::UnknownEscape { at, ch: b as char })
    }
}

/// Decode escaped text. Bytes outside escape sequences stand for the
/// characters of the same value.
pub fn decode(s: &str) -> (r: Result<String, DecodeError>)
    ensures
        match r {
            Ok(t) => unescape_text(encode_utf8(s@), 0) == Ok::<Seq<char>, DecodeError>(t@),
            Err(e) => unescape_text(encode_utf8(s@), 0) == Err::<Seq<char>, DecodeError>(e),
        },
{
    let mut out = String::new();
    let bytes = s.as_bytes();
    let mut i: usize = 0;
    while i < bytes.len()
        invariant
            bytes@ == encode_utf8(s@),
            i <= bytes@.len(),
            match unescape_text(bytes@, i as int) {
                Ok(rest) => unescape_text(bytes@, 0) == Ok::<Seq<char>, DecodeError>(out@ + rest),
                Err(e) => unescape_text(bytes@, 0) == Err::<Seq<char>, DecodeError>(e),
            },
        decreases bytes@.len() - i,
    {
        let ghost before = out@;
        if bytes[i] != '\\' as u8 {
            out.push(bytes[i] as char);
            proof {
                if let Ok(rest) = unescape_text(bytes@, i + 1) {
                    assert(before + (seq![bytes@[i as int] as char] + rest) =~= out@ + rest);
                }
            }
            i = i + 1;
        } else {
            match decode_text_escape(bytes, i) {
                Ok((c, next)) => {
                    out.push(c);
                    proof {
                        if let Ok(rest) = unescape_text(bytes@, next as int) {
                            assert(before + (seq![c] + rest) =~= out@ + rest);
                        }
                    }
                    i = next;
                },
                Err(e) => {
                    return Err(e);
                },
            }
        }
    }
    proof {
        assert(out@ + Seq::<char>::empty() =~= out@);
    }
    Ok(out)
}

/// Appends the UTF-8 bytes of a character.
pub(crate) fn push_utf8(out: &mut Vec<u8>, c: char)
    ensures
        final(out)@ =~= old(out)@ + encode_scalar(c as u32),
{
    let mut s = String::new();
    s.push(c);
    proof {
        reveal_with_fuel(encode_utf8, 2);
        assert(s@.drop_first() =~= Seq::<char>::empty());
        assert(encode_utf8(s@) =~= encode_scalar(c as u32));
    }
    out.extend_from_slice(s.as_str().as_bytes());
}

/// Decode an escaped byte string.
pub fn decode_bytes(s: &str) -> (r: Result<Vec<u8>, DecodeError>)
    ensures
        match r {
            Ok(t) => unescape_bytes(encode_utf8(s@), 0) == Ok::<Seq<u8>, DecodeError>(t@),
            Err(e) => unescape_bytes(encode_utf8(s@), 0) == Err::<Seq<u8>, DecodeError>(e),
        },
{
    let mut out: Vec<u8> = Vec::new();
    let bytes = s.as_bytes();
    let mut i: usize = 0;
    while i < bytes.len()
        invariant
            bytes@ == encode_utf8(s@),
            i <= bytes@.len(),
            match unescape_bytes(bytes@, i as int) {
                Ok(rest) => unescape_bytes(bytes@, 0) == Ok::<Seq<u8>, DecodeError>(out@ + rest),
                Err(e) => unescape_bytes(bytes@, 0) == Err::<Seq<u8>, DecodeError>(e),
            },
        decreases bytes@.len() - i,
    {
        let ghost before = out@;
        if bytes[i] != '\\' as u8 {
            out.push(bytes[i]);
            proof {
                if let Ok(rest) = unescape_bytes(bytes@, i + 1) {
                    assert(before + (seq![bytes@[i as int]] + rest) =~= out@ + rest);
                }
            }
            i = i + 1;
        } else if i + 1 < bytes.len() && bytes[i + 1] == 'x' as u8 {
            match decode_hex_digits(bytes, i, i + 2, 2) {
                Ok(value) => {
                    out.push(value as u8);
                    proof {
                        if let Ok(rest) = unescape_bytes(bytes@, i + 4) {
                            assert(before + (seq![value as u8] + rest) =~= out@ + rest);
                        }
                    }
                    i = i + 4;
                },
                Err(e) => {
                    return Err(e);
                },
            }
        } else {
            match decode_text_escape(bytes, i) {
                Ok((c, next)) => {
                    push_utf8(&mut out, c);
                    proof {
                        if let Ok(rest) = unescape_bytes(bytes@, next as int) {
                            assert(before + (encode_scalar(c as u32) + rest) =~= out@ + rest);
                        }
                    }
                    i = next;
                },
                Err(e) => {
                    return Err(e);
                },
            }
        }
    }
    proof {
        assert(out@ + Seq::<u8>::empty() =~= out@);
    }
    Ok(out)
}

// ── Laws ────────────────────────────────────────────────────────────────────

/// Printable ASCII.
pub open spec fn is_printable(c: char) -> bool {
    ' ' <= c <= '~'
}

/// Every character of a text is printable ASCII.
pub open spec fn all_printable(s: Seq<char>) -> bool {
    forall|i: int| 0 <= i < s.len() ==> is_printable(#[trigger] s[i])
}

proof fn lemma_hex_fixed(n: nat, width: nat, upper: bool)
    ensures
        hex_fixed(n, width, upper).len() == width,
        all_printable(hex_fixed(n, width, upper)),
    decreases width,
{
    if width > 0 {
        lemma_hex_fixed(n / 16, (width - 1) as nat, upper);
    }
}

pub proof fn lemma_hex_char_value(d: nat, upper: bool)
    requires
        d < 16,
    ensures
        hex_value(hex_char(d, upper) as u8) == Some(d),
{
}

proof fn lemma_escape_char_shape(c: char)
    ensures
        escape_char(c).len() > 0,
        all_printable(escape_char(c)),
{
    lemma_hex_fixed(c as nat, 4, true);
    lemma_hex_fixed(c as nat, 8, true);
}

/// The escaped form of a text holds printable ASCII only.
pub proof fn law_escape_text_is_printable(s: Seq<char>)
    ensures
        all_printable(escape_text(s)),
    decreases s.len(),
{
    if s.len() > 0 {
        lemma_escape_char_shape(s[0]);
        law_escape_text_is_printable(s.drop_first());
    }
}

/// The escaped form of a byte string holds printable ASCII only.
pub proof fn law_escape_bytes_is_printable(s: Seq<u8>)
    ensures
        all_printable(escape_bytes(s)),
    decreases s.len(),
{
    if s.len() > 0 {
        law_escape_bytes_is_printable(s.drop_first());
    }
}

/// The bytes of printable ASCII text are its characters.
pub proof fn lemma_printable_bytes(s: Seq<char>)
    requires
        all_printable(s),
    ensures
        encode_utf8(s) =~= Seq::new(s.len(), |i: int| s[i] as u8),
{
    assert(is_ascii_chars(s)) by {
        assert forall|i: int| 0 <= i < s.len() implies '\0' <= #[trigger] s[i] <= '\u{7f}' by {
            assert(is_printable(s[i]));
        }
    }
    is_ascii_chars_encode_utf8(s);
}

/// `b` holds the characters of `t` from offset `i` on.
pub open spec fn holds_at(b: Seq<u8>, i: int, t: Seq<char>) -> bool {
    &&& 0 <= i
    &&& i + t.len() <= b.len()
    &&& forall|k: int| 0 <= k < t.len() ==> b[i + k] == #[trigger] t[k] as u8
}

proof fn lemma_hex_run_4(b: Seq<u8>, at: int, pos: int, n: nat)
    requires
        n <= 0xFFFF,
        holds_at(b, pos, hex_fixed(n, 4, true)),
    ensures
        hex_run(b, at, pos, 4, 0) == Ok::<nat, DecodeError>(n),
{
    reveal_with_fuel(hex_fixed, 5);
    reveal_with_fuel(hex_run, 5);
    let t = hex_fixed(n, 4, true);
    assert(t[3] == hex_char(n % 16, true));
    assert(t[2] == hex_char(n / 16 % 16, true));
    assert(t[1] == hex_char(n / 16 / 16 % 16, true));
    assert(t[0] == hex_char(n / 16 / 16 / 16 % 16, true));
    lemma_hex_char_value(n % 16, true);
    lemma_hex_char_value(n / 16 % 16, true);
    lemma_hex_char_value(n / 16 / 16 % 16, true);
    lemma_hex_char_value(n / 16 / 16 / 16 % 16, true);
    assert(b[pos + 0] == t[0] as u8);
}

proof fn lemma_hex_run_8(b: Seq<u8>, at: int, pos: int, n: nat)
    requires
        n <= 0x10FFFF,
        holds_at(b, pos, hex_fixed(n, 8, true)),
    ensures
        hex_run(b, at, pos, 8, 0) == Ok::<nat, DecodeError>(n),
{
    reveal_with_fuel(hex_fixed, 9);
    reveal_with_fuel(hex_run, 9);
    let t = hex_fixed(n, 8, true);
    let n1 = n / 16;
    let n2 = n1 / 16;
    let n3 = n2 / 16;
    let n4 = n3 / 16;
    let n5 = n4 / 16;
    let n6 = n5 / 16;
    let n7 = n6 / 16;
    assert(t[7] == hex_char(n % 16, true));
    assert(t[6] == hex_char(n1 % 16, true));
    assert(t[5] == hex_char(n2 % 16, true));
    assert(t[4] == hex_char(n3 % 16, true));
    assert(t[3] == hex_char(n4 % 16, true));
    assert(t[2] == hex_char(n5 % 16, true));
    assert(t[1] == hex_char(n6 % 16, true));
    assert(t[0] == hex_char(n7 % 16, true));
    lemma_hex_char_value(n % 16, true);
    lemma_hex_char_value(n1 % 16, true);
    lemma_hex_char_value(n2 % 16, true);
    lemma_hex_char_value(n3 % 16, true);
    lemma_hex_char_value(n4 % 16, true);
    lemma_hex_char_value(n5 % 16, true);
    lemma_hex_char_value(n6 % 16, true);
    lemma_hex_char_value(n7 % 16, true);
    assert(b[pos + 0] == t[0] as u8);
}

proof fn lemma_unescape_step(b: Seq<u8>, i: int, c: char)
    requires
        holds_at(b, i, escape_char(c)),
    ensures
        unescape_text(b, i) == (match unescape_text(b, i + escape_char(c).len()) {
            Ok(rest) => Ok::<Seq<char>, DecodeError>(seq![c] + rest),
            Err(e) => Err(e),
        }),
{
    let t = escape_char(c);
    assert(b[i + 0] == t[0] as u8);
    if t.len() == 1 {
    } else {
        assert(b[i + 1] == t[1] as u8);
        lemma_hex_fixed(c as nat, 4, true);
        lemma_hex_fixed(c as nat, 8, true);
        if t[1] == 'u' {
            let h = hex_fixed(c as nat, 4, true);
            assert forall|k: int| 0 <= k < h.len() implies b[i + 2 + k] == #[trigger] h[k] as u8 by {
                assert(t[2 + k] == h[k]);
            }
            lemma_hex_run_4(b, i, i + 2, c as nat);
        } else if t[1] == 'U' {
            let h = hex_fixed(c as nat, 8, true);
            assert forall|k: int| 0 <= k < h.len() implies b[i + 2 + k] == #[trigger] h[k] as u8 by {
                assert(t[2 + k] == h[k]);
            }
            lemma_hex_run_8(b, i, i + 2, c as nat);
        }
    }
}

proof fn lemma_unescape_from(b: Seq<u8>, i: int, s: Seq<char>)
    requires
        holds_at(b, i, escape_text(s)),
        i + escape_text(s).len() == b.len(),
    ensures
        unescape_text(b, i) == Ok::<Seq<char>, DecodeError>(s),
    decreases s.len(),
{
    if s.len() == 0 {
        assert(s =~= seq![]);
    } else {
        let head = escape_char(s[0]);
        let tail = escape_text(s.drop_first());
        let all = escape_text(s);
        assert forall|k: int| 0 <= k < head.len() implies b[i + k] == #[trigger] head[k] as u8 by {
            assert(all[k] == head[k]);
        }
        assert forall|k: int| 0 <= k < tail.len() implies b[i + head.len() + k]
            == #[trigger] tail[k] as u8 by {
            assert(all[head.len() + k] == tail[k]);
        }
        lemma_unescape_step(b, i, s[0]);
        lemma_unescape_from(b, i + head.len(), s.drop_first());
        assert(seq![s[0]] + s.drop_first() =~= s);
    }
}

/// Decoding the escaped form of a text gives the text back.
pub proof fn law_text_round_trip(s: Seq<char>)
    ensures
        unescape_text(encode_utf8(escape_text(s)), 0) == Ok::<Seq<char>, DecodeError>(s),
{
    law_escape_text_is_printable(s);
    lemma_printable_bytes(escape_text(s));
    lemma_unescape_from(encode_utf8(escape_text(s)), 0, s);
}

pub proof fn lemma_named_scalar(c: char)
    requires
        c as u32 <= 0x7F,
    ensures
        encode_scalar(c as u32) =~= seq![c as u8],
{
    let v = c as u32;
    assert(leading_byte_width_1(v) == v as u8) by (bit_vector)
        requires
            v <= 0x7F,
    ;
}

proof fn lemma_unescape_byte_step(b: Seq<u8>, i: int, x: u8)
    requires
        holds_at(b, i, escape_byte(x)),
    ensures
        unescape_bytes(b, i) == (match unescape_bytes(b, i + escape_byte(x).len()) {
            Ok(rest) => Ok::<Seq<u8>, DecodeError>(seq![x] + rest),
            Err(e) => Err(e),
        }),
{
    let t = escape_byte(x);
    assert(b[i + 0] == t[0] as u8);
    if t.len() == 1 {
    } else {
        assert(b[i + 1] == t[1] as u8);
        if t[1] == 'x' {
            reveal_with_fuel(hex_run, 3);
            assert(b[i + 2] == t[2] as u8);
            assert(b[i + 3] == t[3] as u8);
            lemma_hex_char_value((x / 16) as nat, false);
            lemma_hex_char_value((x % 16) as nat, false);
            assert(hex_run(b, i, i + 2, 2, 0) == Ok::<nat, DecodeError>(x as nat));
        } else {
            lemma_named_scalar('\\');
            lemma_named_scalar('\0');
            lemma_named_scalar('\t');
            lemma_named_scalar('\n');
            lemma_named_scalar('\r');
        }
    }
}

proof fn lemma_unescape_bytes_from(b: Seq<u8>, i: int, s: Seq<u8>)
    requires
        holds_at(b, i, escape_bytes(s)),
        i + escape_bytes(s).len() == b.len(),
    ensures
        unescape_bytes(b, i) == Ok::<Seq<u8>, DecodeError>(s),
    decreases s.len(),
{
    if s.len() == 0 {
        assert(s =~= seq![]);
    } else {
        let head = escape_byte(s[0]);
        let tail = escape_bytes(s.drop_first());
        let all = escape_bytes(s);
        assert forall|k: int| 0 <= k < head.len() implies b[i + k] == #[trigger] head[k] as u8 by {
            assert(all[k] == head[k]);
        }
        assert forall|k: int| 0 <= k < tail.len() implies b[i + head.len() + k]
            == #[trigger] tail[k] as u8 by {
            assert(all[head.len() + k] == tail[k]);
        }
        lemma_unescape_byte_step(b, i, s[0]);
        lemma_unescape_bytes_from(b, i + head.len(), s.drop_first());
        assert(seq![s[0]] + s.drop_first() =~= s);
    }
}

/// The byte codec extends the text codec: where ASCII input decodes as text, it
/// decodes as bytes too, to the UTF-8 form of that text.
pub proof fn law_byte_codec_extends_text_codec(b: Seq<u8>, i: int)
    requires
        forall|k: int| 0 <= k < b.len() ==> #[trigger] b[k] < 128,
        unescape_text(b, i) is Ok,
    ensures
        unescape_bytes(b, i) == Ok::<Seq<u8>, DecodeError>(
            encode_utf8(unescape_text(b, i)->Ok_0),
        ),
    decreases b.len() - i,
{
    if i >= b.len() || i < 0 {
    } else if b[i] != '\\' as u8 {
        law_byte_codec_extends_text_codec(b, i + 1);
        let rest = unescape_text(b, i + 1)->Ok_0;
        let whole = seq![b[i] as char] + rest;
        assert(whole.drop_first() =~= rest);
        lemma_named_scalar(b[i] as char);
    } else {
        let (c, next) = text_escape_at(b, i)->Ok_0;
        if i < next <= b.len() {
            law_byte_codec_extends_text_codec(b, next);
            let rest = unescape_text(b, next)->Ok_0;
            let whole = seq![c] + rest;
            assert(whole.drop_first() =~= rest);
        }
    }
}

/// Decoding the escaped form of a byte string gives the byte string back.
pub proof fn law_bytes_round_trip(s: Seq<u8>)
    ensures
        unescape_bytes(encode_utf8(escape_bytes(s)), 0) == Ok::<Seq<u8>, DecodeError>(s),
{
    law_escape_bytes_is_printable(s);
    lemma_printable_bytes(escape_bytes(s));
    lemma_unescape_bytes_from(encode_utf8(escape_bytes(s)), 0, s);
}

/// Each character has its own escaped form: printable ASCII but the backslash stands for
/// itself, a few have a letter, and the others are given by their code in upper-case
/// hexadecimal digits, four of them where these are enough and eight otherwise.
pub proof fn law_characters_have_these_escapes(c: char)
    ensures
        escape_char('\n') == seq!['\\', 'n'],
        escape_char('\r') == seq!['\\', 'r'],
        escape_char('\t') == seq!['\\', 't'],
        escape_char('\0') == seq!['\\', '0'],
        escape_char('\\') == seq!['\\', '\\'],
        ' ' <= c <= '~' && c != '\\' ==> escape_char(c) == seq![c],
        (c < ' ' && c != '\n' && c != '\r' && c != '\t' && c != '\0') || '~' < c <= '\u{FFFF}' ==> {
            &&& escape_char(c) == seq!['\\', 'u'] + hex_fixed(c as nat, 4, true)
            &&& number(hex_fixed(c as nat, 4, true), true, u32::MAX as nat) == Ok::<nat, NumError>(
                c as nat,
            )
        },
        c > '\u{FFFF}' ==> {
            &&& escape_char(c) == seq!['\\', 'U'] + hex_fixed(c as nat, 8, true)
            &&& number(hex_fixed(c as nat, 8, true), true, u32::MAX as nat) == Ok::<nat, NumError>(
                c as nat,
            )
        },
{
    vstd::arithmetic::power::lemma_pow0(16);
    assert(vstd::arithmetic::power::pow(16, 4) == 0x10000 && vstd::arithmetic::power::pow(16, 8)
        == 0x100000000) by {
        reveal_with_fuel(vstd::arithmetic::power::pow, 9);
    }
    if c as nat <= 0xFFFF {
        law_hex_digits_stand_for_their_number(c as nat, 4, true, u32::MAX as nat);
    }
    law_hex_digits_stand_for_their_number(c as nat, 8, true, u32::MAX as nat);
}

/// Each byte has its own escaped form, which is that of the ASCII character where it has one of
/// up to two characters, and otherwise its value in two lower-case hexadecimal digits.
pub proof fn law_bytes_have_these_escapes(b: u8)
    ensures
        0x20 <= b <= 0x7E || b == 0 || b == 9 || b == 10 || b == 13 ==> escape_byte(b) == escape_char(
            b as char,
        ),
        b > 0x7E || (b < 0x20 && b != 0 && b != 9 && b != 10 && b != 13) ==> {
            let s = escape_byte(b);
            &&& s.len() == 4
            &&& s[0] == '\\' && s[1] == 'x'
            &&& hex_value(s[2] as u8) matches Some(h) && hex_value(s[3] as u8) matches Some(l) && h
                * 16 + l == b
            &&& !('A' <= s[2] <= 'F') && !('A' <= s[3] <= 'F')
        },
{
}

/// What stands behind other text is escaped as it would be by itself.
pub proof fn law_text_is_escaped_piece_by_piece(a: Seq<char>, b: Seq<char>)
    ensures
        escape_text(a + b) == escape_text(a) + escape_text(b),
    decreases a.len(),
{
    if a.len() == 0 {
        assert(a + b =~= b);
        assert(escape_text(a) + escape_text(b) =~= escape_text(b));
    } else {
        law_text_is_escaped_piece_by_piece(a.drop_first(), b);
        assert((a + b).drop_first() =~= a.drop_first() + b);
        assert(escape_text(a + b) =~= escape_text(a) + escape_text(b));
    }
}

/// An escape sequence is read as the character that it names: by a letter, or by four or eight
/// hexadecimal digits in either case. Any other letter, a digit that is none, digits that name
/// no character and an end too early are refused, where the sequence begins.
pub proof fn law_escape_sequences_are_read(b: Seq<u8>, at: int)
    requires
        0 <= at < b.len() <= usize::MAX,
    ensures
        at + 1 == b.len() ==> text_escape_at(b, at) == Err::<(char, int), DecodeError>(
            DecodeError::UnexpectedEnd { at: at as usize },
        ),
        at + 1 < b.len() ==> {
            let c = b[at + 1];
            &&& c == 0x5C ==> text_escape_at(b, at) == Ok::<(char, int), DecodeError>(
                ('\\', at + 2),
            )
            &&& c == 0x6E ==> text_escape_at(b, at) == Ok::<(char, int), DecodeError>(
                ('\n', at + 2),
            )
            &&& c == 0x72 ==> text_escape_at(b, at) == Ok::<(char, int), DecodeError>(
                ('\r', at + 2),
            )
            &&& c == 0x74 ==> text_escape_at(b, at) == Ok::<(char, int), DecodeError>(
                ('\t', at + 2),
            )
            &&& c == 0x30 ==> text_escape_at(b, at) == Ok::<(char, int), DecodeError>(
                ('\0', at + 2),
            )
            &&& c != 0x5C && c != 0x6E && c != 0x72 && c != 0x74 && c != 0x30 && c != 0x75 && c
                != 0x55 ==> text_escape_at(b, at) == Err::<(char, int), DecodeError>(
                DecodeError::UnknownEscape { at: at as usize, ch: c as char },
            )
            &&& c == 0x75 && at + 5 < b.len() ==> match (
                hex_value(b[at + 2]),
                hex_value(b[at + 3]),
                hex_value(b[at + 4]),
                hex_value(b[at + 5]),
            ) {
                (Some(d0), Some(d1), Some(d2), Some(d3)) => {
                    let v = d0 * 4096 + d1 * 256 + d2 * 16 + d3;
                    if v < 0xD800 || 0xE000 <= v {
                        text_escape_at(b, at) matches Ok((x, next)) && x as nat == v && next == at
                            + 6
                    } else {
                        text_escape_at(b, at) is Err
                    }
                },
                _ => text_escape_at(b, at) is Err,
            }
            &&& c == 0x75 && at + 5 >= b.len() ==> text_escape_at(b, at) is Err
        },
{
    if at + 1 < b.len() && b[at + 1] == 0x75 {
        reveal_with_fuel(hex_run, 5);
    }
}

} // verus!
