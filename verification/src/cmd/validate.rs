//! Checks of a file's content before it is written.

use vstd::prelude::*;
use vstd::string::*;
use vstd::utf8::*;

use crate::hash::{crc32, crc32_hex, crc32_text, hex_text, md5, md5_hex, md5_text};
use crate::lines::{split_lines, text_lines, texts};
use crate::num::{
    dec, hex_char, hex_fixed, hex_value, hex_value_of, law_hex_digits_stand_for_their_number,
    law_numerals_stand_for_their_number, parse_usize, push_dec, usize_number,
};
use crate::source::{show_text, shown_text};
use crate::text::{
    contains, contains_text, format_str_debug, has_prefix, law_split_finds_the_parts, lower_text,
    lowercase, outcome, same, same_bytes, split_at_first, split_once, stands_at, str_debug,
    strip_prefix, to_lowercase,
};

verus! {

/// What a check looks at: 1-based lines, or bytes `[start, end)`.
#[derive(Debug, Clone, Copy, PartialEq, Eq, Structural)]
pub enum ValidateSelector {
    /// The line must equal the value.
    Line(usize),
    /// The line must contain the value.
    LineContains(usize),
    /// The bytes must equal the value, given as hexadecimal digits.
    Bytes(usize, usize),
    /// The MD5 digest of the bytes must equal the value.
    Md5(usize, usize),
    /// The CRC-32 of the bytes must equal the value.
    Crc32(usize, usize),
}

// ── Selectors ───────────────────────────────────────────────────────────────

/// The 1-based line number that a text stands for, or the message of the error.
pub open spec fn line_number(s: Seq<char>) -> Result<usize, Seq<char>> {
    match usize_number(s, false) {
        Err(_) => Err("invalid line number "@ + str_debug(s)),
        Ok(n) => if n == 0 {
            Err("line numbers are 1-based (0 is not valid)"@)
        } else {
            Ok(n)
        },
    }
}

pub fn parse_line_number(s: &str) -> (r: Result<usize, String>)
    ensures
        outcome(r) == line_number(s@),
{
    match parse_usize(s, false) {
        Err(_) => {
            let mut m = "invalid line number ".to_owned();
            m.push_str(format_str_debug(s).as_str());
            Err(m)
        },
        Ok(n) => if n == 0 {
            Err("line numbers are 1-based (0 is not valid)".to_owned())
        } else {
            Ok(n)
        },
    }
}

/// The value of a decimal integer, or of a hexadecimal one behind `0x`.
pub open spec fn size(s: Seq<char>) -> Result<usize, Seq<char>> {
    if has_prefix(s, "0x"@) || has_prefix(s, "0X"@) {
        match usize_number(s.skip(2), true) {
            Ok(n) => Ok(n),
            Err(_) => Err("invalid hex value "@ + str_debug(s)),
        }
    } else {
        match usize_number(s, false) {
            Ok(n) => Ok(n),
            Err(_) => Err("invalid decimal value "@ + str_debug(s)),
        }
    }
}

pub fn parse_size(s: &str) -> (r: Result<usize, String>)
    ensures
        outcome(r) == size(s@),
{
    proof {
        reveal_strlit("0x");
        reveal_strlit("0X");
    }
    let hex = match strip_prefix(s, "0x") {
        Some(rest) => Some(rest),
        None => strip_prefix(s, "0X"),
    };
    match hex {
        Some(rest) => match parse_usize(rest.as_str(), true) {
            Ok(n) => Ok(n),
            Err(_) => {
                let mut m = "invalid hex value ".to_owned();
                m.push_str(format_str_debug(s).as_str());
                Err(m)
            },
        },
        None => match parse_usize(s, false) {
            Ok(n) => Ok(n),
            Err(_) => {
                let mut m = "invalid decimal value ".to_owned();
                m.push_str(format_str_debug(s).as_str());
                Err(m)
            },
        },
    }
}

/// The range that a text `OFFSET-END` stands for, or the message of the error.
pub open spec fn offset_end(s: Seq<char>) -> Result<(usize, usize), Seq<char>> {
    match split_at_first(s, '-') {
        None => Err("expected OFFSET-END, got "@ + str_debug(s)),
        Some((lo, hi)) => match (size(lo), size(hi)) {
            (Err(e), _) => Err(e),
            (_, Err(e)) => Err(e),
            (Ok(a), Ok(b)) => Ok((a, b)),
        },
    }
}

pub fn parse_offset_end(s: &str) -> (r: Result<(usize, usize), String>)
    ensures
        outcome(r) == offset_end(s@),
{
    match split_once(s, '-') {
        None => {
            let mut m = "expected OFFSET-END, got ".to_owned();
            m.push_str(format_str_debug(s).as_str());
            Err(m)
        },
        Some((lo, hi)) => {
            let a: usize = match parse_size(lo.as_str()) {
                Ok(n) => n,
                Err(e) => {
                    return Err(e);
                },
            };
            let b: usize = match parse_size(hi.as_str()) {
                Ok(n) => n,
                Err(e) => {
                    return Err(e);
                },
            };
            Ok((a, b))
        },
    }
}

/// A message about a selector, with the reason.
pub open spec fn in_selector(s: Seq<char>, why: Seq<char>) -> Seq<char> {
    "--validate "@ + str_debug(s) + ": "@ + why
}

/// The message for a selector of lines in binary mode.
pub open spec fn text_only(s: Seq<char>) -> Seq<char> {
    "--validate: text selector "@ + str_debug(s) + " cannot be used with --binary"@
}

/// The message for a selector of bytes outside binary mode.
pub open spec fn binary_only(s: Seq<char>) -> Seq<char> {
    "--validate: binary selector "@ + str_debug(s) + " requires --binary"@
}

/// A selector of a line.
pub open spec fn line_selector(s: Seq<char>, rest: Seq<char>, is_binary: bool) -> Result<
    usize,
    Seq<char>,
> {
    if is_binary {
        Err(text_only(s))
    } else {
        match line_number(rest) {
            Ok(n) => Ok(n),
            Err(e) => Err(in_selector(s, e)),
        }
    }
}

/// A selector of bytes.
pub open spec fn byte_selector(s: Seq<char>, rest: Seq<char>, is_binary: bool) -> Result<
    (usize, usize),
    Seq<char>,
> {
    if !is_binary {
        Err(binary_only(s))
    } else {
        match offset_end(rest) {
            Ok(p) => Ok(p),
            Err(e) => Err(in_selector(s, e)),
        }
    }
}

/// The selector that a text stands for, or the message of the error.
pub open spec fn selector_of(s: Seq<char>, is_binary: bool) -> Result<ValidateSelector, Seq<char>> {
    if has_prefix(s, "line-contains:"@) {
        match line_selector(s, s.skip("line-contains:"@.len() as int), is_binary) {
            Ok(n) => Ok(ValidateSelector::LineContains(n)),
            Err(e) => Err(e),
        }
    } else if has_prefix(s, "line:"@) {
        match line_selector(s, s.skip("line:"@.len() as int), is_binary) {
            Ok(n) => Ok(ValidateSelector::Line(n)),
            Err(e) => Err(e),
        }
    } else if has_prefix(s, "bytes:"@) {
        match byte_selector(s, s.skip("bytes:"@.len() as int), is_binary) {
            Ok(p) => Ok(ValidateSelector::Bytes(p.0, p.1)),
            Err(e) => Err(e),
        }
    } else if has_prefix(s, "md5:"@) {
        match byte_selector(s, s.skip("md5:"@.len() as int), is_binary) {
            Ok(p) => Ok(ValidateSelector::Md5(p.0, p.1)),
            Err(e) => Err(e),
        }
    } else if has_prefix(s, "crc32:"@) {
        match byte_selector(s, s.skip("crc32:"@.len() as int), is_binary) {
            Ok(p) => Ok(ValidateSelector::Crc32(p.0, p.1)),
            Err(e) => Err(e),
        }
    } else {
        Err("--validate: unknown selector "@ + str_debug(s))
    }
}

fn in_selector_message(s: &str, why: &str) -> (r: String)
    ensures
        r@ == in_selector(s@, why@),
{
    let mut m = "--validate ".to_owned();
    m.push_str(format_str_debug(s).as_str());
    m.push_str(": ");
    m.push_str(why);
    m
}

fn parse_line_selector(s: &str, rest: &str, is_binary: bool) -> (r: Result<usize, String>)
    ensures
        outcome(r) == line_selector(s@, rest@, is_binary),
{
    if is_binary {
        let mut m = "--validate: text selector ".to_owned();
        m.push_str(format_str_debug(s).as_str());
        m.push_str(" cannot be used with --binary");
        return Err(m);
    }
    match parse_line_number(rest) {
        Ok(n) => Ok(n),
        Err(e) => Err(in_selector_message(s, e.as_str())),
    }
}

fn parse_byte_selector(s: &str, rest: &str, is_binary: bool) -> (r: Result<(usize, usize), String>)
    ensures
        outcome(r) == byte_selector(s@, rest@, is_binary),
{
    if !is_binary {
        let mut m = "--validate: binary selector ".to_owned();
        m.push_str(format_str_debug(s).as_str());
        m.push_str(" requires --binary");
        return Err(m);
    }
    match parse_offset_end(rest) {
        Ok(p) => Ok(p),
        Err(e) => Err(in_selector_message(s, e.as_str())),
    }
}

/// Parse a selector.
pub fn parse_selector(selector: &str, is_binary: bool) -> (r: Result<ValidateSelector, String>)
    ensures
        outcome(r) == selector_of(selector@, is_binary),
{
    match strip_prefix(selector, "line-contains:") {
        Some(rest) => {
            return match parse_line_selector(selector, rest.as_str(), is_binary) {
                Ok(n) => Ok(ValidateSelector::LineContains(n)),
                Err(e) => Err(e),
            };
        },
        None => {},
    }
    match strip_prefix(selector, "line:") {
        Some(rest) => {
            return match parse_line_selector(selector, rest.as_str(), is_binary) {
                Ok(n) => Ok(ValidateSelector::Line(n)),
                Err(e) => Err(e),
            };
        },
        None => {},
    }
    match strip_prefix(selector, "bytes:") {
        Some(rest) => {
            return match parse_byte_selector(selector, rest.as_str(), is_binary) {
                Ok((a, b)) => Ok(ValidateSelector::Bytes(a, b)),
                Err(e) => Err(e),
            };
        },
        None => {},
    }
    match strip_prefix(selector, "md5:") {
        Some(rest) => {
            return match parse_byte_selector(selector, rest.as_str(), is_binary) {
                Ok((a, b)) => Ok(ValidateSelector::Md5(a, b)),
                Err(e) => Err(e),
            };
        },
        None => {},
    }
    match strip_prefix(selector, "crc32:") {
        Some(rest) => {
            return match parse_byte_selector(selector, rest.as_str(), is_binary) {
                Ok((a, b)) => Ok(ValidateSelector::Crc32(a, b)),
                Err(e) => Err(e),
            };
        },
        None => {},
    }
    let mut m = "--validate: unknown selector ".to_owned();
    m.push_str(format_str_debug(selector).as_str());
    Err(m)
}

// ── Lines ───────────────────────────────────────────────────────────────────

/// The message for a line that the file does not have.
pub open spec fn missing_line(what: Seq<char>, n: nat, count: nat) -> Seq<char> {
    "--validate "@ + what + dec(n) + ": file has only "@ + dec(count) + " line"@ + (if count == 1 {
        ""@
    } else {
        "s"@
    })
}

/// The message where lines fail a check; `None` where they pass it.
pub open spec fn line_failure(
    lines: Seq<Seq<char>>,
    sel: ValidateSelector,
    value: Seq<char>,
) -> Option<Seq<char>> {
    match sel {
        ValidateSelector::Line(n) => if n == 0 {
            Some("--validate line:0: line numbers are 1-based"@)
        } else if n > lines.len() {
            Some(missing_line("line:"@, n as nat, lines.len()))
        } else if lines[n - 1] != value {
            Some(
                "--validate line:"@ + dec(n as nat) + ": expected "@ + str_debug(value)
                    + ", found "@ + str_debug(lines[n - 1]),
            )
        } else {
            None
        },
        ValidateSelector::LineContains(n) => if n == 0 {
            Some("--validate line-contains:0: line numbers are 1-based"@)
        } else if n > lines.len() {
            Some(missing_line("line-contains:"@, n as nat, lines.len()))
        } else if !contains_text(lines[n - 1], value) {
            Some(
                "--validate line-contains:"@ + dec(n as nat) + ": "@ + str_debug(value)
                    + " not found in "@ + str_debug(lines[n - 1]),
            )
        } else {
            None
        },
        _ => None,
    }
}

fn missing_line_message(what: &str, n: usize, count: usize) -> (r: String)
    ensures
        r@ == missing_line(what@, n as nat, count as nat),
{
    let mut m = "--validate ".to_owned();
    m.push_str(what);
    push_dec(&mut m, n as u64);
    m.push_str(": file has only ");
    push_dec(&mut m, count as u64);
    m.push_str(" line");
    m.push_str(if count == 1 { "" } else { "s" });
    m
}

/// Check lines. Selectors of bytes are passed over.
pub fn check_lines(lines: &Vec<String>, sel: &ValidateSelector, value: &str) -> (r: Result<(), String>)
    ensures
        match r {
            Ok(_) => line_failure(texts(lines@), *sel, value@) is None,
            Err(m) => line_failure(texts(lines@), *sel, value@) == Some(m@),
        },
{
    proof {
        assert(texts(lines@).len() == lines@.len());
    }
    match sel {
        ValidateSelector::Line(n) => {
            let n: usize = *n;
            if n == 0 {
                return Err("--validate line:0: line numbers are 1-based".to_owned());
            }
            if n > lines.len() {
                return Err(missing_line_message("line:", n, lines.len()));
            }
            let line = lines[n - 1].as_str();
            if !same(line, value) {
                let mut m = "--validate line:".to_owned();
                push_dec(&mut m, n as u64);
                m.push_str(": expected ");
                m.push_str(format_str_debug(value).as_str());
                m.push_str(", found ");
                m.push_str(format_str_debug(line).as_str());
                return Err(m);
            }
            Ok(())
        },
        ValidateSelector::LineContains(n) => {
            let n: usize = *n;
            if n == 0 {
                return Err("--validate line-contains:0: line numbers are 1-based".to_owned());
            }
            if n > lines.len() {
                return Err(missing_line_message("line-contains:", n, lines.len()));
            }
            let line = lines[n - 1].as_str();
            if !contains(line, value) {
                let mut m = "--validate line-contains:".to_owned();
                push_dec(&mut m, n as u64);
                m.push_str(": ");
                m.push_str(format_str_debug(value).as_str());
                m.push_str(" not found in ");
                m.push_str(format_str_debug(line).as_str());
                return Err(m);
            }
            Ok(())
        },
        _ => Ok(()),
    }
}

/// The lines of a file as it is shown, or the message of the error.
pub open spec fn shown_lines(file: Seq<u8>) -> Result<Seq<Seq<char>>, Seq<char>> {
    match shown_text(file) {
        Ok(t) => Ok(text_lines(t)),
        Err(m) => Err(m),
    }
}

/// The message where a file's lines fail a check.
pub open spec fn text_failure(
    file: Seq<u8>,
    sel: ValidateSelector,
    value: Seq<char>,
) -> Option<Seq<char>> {
    match shown_lines(file) {
        Ok(lines) => line_failure(lines, sel, value),
        Err(m) => Some(m),
    }
}

/// The lines of a file as it is shown.
pub fn decode_file_lines(file: &[u8]) -> (r: Result<Vec<String>, String>)
    ensures
        match r {
            Ok(v) => shown_lines(file@) == Ok::<Seq<Seq<char>>, Seq<char>>(texts(v@)),
            Err(m) => shown_lines(file@) == Err::<Seq<Seq<char>>, Seq<char>>(m@),
        },
{
    match show_text(file) {
        Ok(shown) => Ok(split_lines(shown.text.as_str())),
        Err(m) => Err(m),
    }
}

/// Check the lines of a file.
pub fn run_text_validator(sel: &ValidateSelector, value: &str, file: &[u8]) -> (r: Result<(), String>)
    ensures
        match r {
            Ok(_) => text_failure(file@, *sel, value@) is None,
            Err(m) => text_failure(file@, *sel, value@) == Some(m@),
        },
{
    match decode_file_lines(file) {
        Ok(lines) => check_lines(&lines, sel, value),
        Err(m) => Err(m),
    }
}

// ── Bytes ───────────────────────────────────────────────────────────────────

/// The message for a range that the file does not have.
pub open spec fn slice_failure(len: nat, lo: usize, hi: usize) -> Option<Seq<char>> {
    if lo > hi {
        Some("byte range "@ + dec(lo as nat) + "-"@ + dec(hi as nat) + ": start exceeds end"@)
    } else if hi > len {
        Some(
            "byte range "@ + dec(lo as nat) + "-"@ + dec(hi as nat) + ": end "@ + dec(hi as nat)
                + " exceeds file length "@ + dec(len),
        )
    } else {
        None
    }
}

/// The bytes `[lo, hi)`.
pub fn byte_slice(bytes: &[u8], lo: usize, hi: usize) -> (r: Result<&[u8], String>)
    ensures
        match r {
            Ok(part) => slice_failure(bytes@.len(), lo, hi) is None && part@ == bytes@.subrange(
                lo as int,
                hi as int,
            ),
            Err(m) => slice_failure(bytes@.len(), lo, hi) == Some(m@),
        },
{
    if lo > hi {
        let mut m = "byte range ".to_owned();
        push_dec(&mut m, lo as u64);
        m.push_str("-");
        push_dec(&mut m, hi as u64);
        m.push_str(": start exceeds end");
        return Err(m);
    }
    if hi > bytes.len() {
        let mut m = "byte range ".to_owned();
        push_dec(&mut m, lo as u64);
        m.push_str("-");
        push_dec(&mut m, hi as u64);
        m.push_str(": end ");
        push_dec(&mut m, hi as u64);
        m.push_str(" exceeds file length ");
        push_dec(&mut m, bytes.len() as u64);
        return Err(m);
    }
    Ok(vstd::slice::slice_subrange(bytes, lo, hi))
}

/// The byte that two hexadecimal digits stand for.
pub open spec fn hex_byte(a: u8, b: u8) -> Option<u8> {
    match (hex_value(a), hex_value(b)) {
        (Some(h), Some(l)) => Some((h * 16 + l) as u8),
        _ => None,
    }
}

/// The bytes that the digit pairs of `s` from the `i`-th on stand for, or the index
/// of the first pair that stands for none.
pub open spec fn hex_pairs(s: Seq<u8>, i: nat) -> Result<Seq<u8>, nat>
    decreases s.len() - 2 * i,
{
    if 2 * i + 1 >= s.len() {
        Ok(seq![])
    } else {
        match hex_byte(s[2 * i as int], s[2 * i as int + 1]) {
            None => Err(i),
            Some(b) => match hex_pairs(s, i + 1) {
                Ok(rest) => Ok(seq![b] + rest),
                Err(k) => Err(k),
            },
        }
    }
}

/// The bytes that contiguous hexadecimal digits stand for, or the message of the
/// error.
pub open spec fn hex_bytes(s: Seq<char>) -> Result<Seq<u8>, Seq<char>> {
    let b = encode_utf8(s);
    if b.len() % 2 != 0 {
        Err("hex string has odd length: "@ + str_debug(s))
    } else {
        match hex_pairs(b, 0) {
            Ok(v) => Ok(v),
            Err(i) => Err("invalid hex byte at position "@ + dec(i) + " in "@ + str_debug(s)),
        }
    }
}

/// Decode contiguous hexadecimal digits.
pub fn parse_hex_bytes(s: &str) -> (r: Result<Vec<u8>, String>)
    ensures
        crate::data_format::bytes_outcome(r) == hex_bytes(s@),
{
    let b = s.as_bytes();
    if b.len() % 2 != 0 {
        let mut m = "hex string has odd length: ".to_owned();
        m.push_str(format_str_debug(s).as_str());
        return Err(m);
    }
    let mut out: Vec<u8> = Vec::new();
    let n: usize = b.len() / 2;
    let mut i: usize = 0;
    while i < n
        invariant
            i <= n,
            2 * n == b@.len(),
            b@ == encode_utf8(s@),
            match hex_pairs(b@, i as nat) {
                Ok(rest) => hex_pairs(b@, 0) == Ok::<Seq<u8>, nat>(out@ + rest),
                Err(k) => hex_pairs(b@, 0) == Err::<Seq<u8>, nat>(k),
            },
        decreases n - i,
    {
        let x: u8 = b[2 * i];
        let y: u8 = b[2 * i + 1];
        let byte = match (hex_value_of(x), hex_value_of(y)) {
            (Some(h), Some(l)) => Some(h * 16 + l),
            _ => None,
        };
        match byte {
            Some(v) => {
                let ghost before = out@;
                out.push(v);
                proof {
                    assert(hex_byte(x, y) == Some(v));
                    if let Ok(rest) = hex_pairs(b@, (i + 1) as nat) {
                        assert(before + (seq![v] + rest) =~= out@ + rest);
                    }
                }
            },
            None => {
                let mut m = "invalid hex byte at position ".to_owned();
                push_dec(&mut m, i as u64);
                m.push_str(" in ");
                m.push_str(format_str_debug(s).as_str());
                return Err(m);
            },
        }
        i = i + 1;
    }
    proof {
        assert(out@ + Seq::<u8>::empty() =~= out@);
    }
    Ok(out)
}

/// The message where a checksum differs from the one expected.
pub open spec fn checksum_failure(
    what: Seq<char>,
    lo: nat,
    hi: nat,
    expected: Seq<char>,
    actual: Seq<char>,
) -> Option<Seq<char>> {
    if actual == lowercase(expected) {
        None
    } else {
        Some(
            "--validate "@ + what + dec(lo) + "-"@ + dec(hi) + ": expected "@ + lowercase(expected)
                + ", computed "@ + actual,
        )
    }
}

/// The message where bytes fail a check; `None` where they pass it.
pub open spec fn byte_failure(
    bytes: Seq<u8>,
    sel: ValidateSelector,
    value: Seq<char>,
) -> Option<Seq<char>> {
    match sel {
        ValidateSelector::Bytes(lo, hi) => match slice_failure(bytes.len(), lo, hi) {
            Some(m) => Some(m),
            None => match hex_bytes(value) {
                Err(m) => Some(m),
                Ok(expected) => if bytes.subrange(lo as int, hi as int) == expected {
                    None
                } else {
                    Some(
                        "--validate bytes:"@ + dec(lo as nat) + "-"@ + dec(hi as nat)
                            + ": content mismatch (expected "@ + dec(expected.len())
                            + " bytes matching hex value)"@,
                    )
                },
            },
        },
        ValidateSelector::Md5(lo, hi) => match slice_failure(bytes.len(), lo, hi) {
            Some(m) => Some(m),
            None => checksum_failure(
                "md5:"@,
                lo as nat,
                hi as nat,
                value,
                md5_text(bytes.subrange(lo as int, hi as int)),
            ),
        },
        ValidateSelector::Crc32(lo, hi) => match slice_failure(bytes.len(), lo, hi) {
            Some(m) => Some(m),
            None => checksum_failure(
                "crc32:"@,
                lo as nat,
                hi as nat,
                value,
                crc32_text(bytes.subrange(lo as int, hi as int)),
            ),
        },
        _ => None,
    }
}

fn check_checksum(what: &str, lo: usize, hi: usize, expected: &str, actual: &str) -> (r: Result<
    (),
    String,
>)
    ensures
        match r {
            Ok(_) => checksum_failure(what@, lo as nat, hi as nat, expected@, actual@) is None,
            Err(m) => checksum_failure(what@, lo as nat, hi as nat, expected@, actual@) == Some(m@),
        },
        is_ascii_chars(expected@) ==> (r is Ok <==> actual@ == lower_text(expected@)),
{
    let lower = to_lowercase(expected);
    if same(actual, lower.as_str()) {
        return Ok(());
    }
    let mut m = "--validate ".to_owned();
    m.push_str(what);
    push_dec(&mut m, lo as u64);
    m.push_str("-");
    push_dec(&mut m, hi as u64);
    m.push_str(": expected ");
    m.push_str(lower.as_str());
    m.push_str(", computed ");
    m.push_str(actual);
    Err(m)
}

/// Check the bytes of a file. Selectors of lines are passed over.
pub fn run_binary_validator(sel: &ValidateSelector, value: &str, bytes: &[u8]) -> (r: Result<
    (),
    String,
>)
    ensures
        match r {
            Ok(_) => byte_failure(bytes@, *sel, value@) is None,
            Err(m) => byte_failure(bytes@, *sel, value@) == Some(m@),
        },
        *sel matches ValidateSelector::Md5(lo, hi) ==> (lo <= hi <= bytes@.len() && is_ascii_chars(
            value@,
        ) ==> (r is Ok <==> md5_text(bytes@.subrange(lo as int, hi as int)) == lower_text(value@))),
        *sel matches ValidateSelector::Crc32(lo, hi) ==> (lo <= hi <= bytes@.len()
            && is_ascii_chars(value@) ==> (r is Ok <==> crc32_text(
            bytes@.subrange(lo as int, hi as int),
        ) == lower_text(value@))),
{
    match sel {
        ValidateSelector::Bytes(lo, hi) => {
            let part = match byte_slice(bytes, *lo, *hi) {
                Ok(p) => p,
                Err(m) => {
                    return Err(m);
                },
            };
            let expected = match parse_hex_bytes(value) {
                Ok(b) => b,
                Err(m) => {
                    return Err(m);
                },
            };
            if same_bytes(part, expected.as_slice()) {
                return Ok(());
            }
            let mut m = "--validate bytes:".to_owned();
            push_dec(&mut m, *lo as u64);
            m.push_str("-");
            push_dec(&mut m, *hi as u64);
            m.push_str(": content mismatch (expected ");
            push_dec(&mut m, expected.len() as u64);
            m.push_str(" bytes matching hex value)");
            Err(m)
        },
        ValidateSelector::Md5(lo, hi) => match byte_slice(bytes, *lo, *hi) {
            Ok(part) => check_checksum("md5:", *lo, *hi, value, md5_hex(part).as_str()),
            Err(m) => Err(m),
        },
        ValidateSelector::Crc32(lo, hi) => match byte_slice(bytes, *lo, *hi) {
            Ok(part) => check_checksum("crc32:", *lo, *hi, value, crc32_hex(part).as_str()),
            Err(m) => Err(m),
        },
        _ => Ok(()),
    }
}

// ── All checks ──────────────────────────────────────────────────────────────

/// The content of a file, or why it could not be read.
pub open spec fn content_view(file: Result<Vec<u8>, String>) -> Result<Seq<u8>, Seq<char>> {
    match file {
        Ok(bytes) => Ok(bytes@),
        Err(m) => Err(m@),
    }
}

/// The message where a file fails the check that a selector and a value describe, or
/// could not be read for it.
pub open spec fn check_failure(
    selector: Seq<char>,
    value: Seq<char>,
    file: Result<Seq<u8>, Seq<char>>,
    is_binary: bool,
) -> Option<Seq<char>> {
    match (selector_of(selector, is_binary), file) {
        (Err(m), _) => Some(m),
        (_, Err(m)) => Some(m),
        (Ok(sel), Ok(bytes)) => match sel {
            ValidateSelector::Line(_) | ValidateSelector::LineContains(_) => text_failure(
                bytes,
                sel,
                value,
            ),
            _ => byte_failure(bytes, sel, value),
        },
    }
}

/// The message of the first check, from position `i` on, that a file fails.
pub open spec fn first_check_failure(
    pairs: Seq<Seq<char>>,
    file: Result<Seq<u8>, Seq<char>>,
    is_binary: bool,
    i: int,
) -> Option<Seq<char>>
    decreases pairs.len() - i,
{
    if i < 0 || i + 1 >= pairs.len() {
        None
    } else {
        match check_failure(pairs[i], pairs[i + 1], file, is_binary) {
            Some(m) => Some(m),
            None => first_check_failure(pairs, file, is_binary, i + 2),
        }
    }
}

/// Run checks, given as selectors each followed by its value, and stop at the first
/// that fails. A file that could not be read fails the first check.
pub fn run_all(pairs: &[String], file: &Result<Vec<u8>, String>, is_binary: bool) -> (r: Result<
    (),
    String,
>)
    requires
        pairs@.len() % 2 == 0,
    ensures
        match r {
            Ok(_) => first_check_failure(
                texts(pairs@),
                content_view(*file),
                is_binary,
                0,
            ) is None,
            Err(m) => first_check_failure(texts(pairs@), content_view(*file), is_binary, 0) == Some(
                m@,
            ),
        },
{
    let ghost views = texts(pairs@);
    let ghost content = content_view(*file);
    let n: usize = pairs.len();
    let mut i: usize = 0;
    while n - i >= 2
        invariant
            n == pairs@.len(),
            i <= n,
            views == texts(pairs@),
            content == content_view(*file),
            first_check_failure(views, content, is_binary, i as int) == first_check_failure(
                views,
                content,
                is_binary,
                0,
            ),
        decreases n - i,
    {
        let value = pairs[i + 1].as_str();
        let sel = match parse_selector(pairs[i].as_str(), is_binary) {
            Ok(s) => s,
            Err(m) => {
                return Err(m);
            },
        };
        let bytes = match file {
            Ok(b) => b.as_slice(),
            Err(m) => {
                return Err(m.clone());
            },
        };
        let checked = match sel {
            ValidateSelector::Line(_) | ValidateSelector::LineContains(_) => run_text_validator(
                &sel,
                value,
                bytes,
            ),
            _ => run_binary_validator(&sel, value, bytes),
        };
        match checked {
            Ok(_) => {},
            Err(m) => {
                return Err(m);
            },
        }
        i = i + 2;
    }
    Ok(())
}

// ── Laws ────────────────────────────────────────────────────────────────────

/// A check of a line passes where, and only where, the file has that line and it equals the
/// value, or holds it.
pub proof fn law_a_line_passes_its_check(lines: Seq<Seq<char>>, n: usize, value: Seq<char>)
    ensures
        line_failure(lines, ValidateSelector::Line(n), value) is None <==> 1 <= n <= lines.len()
            && lines[n - 1] == value,
        line_failure(lines, ValidateSelector::LineContains(n), value) is None <==> 1 <= n
            <= lines.len() && exists|i: int|
            0 <= i && i + value.len() <= lines[n - 1].len() && #[trigger] lines[n - 1].subrange(
                i,
                i + value.len(),
            ) == value,
{
    if 1 <= n <= lines.len() {
        let line = lines[n - 1];
        if contains_text(line, value) {
            let i = choose|i: int| stands_at(line, value, i);
            assert(line.subrange(i, i + value.len()) == value);
        }
        if exists|i: int|
            0 <= i && i + value.len() <= line.len() && #[trigger] line.subrange(
                i,
                i + value.len(),
            ) == value {
            let i = choose|i: int|
                0 <= i && i + value.len() <= line.len() && #[trigger] line.subrange(
                    i,
                    i + value.len(),
                ) == value;
            assert(stands_at(line, value, i));
        }
    }
}

proof fn lemma_hex_pairs(bytes: Seq<u8>, i: nat)
    requires
        i <= bytes.len(),
    ensures
        hex_pairs(hex_bytes_text(bytes), i) == Ok::<Seq<u8>, nat>(bytes.skip(i as int)),
    decreases bytes.len() - i,
{
    let s = hex_bytes_text(bytes);
    if i < bytes.len() {
        let b = bytes[i as int];
        assert(s[2 * i as int] == hex_char((b / 16) as nat, false) as u8);
        assert(s[2 * i as int + 1] == hex_char((b % 16) as nat, false) as u8);
        lemma_hex_pairs(bytes, i + 1);
        assert(hex_byte(s[2 * i as int], s[2 * i as int + 1]) == Some(b));
        assert(bytes.skip(i as int) =~= seq![b] + bytes.skip(i as int + 1));
    } else {
        assert(bytes.skip(i as int) =~= seq![]);
    }
}

/// The ASCII bytes of the hexadecimal text of bytes.
spec fn hex_bytes_text(bytes: Seq<u8>) -> Seq<u8> {
    Seq::new(
        2 * bytes.len(),
        |k: int|
            hex_char(
                (if k % 2 == 0 {
                    bytes[k / 2] / 16
                } else {
                    bytes[k / 2] % 16
                }) as nat,
                false,
            ) as u8,
    )
}

proof fn lemma_hex_text(bytes: Seq<u8>)
    ensures
        hex_text(bytes).len() == 2 * bytes.len(),
        forall|k: int|
            0 <= k < 2 * bytes.len() ==> #[trigger] hex_text(bytes)[k] == hex_char(
                (if k % 2 == 0 {
                    bytes[k / 2] / 16
                } else {
                    bytes[k / 2] % 16
                }) as nat,
                false,
            ),
    decreases bytes.len(),
{
    if bytes.len() > 0 {
        let rest = bytes.drop_last();
        lemma_hex_text(rest);
        let n = 2 * rest.len() as int;
        assert forall|k: int| 0 <= k < 2 * bytes.len() implies #[trigger] hex_text(bytes)[k]
            == hex_char(
            (if k % 2 == 0 {
                bytes[k / 2] / 16
            } else {
                bytes[k / 2] % 16
            }) as nat,
            false,
        ) by {
            if k < n {
                assert(hex_text(bytes)[k] == hex_text(rest)[k]);
                assert(bytes[k / 2] == rest[k / 2]);
            } else {
                assert(k / 2 == rest.len());
            }
        }
    }
}

/// Bytes written as hexadecimal digits, two for each, stand for just these bytes.
pub proof fn law_hex_digits_stand_for_their_bytes(bytes: Seq<u8>)
    ensures
        hex_bytes(hex_text(bytes)) == Ok::<Seq<u8>, Seq<char>>(bytes),
        hex_text(bytes).len() == 2 * bytes.len(),
{
    let s = hex_text(bytes);
    lemma_hex_text(bytes);
    assert forall|i: int| 0 <= i < s.len() implies (#[trigger] s[i] as u32) < 0x80 by {
        assert(s[i] == hex_char(
            (if i % 2 == 0 {
                bytes[i / 2] / 16
            } else {
                bytes[i / 2] % 16
            }) as nat,
            false,
        ));
    }
    assert(is_ascii_chars(s));
    is_ascii_chars_encode_utf8(s);
    assert(encode_utf8(s) =~= hex_bytes_text(bytes)) by {
        assert forall|i: int| 0 <= i < s.len() implies encode_utf8(s)[i] == hex_bytes_text(
            bytes,
        )[i] by {
            assert(encode_utf8(s)[i] == s[i] as u8);
        }
    }
    lemma_hex_pairs(bytes, 0);
    assert(bytes.skip(0) =~= bytes);
}

/// A check of bytes passes where, and only where, the file has that range and it holds the
/// bytes that the digits stand for; a check of a checksum where the checksum of that range,
/// and of nothing else, is the one given, whatever the case of its digits.
pub proof fn law_bytes_pass_their_check(
    bytes: Seq<u8>,
    lo: usize,
    hi: usize,
    expected: Seq<u8>,
    digits: Seq<char>,
)
    ensures
        byte_failure(bytes, ValidateSelector::Bytes(lo, hi), hex_text(expected)) is None <==> lo
            <= hi <= bytes.len() && bytes.subrange(lo as int, hi as int) == expected,
        byte_failure(bytes, ValidateSelector::Md5(lo, hi), digits) is None <==> lo <= hi
            <= bytes.len() && hex_text(md5(bytes.subrange(lo as int, hi as int))) == lowercase(
            digits,
        ),
        byte_failure(bytes, ValidateSelector::Crc32(lo, hi), digits) is None <==> lo <= hi
            <= bytes.len() && hex_fixed(
            crc32(bytes.subrange(lo as int, hi as int)) as nat,
            8,
            false,
        ) == lowercase(digits),
{
    law_hex_digits_stand_for_their_bytes(expected);
}

proof fn lemma_check_from(
    pairs: Seq<Seq<char>>,
    file: Result<Seq<u8>, Seq<char>>,
    is_binary: bool,
    i: int,
)
    requires
        0 <= i,
        i % 2 == 0,
    ensures
        match first_check_failure(pairs, file, is_binary, i) {
            Some(m) => exists|k: int|
                i <= k && k + 1 < pairs.len() && k % 2 == 0 && #[trigger] check_failure(
                    pairs[k],
                    pairs[k + 1],
                    file,
                    is_binary,
                ) == Some(m) && forall|j: int|
                    i <= j < k && j % 2 == 0 ==> #[trigger] check_failure(
                        pairs[j],
                        pairs[j + 1],
                        file,
                        is_binary,
                    ) is None,
            None => forall|j: int|
                i <= j && j + 1 < pairs.len() && j % 2 == 0 ==> #[trigger] check_failure(
                    pairs[j],
                    pairs[j + 1],
                    file,
                    is_binary,
                ) is None,
        },
    decreases pairs.len() - i,
{
    if i + 1 < pairs.len() {
        let c = check_failure(pairs[i], pairs[i + 1], file, is_binary);
        if c is None {
            lemma_check_from(pairs, file, is_binary, i + 2);
            match first_check_failure(pairs, file, is_binary, i + 2) {
                Some(m) => {
                    let k = choose|k: int|
                        i + 2 <= k && k + 1 < pairs.len() && k % 2 == 0
                            && #[trigger] check_failure(pairs[k], pairs[k + 1], file, is_binary)
                            == Some(m) && forall|j: int|
                            i + 2 <= j < k && j % 2 == 0 ==> #[trigger] check_failure(
                                pairs[j],
                                pairs[j + 1],
                                file,
                                is_binary,
                            ) is None;
                    assert forall|j: int| i <= j < k && j % 2 == 0 implies #[trigger] check_failure(
                        pairs[j],
                        pairs[j + 1],
                        file,
                        is_binary,
                    ) is None by {
                        if j != i {
                            assert(j >= i + 2);
                        }
                    }
                    assert(check_failure(pairs[k], pairs[k + 1], file, is_binary) == Some(m));
                },
                None => {
                    assert forall|j: int|
                        i <= j && j + 1 < pairs.len() && j % 2 == 0 implies #[trigger] check_failure(
                        pairs[j],
                        pairs[j + 1],
                        file,
                        is_binary,
                    ) is None by {
                        if j != i {
                            assert(j >= i + 2);
                        }
                    }
                },
            }
        } else {
            assert(check_failure(pairs[i], pairs[i + 1], file, is_binary) == c);
        }
    }
}

/// Checks pass where, and only where, each of them does; where one fails, the message is that
/// of the first.
pub proof fn law_all_checks_have_to_pass(
    pairs: Seq<Seq<char>>,
    file: Result<Seq<u8>, Seq<char>>,
    is_binary: bool,
)
    ensures
        match first_check_failure(pairs, file, is_binary, 0) {
            Some(m) => exists|k: int|
                0 <= k && k + 1 < pairs.len() && k % 2 == 0 && #[trigger] check_failure(
                    pairs[k],
                    pairs[k + 1],
                    file,
                    is_binary,
                ) == Some(m) && forall|j: int|
                    0 <= j < k && j % 2 == 0 ==> #[trigger] check_failure(
                        pairs[j],
                        pairs[j + 1],
                        file,
                        is_binary,
                    ) is None,
            None => forall|j: int|
                0 <= j && j + 1 < pairs.len() && j % 2 == 0 ==> #[trigger] check_failure(
                    pairs[j],
                    pairs[j + 1],
                    file,
                    is_binary,
                ) is None,
        },
{
    lemma_check_from(pairs, file, is_binary, 0);
}

proof fn lemma_size(n: usize)
    ensures
        size(dec(n as nat)) == Ok::<usize, Seq<char>>(n),
        !dec(n as nat).contains('-'),
{
    reveal_strlit("0x");
    reveal_strlit("0X");
    law_numerals_stand_for_their_number(n as nat, usize::MAX as nat);
    let s = dec(n as nat);
    if s.len() >= 2 {
        assert('0' <= s[1] <= '9');
        assert(s.take(2)[1] == s[1]);
    }
}

/// The words for a check of a line: what is checked, a colon, and the line's number, from one
/// on. They are refused in binary mode.
pub proof fn law_line_checks_as_text(n: usize)
    ensures
        n > 0 ==> selector_of("line:"@ + dec(n as nat), false) == Ok::<
            ValidateSelector,
            Seq<char>,
        >(ValidateSelector::Line(n)),
        n > 0 ==> selector_of("line-contains:"@ + dec(n as nat), false) == Ok::<
            ValidateSelector,
            Seq<char>,
        >(ValidateSelector::LineContains(n)),
        selector_of("line:"@ + dec(0), false) is Err,
        selector_of("line-contains:"@ + dec(0), false) is Err,
        selector_of("line:"@ + dec(n as nat), true) is Err,
        selector_of("line-contains:"@ + dec(n as nat), true) is Err,
{
    lemma_prefixes(dec(n as nat));
    lemma_prefixes(dec(0));
    law_numerals_stand_for_their_number(n as nat, usize::MAX as nat);
    law_numerals_stand_for_their_number(0, usize::MAX as nat);
}

proof fn lemma_prefixes(rest: Seq<char>)
    ensures
        has_prefix("line:"@ + rest, "line:"@),
        !has_prefix("line:"@ + rest, "line-contains:"@),
        ("line:"@ + rest).skip("line:"@.len() as int) == rest,
        has_prefix("line-contains:"@ + rest, "line-contains:"@),
        ("line-contains:"@ + rest).skip("line-contains:"@.len() as int) == rest,
        has_prefix("bytes:"@ + rest, "bytes:"@),
        !has_prefix("bytes:"@ + rest, "line-contains:"@),
        !has_prefix("bytes:"@ + rest, "line:"@),
        ("bytes:"@ + rest).skip("bytes:"@.len() as int) == rest,
        has_prefix("md5:"@ + rest, "md5:"@),
        !has_prefix("md5:"@ + rest, "line-contains:"@),
        !has_prefix("md5:"@ + rest, "line:"@),
        !has_prefix("md5:"@ + rest, "bytes:"@),
        ("md5:"@ + rest).skip("md5:"@.len() as int) == rest,
        has_prefix("crc32:"@ + rest, "crc32:"@),
        !has_prefix("crc32:"@ + rest, "line-contains:"@),
        !has_prefix("crc32:"@ + rest, "line:"@),
        !has_prefix("crc32:"@ + rest, "bytes:"@),
        !has_prefix("crc32:"@ + rest, "md5:"@),
        ("crc32:"@ + rest).skip("crc32:"@.len() as int) == rest,
{
    reveal_strlit("line:");
    reveal_strlit("line-contains:");
    reveal_strlit("bytes:");
    reveal_strlit("md5:");
    reveal_strlit("crc32:");
    let (a, b, c, d, e) = (
        "line:"@ + rest,
        "line-contains:"@ + rest,
        "bytes:"@ + rest,
        "md5:"@ + rest,
        "crc32:"@ + rest,
    );
    assert(a.take(5) =~= "line:"@ && a.skip(5) =~= rest);
    assert(b.take(14) =~= "line-contains:"@ && b.skip(14) =~= rest);
    assert(c.take(6) =~= "bytes:"@ && c.skip(6) =~= rest);
    assert(d.take(4) =~= "md5:"@ && d.skip(4) =~= rest);
    assert(e.take(6) =~= "crc32:"@ && e.skip(6) =~= rest);
    assert(a[4] == ':' && "line-contains:"@[4] == '-');
    assert(c[0] == 'b' && d[0] == 'm' && e[0] == 'c');
    if has_prefix(a, "line-contains:"@) {
        assert(a.take(14)[4] == a[4]);
    }
    if has_prefix(c, "line-contains:"@) {
        assert(c.take(14)[0] == c[0]);
    }
    if has_prefix(c, "line:"@) {
        assert(c.take(5)[0] == c[0]);
    }
    if has_prefix(d, "line-contains:"@) {
        assert(d.take(14)[0] == d[0]);
    }
    if has_prefix(d, "line:"@) {
        assert(d.take(5)[0] == d[0]);
    }
    if has_prefix(d, "bytes:"@) {
        assert(d.take(6)[0] == d[0]);
    }
    if has_prefix(e, "line-contains:"@) {
        assert(e.take(14)[0] == e[0]);
    }
    if has_prefix(e, "line:"@) {
        assert(e.take(5)[0] == e[0]);
    }
    if has_prefix(e, "bytes:"@) {
        assert(e.take(6)[0] == e[0]);
    }
    if has_prefix(e, "md5:"@) {
        assert(e.take(4)[0] == e[0]);
    }
}

/// The words for a check of bytes: what is checked, a colon, and the bounds with `-` between
/// them. They are refused outside of binary mode.
pub proof fn law_byte_checks_as_text(lo: usize, hi: usize)
    ensures
        ({
            let range = dec(lo as nat) + seq!['-'] + dec(hi as nat);
            &&& selector_of("bytes:"@ + range, true) == Ok::<ValidateSelector, Seq<char>>(
                ValidateSelector::Bytes(lo, hi),
            )
            &&& selector_of("md5:"@ + range, true) == Ok::<ValidateSelector, Seq<char>>(
                ValidateSelector::Md5(lo, hi),
            )
            &&& selector_of("crc32:"@ + range, true) == Ok::<ValidateSelector, Seq<char>>(
                ValidateSelector::Crc32(lo, hi),
            )
            &&& selector_of("bytes:"@ + range, false) is Err
            &&& selector_of("md5:"@ + range, false) is Err
            &&& selector_of("crc32:"@ + range, false) is Err
        }),
{
    let range = dec(lo as nat) + seq!['-'] + dec(hi as nat);
    lemma_prefixes(range);
    lemma_size(lo);
    lemma_size(hi);
    law_split_finds_the_parts(dec(lo as nat), '-', dec(hi as nat));
}

/// A file that cannot be read fails every check, with the reason where the check itself is a
/// good one; one that can passes where the lines that it shows, or its bytes, pass the check.
pub proof fn law_a_check_looks_at_the_file(
    selector: Seq<char>,
    value: Seq<char>,
    bytes: Seq<u8>,
    why: Seq<char>,
    is_binary: bool,
)
    ensures
        match selector_of(selector, is_binary) {
            Err(_) => check_failure(selector, value, Ok(bytes), is_binary) is Some,
            Ok(sel) => {
                let failure = check_failure(selector, value, Ok(bytes), is_binary);
                &&& check_failure(selector, value, Err(why), is_binary) == Some(why)
                &&& match sel {
                    ValidateSelector::Line(n) => failure is None <==> (shown_text(bytes) is Ok && 1
                        <= n <= text_lines(shown_text(bytes)->Ok_0).len() && text_lines(
                        shown_text(bytes)->Ok_0,
                    )[n - 1] == value),
                    ValidateSelector::LineContains(n) => failure is None <==> (shown_text(
                        bytes,
                    ) is Ok && 1 <= n <= text_lines(shown_text(bytes)->Ok_0).len()
                        && contains_text(text_lines(shown_text(bytes)->Ok_0)[n - 1], value)),
                    ValidateSelector::Bytes(lo, hi) => failure is None <==> (lo <= hi <= bytes.len()
                        && hex_bytes(value) == Ok::<Seq<u8>, Seq<char>>(
                        bytes.subrange(lo as int, hi as int),
                    )),
                    ValidateSelector::Md5(lo, hi) => failure is None <==> (lo <= hi <= bytes.len()
                        && md5_text(bytes.subrange(lo as int, hi as int)) == lowercase(value)),
                    ValidateSelector::Crc32(lo, hi) => failure is None <==> (lo <= hi <= bytes.len()
                        && crc32_text(bytes.subrange(lo as int, hi as int)) == lowercase(value)),
                }
            },
        },
{
}

/// Bounds may be given in hexadecimal digits of either case behind `0x` or `0X`.
pub proof fn law_bounds_may_be_hexadecimal(n: usize, upper: bool)
    ensures
        size("0x"@ + hex_fixed(n as nat, 16, upper)) == Ok::<usize, Seq<char>>(n),
        size("0X"@ + hex_fixed(n as nat, 16, upper)) == Ok::<usize, Seq<char>>(n),
{
    reveal_strlit("0x");
    reveal_strlit("0X");
    let digits = hex_fixed(n as nat, 16, upper);
    vstd::arithmetic::power::lemma_pow0(16);
    assert(vstd::arithmetic::power::pow(16, 16) == 0x10000000000000000) by {
        reveal_with_fuel(vstd::arithmetic::power::pow, 17);
    }
    law_hex_digits_stand_for_their_number(n as nat, 16, upper, usize::MAX as nat);
    assert(("0x"@ + digits).take(2) =~= "0x"@ && ("0x"@ + digits).skip(2) =~= digits);
    assert(("0X"@ + digits).take(2) =~= "0X"@ && ("0X"@ + digits).skip(2) =~= digits);
}

} // verus!
