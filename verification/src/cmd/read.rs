//! Showing a file as UTF-8 with LF line endings, a range of its bytes, and
//! checksums of its parts.

use vstd::prelude::*;
use vstd::string::*;
use vstd::utf8::*;

use crate::cmd::edit::is_eof_word;
use crate::cmd::write::lemma_lf_text;
use crate::encoding::{should_write_bom, text_to_lf, BomPolicy, OutputEncoding, UTF8_BOM};
use crate::encoding_laws::lemma_utf8_add;
use crate::escape::{encode_bytes, escape_bytes};
use crate::hash::{crc32_hex, crc32_text, md5_hex, md5_text};
use crate::layout::lacks_cr;
use crate::lines::{
    joined, law_lines_come_back, law_lines_make_up_the_text, lemma_joined_push, lemma_lines_lack_lf,
    split_lines, text_lines, texts,
};
use crate::num::{
    dec, law_numerals_stand_for_their_number, number, parse_number, parse_usize, push_dec,
    usize_number, NumError,
};
use crate::source::{bom_length, lacks_nul, show_text, shown_text, VIEW_CEILING};
use crate::text::{
    chars_of, format_str_debug, has_prefix, law_split_finds_the_parts, law_split_loses_nothing,
    law_trimming_keeps_trimmed_text, lower, lower_text, outcome, same, split_at_first, split_once,
    str_debug, strip_prefix, to_lower, trim, trimmed,
};

verus! {

// ── Ranges given as text ────────────────────────────────────────────────────

/// A number in a text around which there may be whitespace.
pub open spec fn trimmed_usize(s: Seq<char>) -> Result<usize, NumError> {
    usize_number(trimmed(s), false)
}

/// The message for a bad line number.
pub open spec fn bad_line(s: Seq<char>) -> Seq<char> {
    "invalid line number "@ + str_debug(s) + " in --lines"@
}

/// The 1-based line range that a text stands for, or the message of the error.
pub open spec fn lines_arg(s: Seq<char>) -> Result<(usize, usize), Seq<char>> {
    match split_at_first(s, '-') {
        Some((lo, hi)) => match (trimmed_usize(lo), trimmed_usize(hi)) {
            (Err(_), _) => Err(bad_line(lo)),
            (_, Err(_)) => Err(bad_line(hi)),
            (Ok(a), Ok(b)) => if a == 0 || b == 0 {
                Err("--lines: line numbers are 1-based (minimum 1)"@)
            } else if a > b {
                Err("--lines: start "@ + dec(a as nat) + " is after end "@ + dec(b as nat))
            } else {
                Ok((a, b))
            },
        },
        None => match trimmed_usize(s) {
            Err(_) => Err(bad_line(s)),
            Ok(n) => if n == 0 {
                Err("--lines: line numbers are 1-based (minimum 1)"@)
            } else {
                Ok((n, n))
            },
        },
    }
}

fn quoted_message(what: &str, s: &str, where_: &str) -> (r: String)
    ensures
        r@ == what@ + str_debug(s@) + where_@,
{
    let mut m = what.to_owned();
    m.push_str(format_str_debug(s).as_str());
    m.push_str(where_);
    m
}

fn order_message(what: &str, a: u64, b: u64) -> (r: String)
    ensures
        r@ == what@ + dec(a as nat) + " is after end "@ + dec(b as nat),
{
    let mut m = what.to_owned();
    push_dec(&mut m, a);
    m.push_str(" is after end ");
    push_dec(&mut m, b);
    m
}

/// Parse a range of lines: `N`, or `N-M`; both bounds are 1-based and inclusive.
pub fn parse_lines_arg(s: &str) -> (r: Result<(usize, usize), String>)
    ensures
        outcome(r) == lines_arg(s@),
{
    match split_once(s, '-') {
        Some((lo, hi)) => {
            let a: usize = match parse_usize(trim(lo.as_str()).as_str(), false) {
                Ok(n) => n,
                Err(_) => {
                    return Err(quoted_message("invalid line number ", lo.as_str(), " in --lines"));
                },
            };
            let b: usize = match parse_usize(trim(hi.as_str()).as_str(), false) {
                Ok(n) => n,
                Err(_) => {
                    return Err(quoted_message("invalid line number ", hi.as_str(), " in --lines"));
                },
            };
            if a == 0 || b == 0 {
                return Err("--lines: line numbers are 1-based (minimum 1)".to_owned());
            }
            if a > b {
                return Err(order_message("--lines: start ", a as u64, b as u64));
            }
            Ok((a, b))
        },
        None => match parse_usize(trim(s).as_str(), false) {
            Err(_) => Err(quoted_message("invalid line number ", s, " in --lines")),
            Ok(n) => if n == 0 {
                Err("--lines: line numbers are 1-based (minimum 1)".to_owned())
            } else {
                Ok((n, n))
            },
        },
    }
}

/// The value of `s` as a `u64`.
pub open spec fn u64_number(s: Seq<char>, hex: bool) -> Result<u64, NumError> {
    match number(s, hex, u64::MAX as nat) {
        Ok(n) => Ok(n as u64),
        Err(e) => Err(e),
    }
}

fn parse_u64(s: &str, hex: bool) -> (r: Result<u64, NumError>)
    ensures
        r == u64_number(s@, hex),
{
    parse_number(s, hex, u64::MAX)
}

/// The message for a bad byte offset.
pub open spec fn bad_byte(s: Seq<char>) -> Seq<char> {
    "invalid byte offset "@ + str_debug(s) + " in --bytes"@
}

/// The 1-based byte range that a text stands for, or the message of the error.
pub open spec fn bytes_arg(s: Seq<char>) -> Result<(u64, u64), Seq<char>> {
    match split_at_first(s, '-') {
        Some((lo, hi)) => match (u64_number(trimmed(lo), false), u64_number(trimmed(hi), false)) {
            (Err(_), _) => Err(bad_byte(lo)),
            (_, Err(_)) => Err(bad_byte(hi)),
            (Ok(a), Ok(b)) => if a == 0 || b == 0 {
                Err("--bytes: byte offsets are 1-based (minimum 1)"@)
            } else if a > b {
                Err("--bytes: start "@ + dec(a as nat) + " is after end "@ + dec(b as nat))
            } else {
                Ok((a, b))
            },
        },
        None => match u64_number(trimmed(s), false) {
            Err(_) => Err(bad_byte(s)),
            Ok(n) => if n == 0 {
                Err("--bytes: byte offsets are 1-based (minimum 1)"@)
            } else {
                Ok((n, n))
            },
        },
    }
}

/// Parse a range of bytes: `N`, or `N-M`; both bounds are 1-based and inclusive.
pub fn parse_bytes_arg(s: &str) -> (r: Result<(u64, u64), String>)
    ensures
        outcome(r) == bytes_arg(s@),
{
    match split_once(s, '-') {
        Some((lo, hi)) => {
            let a: u64 = match parse_u64(trim(lo.as_str()).as_str(), false) {
                Ok(n) => n,
                Err(_) => {
                    return Err(quoted_message("invalid byte offset ", lo.as_str(), " in --bytes"));
                },
            };
            let b: u64 = match parse_u64(trim(hi.as_str()).as_str(), false) {
                Ok(n) => n,
                Err(_) => {
                    return Err(quoted_message("invalid byte offset ", hi.as_str(), " in --bytes"));
                },
            };
            if a == 0 || b == 0 {
                return Err("--bytes: byte offsets are 1-based (minimum 1)".to_owned());
            }
            if a > b {
                return Err(order_message("--bytes: start ", a, b));
            }
            Ok((a, b))
        },
        None => match parse_u64(trim(s).as_str(), false) {
            Err(_) => Err(quoted_message("invalid byte offset ", s, " in --bytes")),
            Ok(n) => if n == 0 {
                Err("--bytes: byte offsets are 1-based (minimum 1)".to_owned())
            } else {
                Ok((n, n))
            },
        },
    }
}

// ── Checksums ───────────────────────────────────────────────────────────────

/// A checksum algorithm.
#[derive(Clone, Copy, Debug, PartialEq, Eq, Structural)]
pub enum HashAlgo {
    /// CRC-32.
    Crc32,
    /// MD5.
    Md5,
}

/// Where a checksummed range ends.
#[derive(Clone, Copy, Debug, PartialEq, Eq, Structural)]
pub enum HashRangeEnd {
    /// At a 0-based exclusive offset.
    Absolute(u64),
    /// At the end of the file.
    Eof,
}

/// A checksum to compute: the algorithm and the range `[start, end)`.
#[derive(Clone, Copy, Debug, PartialEq, Eq, Structural)]
pub struct HashSpec {
    /// The algorithm.
    pub algo: HashAlgo,
    /// The 0-based start.
    pub start: u64,
    /// The end.
    pub end: HashRangeEnd,
}

/// A computed checksum.
#[derive(Debug)]
pub struct ComputedHash {
    /// The algorithm.
    pub algo: HashAlgo,
    /// The 0-based start.
    pub start: u64,
    /// The 0-based exclusive end.
    pub resolved_end: u64,
    /// The checksum as lower-case digits.
    pub hex_value: String,
}

/// The value of a decimal integer, or of a hexadecimal one behind `0x`.
pub open spec fn hex_or_dec(s: Seq<char>) -> Result<u64, Seq<char>> {
    let t = trimmed(s);
    if has_prefix(t, "0x"@) || has_prefix(t, "0X"@) {
        match u64_number(t.skip(2), true) {
            Ok(n) => Ok(n),
            Err(_) => Err("invalid hex offset "@ + str_debug(t)),
        }
    } else {
        match u64_number(t, false) {
            Ok(n) => Ok(n),
            Err(_) => Err("invalid byte offset "@ + str_debug(t)),
        }
    }
}

fn parse_hex_or_dec(s: &str) -> (r: Result<u64, String>)
    ensures
        outcome(r) == hex_or_dec(s@),
{
    proof {
        reveal_strlit("0x");
        reveal_strlit("0X");
    }
    let t = trim(s);
    let hex = match strip_prefix(t.as_str(), "0x") {
        Some(rest) => Some(rest),
        None => strip_prefix(t.as_str(), "0X"),
    };
    match hex {
        Some(rest) => match parse_u64(rest.as_str(), true) {
            Ok(n) => Ok(n),
            Err(_) => {
                let mut m = "invalid hex offset ".to_owned();
                m.push_str(format_str_debug(t.as_str()).as_str());
                Err(m)
            },
        },
        None => match parse_u64(t.as_str(), false) {
            Ok(n) => Ok(n),
            Err(_) => {
                let mut m = "invalid byte offset ".to_owned();
                m.push_str(format_str_debug(t.as_str()).as_str());
                Err(m)
            },
        },
    }
}

/// The algorithm with the given name.
pub open spec fn algo_named(name: Seq<char>) -> Option<HashAlgo> {
    if name == "crc32"@ {
        Some(HashAlgo::Crc32)
    } else if name == "md5"@ {
        Some(HashAlgo::Md5)
    } else {
        None
    }
}

/// The end of a range that a text stands for.
pub open spec fn range_end(s: Seq<char>) -> Result<HashRangeEnd, Seq<char>> {
    if is_eof_word(trimmed(s)) {
        Ok(HashRangeEnd::Eof)
    } else {
        match hex_or_dec(trimmed(s)) {
            Ok(n) => Ok(HashRangeEnd::Absolute(n)),
            Err(e) => Err("--hash end: "@ + e),
        }
    }
}

/// The checksum that a text asks for, or the message of the error.
pub open spec fn hash_arg(s: Seq<char>) -> Result<HashSpec, Seq<char>> {
    match split_at_first(s, ':') {
        None => Err("--hash: expected '<algo>:<start>-<end>', got "@ + str_debug(s)),
        Some((name, range)) => match algo_named(trimmed(name)) {
            None => Err(
                "--hash: unknown algorithm "@ + str_debug(trimmed(name))
                    + "; expected 'crc32' or 'md5'"@,
            ),
            Some(algo) => match split_at_first(range, '-') {
                None => Err("--hash: expected '<start>-<end>' in range, got "@ + str_debug(range)),
                Some((from, to)) => match (hex_or_dec(from), range_end(to)) {
                    (Err(e), _) => Err("--hash start: "@ + e),
                    (_, Err(e)) => Err(e),
                    (Ok(start), Ok(end)) => Ok(HashSpec { algo, start, end }),
                },
            },
        },
    }
}

/// Parse `<algo>:<start>-<end>`.
pub fn parse_hash_arg(s: &str) -> (r: Result<HashSpec, String>)
    ensures
        outcome(r) == hash_arg(s@),
{
    let (name, range) = match split_once(s, ':') {
        Some(p) => p,
        None => {
            let mut m = "--hash: expected '<algo>:<start>-<end>', got ".to_owned();
            m.push_str(format_str_debug(s).as_str());
            return Err(m);
        },
    };
    let name = trim(name.as_str());
    let algo = if same(name.as_str(), "crc32") {
        HashAlgo::Crc32
    } else if same(name.as_str(), "md5") {
        HashAlgo::Md5
    } else {
        return Err(
            quoted_message(
                "--hash: unknown algorithm ",
                name.as_str(),
                "; expected 'crc32' or 'md5'",
            ),
        );
    };
    let (from, to) = match split_once(range.as_str(), '-') {
        Some(p) => p,
        None => {
            let mut m = "--hash: expected '<start>-<end>' in range, got ".to_owned();
            m.push_str(format_str_debug(range.as_str()).as_str());
            return Err(m);
        },
    };
    let start: u64 = match parse_hex_or_dec(from.as_str()) {
        Ok(n) => n,
        Err(e) => {
            let mut m = "--hash start: ".to_owned();
            m.push_str(e.as_str());
            return Err(m);
        },
    };
    let to = trim(to.as_str());
    let end = if same(to.as_str(), "$") || same(to_lower(to.as_str()).as_str(), "eof") {
        HashRangeEnd::Eof
    } else {
        match parse_hex_or_dec(to.as_str()) {
            Ok(n) => HashRangeEnd::Absolute(n),
            Err(e) => {
                let mut m = "--hash end: ".to_owned();
                m.push_str(e.as_str());
                return Err(m);
            },
        }
    };
    Ok(HashSpec { algo, start, end })
}

/// Where a checksummed range ends in a file of `len` bytes.
pub open spec fn resolved_end(spec: HashSpec, len: nat) -> nat {
    match spec.end {
        HashRangeEnd::Absolute(e) => e as nat,
        HashRangeEnd::Eof => len,
    }
}

/// The message for a checksum over a range that the file does not have.
pub open spec fn hash_failure(spec: HashSpec, len: nat) -> Option<Seq<char>> {
    let end = resolved_end(spec, len);
    if spec.start > end {
        Some("--hash: start "@ + dec(spec.start as nat) + " exceeds end "@ + dec(end))
    } else if end > len {
        Some("--hash: end "@ + dec(end) + " exceeds file length "@ + dec(len))
    } else {
        None
    }
}

/// The message of the first checksum, from position `i` on, that cannot be
/// computed.
pub open spec fn first_hash_failure(specs: Seq<HashSpec>, len: nat, i: int) -> Option<Seq<char>>
    decreases specs.len() - i,
{
    if i < 0 || i >= specs.len() {
        None
    } else {
        match hash_failure(specs[i], len) {
            Some(m) => Some(m),
            None => first_hash_failure(specs, len, i + 1),
        }
    }
}

/// The checksum of a range of bytes, as 8 digits for CRC-32 and 32 for MD5.
pub open spec fn is_hash(h: ComputedHash, spec: HashSpec, bytes: Seq<u8>) -> bool {
    let end = resolved_end(spec, bytes.len());
    let part = bytes.subrange(spec.start as int, end as int);
    &&& h.algo == spec.algo
    &&& h.start == spec.start
    &&& h.resolved_end == end
    &&& h.hex_value@ == (match spec.algo {
        HashAlgo::Crc32 => crc32_text(part),
        HashAlgo::Md5 => md5_text(part),
    })
    &&& h.hex_value@.len() == (match spec.algo {
        HashAlgo::Crc32 => 8nat,
        HashAlgo::Md5 => 32,
    })
}

/// Compute checksums over ranges of bytes.
pub fn compute_hashes(all_bytes: &[u8], specs: &[HashSpec]) -> (r: Result<Vec<ComputedHash>, String>)
    ensures
        match r {
            Ok(v) => first_hash_failure(specs@, all_bytes@.len(), 0) is None && v@.len()
                == specs@.len() && forall|i: int|
                0 <= i < v@.len() ==> is_hash(#[trigger] v@[i], specs@[i], all_bytes@),
            Err(m) => first_hash_failure(specs@, all_bytes@.len(), 0) == Some(m@),
        },
{
    let len: usize = all_bytes.len();
    let file_len: u64 = len as u64;
    let mut out: Vec<ComputedHash> = Vec::new();
    let mut i: usize = 0;
    while i < specs.len()
        invariant
            i <= specs@.len(),
            len == all_bytes@.len(),
            file_len == len,
            out@.len() == i,
            first_hash_failure(specs@, all_bytes@.len(), i as int) == first_hash_failure(
                specs@,
                all_bytes@.len(),
                0,
            ),
            forall|k: int| 0 <= k < i ==> is_hash(#[trigger] out@[k], specs@[k], all_bytes@),
        decreases specs@.len() - i,
    {
        let spec = specs[i];
        let end: u64 = match spec.end {
            HashRangeEnd::Eof => file_len,
            HashRangeEnd::Absolute(e) => e,
        };
        if spec.start > end {
            let mut m = "--hash: start ".to_owned();
            push_dec(&mut m, spec.start);
            m.push_str(" exceeds end ");
            push_dec(&mut m, end);
            return Err(m);
        }
        if end > file_len {
            let mut m = "--hash: end ".to_owned();
            push_dec(&mut m, end);
            m.push_str(" exceeds file length ");
            push_dec(&mut m, file_len);
            return Err(m);
        }
        let part = vstd::slice::slice_subrange(all_bytes, spec.start as usize, end as usize);
        let hex_value = match spec.algo {
            HashAlgo::Crc32 => crc32_hex(part),
            HashAlgo::Md5 => md5_hex(part),
        };
        out.push(
            ComputedHash { algo: spec.algo, start: spec.start, resolved_end: end, hex_value },
        );
        i = i + 1;
    }
    Ok(out)
}

// ── Text ────────────────────────────────────────────────────────────────────

/// `n` spaces.
pub open spec fn spaces(n: nat) -> Seq<char> {
    Seq::new(n, |i: int| ' ')
}

/// The number of a line before its text: right-aligned in six columns, then two
/// spaces.
pub open spec fn line_prefix(n: nat) -> Seq<char> {
    let digits = dec(n);
    spaces(
        if digits.len() < 6 {
            (6 - digits.len()) as nat
        } else {
            0
        },
    ) + digits + "  "@
}

/// The index range of lines that a 1-based inclusive range selects.
pub open spec fn selection(range: Option<(usize, usize)>, len: int) -> (int, int) {
    match range {
        None => (0, len),
        Some((s, e)) => (
            if s == 0 {
                0
            } else {
                s - 1
            },
            if e < len {
                e as int
            } else {
                len
            },
        ),
    }
}

/// The range does not begin behind where it ends.
pub open spec fn selectable(range: Option<(usize, usize)>, len: int) -> bool {
    selection(range, len).0 <= selection(range, len).1
}

/// The lines from `start` up to `end`, each ended by LF, with their numbers where
/// asked for.
pub open spec fn numbered(lines: Seq<Seq<char>>, start: int, end: int, numbers: bool) -> Seq<char>
    decreases end - start,
{
    if start >= end {
        seq![]
    } else {
        numbered(lines, start, end - 1, numbers) + (if numbers {
            line_prefix(end as nat)
        } else {
            seq![]
        }) + lines[end - 1].push('\n')
    }
}

/// Appends the number of a line.
pub(crate) fn push_line_prefix(out: &mut String, n: u64)
    ensures
        final(out)@ =~= old(out)@ + line_prefix(n as nat),
{
    let mut digits = String::new();
    push_dec(&mut digits, n);
    let v = chars_of(digits.as_str());
    let ghost start = out@;
    let mut k: usize = v.len();
    proof {
        assert(digits@ =~= dec(n as nat));
        assert(spaces(0) =~= seq![]);
    }
    while k < 6
        invariant
            v@.len() <= k,
            k <= 6 || k == v@.len(),
            out@ =~= start + spaces((k - v@.len()) as nat),
        decreases 6 - k,
    {
        out.push(' ');
        k = k + 1;
    }
    out.push_str(digits.as_str());
    out.push_str("  ");
}

/// The lines of a text that a range selects, each ended by LF, with their numbers
/// where asked for.
pub fn render_lines(text: &str, range: Option<(usize, usize)>, numbers: bool) -> (r: String)
    requires
        selectable(range, text_lines(text@).len() as int),
    ensures
        ({
            let (start, end) = selection(range, text_lines(text@).len() as int);
            r@ == numbered(text_lines(text@), start, end, numbers)
        }),
{
    let lines = split_lines(text);
    let ghost views = text_lines(text@);
    proof {
        assert(texts(lines@).len() == lines@.len());
    }
    let (start, end) = select(range, lines.len());
    let mut out = String::new();
    let mut i: usize = start;
    while i < end
        invariant
            start <= i <= end <= lines@.len(),
            texts(lines@) == views,
            out@ == numbered(views, start as int, i as int, numbers),
        decreases end - i,
    {
        if numbers {
            push_line_prefix(&mut out, (i + 1) as u64);
        }
        out.push_str(lines[i].as_str());
        out.push('\n');
        proof {
            assert(views[i as int] == lines@[i as int]@);
            assert(out@ =~= numbered(views, start as int, i + 1, numbers));
        }
        i = i + 1;
    }
    out
}

/// The index range of lines that a 1-based inclusive range selects.
pub(crate) fn select(range: Option<(usize, usize)>, len: usize) -> (r: (usize, usize))
    ensures
        (r.0 as int, r.1 as int) == selection(range, len as int),
        r.1 <= len,
{
    match range {
        None => (0, len),
        Some((s, e)) => {
            let start: usize = if s == 0 {
                0
            } else {
                s - 1
            };
            let end: usize = if e < len {
                e
            } else {
                len
            };
            (start, end)
        },
    }
}

/// Whether a range of lines can be selected from a text.
pub fn can_select(text: &str, range: Option<(usize, usize)>) -> (r: bool)
    ensures
        r == selectable(range, text_lines(text@).len() as int),
{
    let lines = split_lines(text);
    proof {
        assert(texts(lines@).len() == lines@.len());
    }
    let (start, end) = select(range, lines.len());
    start <= end
}

/// A file as it is shown.
#[derive(Debug)]
pub struct ReadOutput {
    /// What to write out.
    pub bytes: Vec<u8>,
    /// The whole text, for advice on it.
    pub text: String,
}

/// What is written out: a byte-order mark where asked for, then the text.
pub open spec fn with_bom(write_bom: bool, text: Seq<char>) -> Seq<u8> {
    (if write_bom {
        seq![0xEFu8, 0xBBu8, 0xBFu8]
    } else {
        seq![]
    }) + encode_utf8(text)
}

/// Whether a byte-order mark is written before the text.
pub open spec fn bom_wanted(encoding: OutputEncoding, policy: BomPolicy, had_bom: bool) -> bool {
    encoding == OutputEncoding::Utf8 && match policy {
        BomPolicy::Strip => false,
        BomPolicy::Preserve => had_bom,
        BomPolicy::Force => true,
    }
}

/// The bytes of a text, behind a byte-order mark where asked for.
pub(crate) fn encode_output(write_bom: bool, text: &str) -> (r: Vec<u8>)
    ensures
        r@ == with_bom(write_bom, text@),
{
    let mut out: Vec<u8> = Vec::new();
    if write_bom {
        out.push(UTF8_BOM[0]);
        out.push(UTF8_BOM[1]);
        out.push(UTF8_BOM[2]);
    }
    out.extend_from_slice(text.as_bytes());
    proof {
        assert(out@ =~= with_bom(write_bom, text@));
    }
    out
}

/// What reading a file comes to: the lines that the range selects, or the message of the
/// error; `None` where the range cannot be selected.
pub open spec fn is_read(
    r: Result<Option<ReadOutput>, String>,
    file: Seq<u8>,
    range: Option<(usize, usize)>,
    numbers: bool,
    write_bom: bool,
) -> bool {
    match shown_text(file) {
        Err(m) => r is Err && r->Err_0@ == m,
        Ok(text) => {
            let lines = text_lines(text);
            let (start, end) = selection(range, lines.len() as int);
            match r {
                Ok(Some(o)) => {
                    &&& selectable(range, lines.len() as int)
                    &&& o.text@ == text
                    &&& o.bytes@ == with_bom(write_bom, numbered(lines, start, end, numbers))
                },
                Ok(None) => !selectable(range, lines.len() as int),
                Err(_) => false,
            }
        },
    }
}

/// A file in UTF-8 that is shown as it is: without NUL, CR and byte-order mark, of a size
/// that can be viewed, and with an LF at its end.
pub open spec fn is_shown_as_is(file: Seq<u8>) -> bool {
    &&& valid_utf8(file)
    &&& lacks_nul(file)
    &&& bom_length(file) == 0
    &&& file.len() <= VIEW_CEILING
    &&& forall|i: int| 0 <= i < file.len() ==> #[trigger] file[i] != 0x0D
    &&& file.len() == 0 || file.last() == 0x0A
}

/// Show a file as UTF-8 with LF line endings: all of it, or a range of its lines.
/// `None` where the range begins behind the last line and behind its own end.
pub fn run(
    file: &[u8],
    range: Option<(usize, usize)>,
    numbers: bool,
    output_encoding: OutputEncoding,
    bom_policy: BomPolicy,
) -> (r: Result<Option<ReadOutput>, String>)
    ensures
        is_read(
            r,
            file@,
            range,
            numbers,
            bom_wanted(output_encoding, bom_policy, bom_length(file@) > 0),
        ),
        is_shown_as_is(file@) && range is None && !numbers && output_encoding
            == OutputEncoding::Preserve ==> (r matches Ok(Some(o)) && o.bytes@ == file@),
{
    proof {
        if is_shown_as_is(file@) {
            lemma_shown_as_is(file@);
        }
    }
    match show_text(file) {
        Err(m) => Err(m),
        Ok(shown) => {
            if !can_select(shown.text.as_str(), range) {
                return Ok(None);
            }
            let body = render_lines(shown.text.as_str(), range, numbers);
            let write_bom = should_write_bom(output_encoding, bom_policy, shown.had_bom);
            let bytes = encode_output(write_bom, body.as_str());
            proof {
                if is_shown_as_is(file@) && range is None && !numbers {
                    law_a_full_read_shows_the_text(shown.text@);
                    assert(!write_bom ==> bytes@ =~= encode_utf8(body@));
                }
            }
            Ok(Some(ReadOutput { bytes, text: shown.text }))
        },
    }
}

// ── Bytes ───────────────────────────────────────────────────────────────────

/// The smaller of two numbers.
pub open spec fn least(a: int, b: int) -> int {
    if a < b {
        a
    } else {
        b
    }
}

/// The 0-based range that a 1-based inclusive byte range selects, clamped to the
/// length.
pub open spec fn byte_selection(range: Option<(u64, u64)>, len: int) -> (int, int) {
    match range {
        None => (0, len),
        Some((s, e)) => (
            least(
                if s == 0 {
                    0
                } else {
                    s - 1
                },
                len,
            ),
            least(e as int, len),
        ),
    }
}

/// Show a range of a file's bytes, escaped.
pub fn run_binary(file: &[u8], range: Option<(u64, u64)>) -> (r: String)
    requires
        byte_selection(range, file@.len() as int).0 <= byte_selection(range, file@.len() as int).1,
    ensures
        r@ == escape_bytes(
            file@.subrange(
                byte_selection(range, file@.len() as int).0,
                byte_selection(range, file@.len() as int).1,
            ),
        ),
{
    let len: usize = file.len();
    let (lo, hi): (usize, usize) = match range {
        None => (0, len),
        Some((s, e)) => {
            let first: u64 = if s == 0 {
                0
            } else {
                s - 1
            };
            let lo: usize = if first < len as u64 {
                first as usize
            } else {
                len
            };
            let hi: usize = if e < len as u64 {
                e as usize
            } else {
                len
            };
            (lo, hi)
        },
    };
    encode_bytes(vstd::slice::slice_subrange(file, lo, hi))
}

// ── Laws ────────────────────────────────────────────────────────────────────

/// Without numbers the lines are shown as they are, each ended by LF.
pub proof fn law_lines_are_shown_as_they_are(lines: Seq<Seq<char>>, start: int, end: int)
    requires
        0 <= start <= end <= lines.len(),
    ensures
        numbered(lines, start, end, false) == joined(lines.subrange(start, end)),
    decreases end - start,
{
    if start < end {
        law_lines_are_shown_as_they_are(lines, start, end - 1);
        lemma_joined_push(lines.subrange(start, end - 1), lines[end - 1]);
        assert(lines.subrange(start, end) =~= lines.subrange(start, end - 1).push(lines[end - 1]));
        assert(numbered(lines, start, end, false) =~= joined(lines.subrange(start, end)));
    } else {
        assert(lines.subrange(start, end) =~= seq![]);
    }
}

/// Reading all of a text without numbers shows the text itself, ended by LF.
pub proof fn law_a_full_read_shows_the_text(text: Seq<char>)
    ensures
        ({
            let (start, end) = selection(None, text_lines(text).len() as int);
            numbered(text_lines(text), start, end, false) == (if text.len() == 0 || text.last()
                == '\n' {
                text
            } else {
                text.push('\n')
            })
        }),
{
    let lines = text_lines(text);
    law_lines_are_shown_as_they_are(lines, 0, lines.len() as int);
    assert(lines.subrange(0, lines.len() as int) =~= lines);
    law_lines_make_up_the_text(text);
    assert(text + seq!['\n'] =~= text.push('\n'));
}

/// A range selects the lines whose 1-based numbers lie within it, both bounds included, and
/// all lines where there is none.
pub proof fn law_a_range_selects_its_lines(range: Option<(usize, usize)>, len: int, i: int)
    requires
        0 <= i < len,
        range matches Some((s, e)) ==> 0 < s,
    ensures
        ({
            let (start, end) = selection(range, len);
            (start <= i < end) == (match range {
                Some((s, e)) => s <= i + 1 <= e,
                None => true,
            })
        }),
        selectable(range, len) == (match range {
            Some((s, e)) => s <= e + 1 && s <= len + 1,
            None => true,
        }),
{
}

/// The number before a line is followed by two spaces, and stands behind spaces alone,
/// which fill it up to six columns.
pub proof fn law_line_numbers_are_aligned(n: nat)
    ensures
        ({
            let p = line_prefix(n);
            let digits = dec(n);
            let k = p.len() - 2 - digits.len();
            &&& k >= 0
            &&& p.subrange(k, p.len() - 2) == digits
            &&& p[p.len() - 1] == ' ' && p[p.len() - 2] == ' '
            &&& forall|i: int| 0 <= i < k ==> #[trigger] p[i] == ' '
            &&& p.len() == 8 || (p.len() > 8 && k == 0)
        }),
{
    reveal_strlit("  ");
    let p = line_prefix(n);
    let digits = dec(n);
    let k = p.len() - 2 - digits.len();
    assert(p.subrange(k, p.len() - 2) =~= digits);
}

/// What the `i`-th of the lines from `start` on is shown as, without its LF.
spec fn shown_row(lines: Seq<Seq<char>>, start: int, i: int, numbers: bool) -> Seq<char> {
    (if numbers {
        line_prefix((start + i + 1) as nat)
    } else {
        seq![]
    }) + lines[start + i]
}

proof fn lemma_numbered_is_joined(lines: Seq<Seq<char>>, start: int, end: int, numbers: bool)
    requires
        0 <= start <= end <= lines.len(),
    ensures
        numbered(lines, start, end, numbers) == joined(
            Seq::new((end - start) as nat, |i: int| shown_row(lines, start, i, numbers)),
        ),
    decreases end - start,
{
    let rows = Seq::new((end - start) as nat, |i: int| shown_row(lines, start, i, numbers));
    if start < end {
        lemma_numbered_is_joined(lines, start, end - 1, numbers);
        let above = Seq::new(
            (end - 1 - start) as nat,
            |i: int| shown_row(lines, start, i, numbers),
        );
        lemma_joined_push(above, rows.last());
        assert(rows =~= above.push(rows.last()));
        assert(numbered(lines, start, end, numbers) =~= joined(rows));
    } else {
        assert(rows =~= seq![]);
    }
}

/// What is shown of a range, cut into lines, has as many lines as the range selects, and
/// each ends in the line selected; before it stands nothing, or the number that it has in
/// the whole text.
pub proof fn law_each_selected_line_is_shown(
    text: Seq<char>,
    range: Option<(usize, usize)>,
    numbers: bool,
)
    requires
        selectable(range, text_lines(text).len() as int),
    ensures
        ({
            let lines = text_lines(text);
            let (start, end) = selection(range, lines.len() as int);
            let rows = text_lines(numbered(lines, start, end, numbers));
            &&& rows.len() == end - start
            &&& forall|i: int|
                0 <= i < rows.len() ==> (#[trigger] rows[i]) == (if numbers {
                    line_prefix((start + i + 1) as nat)
                } else {
                    seq![]
                }) + lines[start + i]
        }),
{
    let lines = text_lines(text);
    let (start, end) = selection(range, lines.len() as int);
    lemma_numbered_is_joined(lines, start, end, numbers);
    let rows = Seq::new((end - start) as nat, |i: int| shown_row(lines, start, i, numbers));
    lemma_lines_lack_lf(text);
    assert forall|i: int, j: int|
        0 <= i < rows.len() && 0 <= j < rows[i].len() implies #[trigger] rows[i][j] != '\n' by {
        let n = (start + i + 1) as nat;
        law_line_numbers_are_aligned(n);
        law_numerals_stand_for_their_number(n, n);
        let p = line_prefix(n);
        let k = p.len() - 2 - dec(n).len();
        if numbers && j < p.len() {
            assert(rows[i][j] == p[j]);
            if k <= j < p.len() - 2 {
                assert(p.subrange(k, p.len() - 2)[j - k] == p[j]);
            }
        } else {
            let q = if numbers {
                j - p.len()
            } else {
                j
            };
            assert(rows[i][j] == lines[start + i][q]);
        }
    }
    law_lines_come_back(rows);
}

/// What is read of a file that can be shown: its lines within the range, one by one, and
/// its whole text beside them.
pub proof fn law_reading_shows_the_lines_in_range(
    r: Result<Option<ReadOutput>, String>,
    file: Seq<u8>,
    range: Option<(usize, usize)>,
    numbers: bool,
    write_bom: bool,
)
    requires
        is_read(r, file, range, numbers, write_bom),
        shown_text(file) is Ok,
        range matches Some((s, e)) ==> 0 < s <= e && s <= text_lines(shown_text(file)->Ok_0).len(),
    ensures
        r matches Ok(Some(o)) && o.text@ == shown_text(file)->Ok_0 && exists|shown: Seq<char>|
            {
                let lines = text_lines(o.text@);
                let first = match range {
                    Some((s, _)) => s - 1,
                    None => 0,
                };
                &&& o.bytes@ == (if write_bom {
                    seq![0xEFu8, 0xBBu8, 0xBFu8]
                } else {
                    seq![]
                }) + #[trigger] encode_utf8(shown)
                &&& text_lines(shown).len() == (match range {
                    Some((s, e)) => if e < lines.len() {
                        e - s + 1
                    } else {
                        lines.len() - s + 1
                    },
                    None => lines.len() as int,
                })
                &&& forall|i: int|
                    0 <= i < text_lines(shown).len() ==> (#[trigger] text_lines(shown)[i])
                        == (if numbers {
                        line_prefix((first + i + 1) as nat)
                    } else {
                        seq![]
                    }) + lines[first + i]
            },
{
    let text = shown_text(file)->Ok_0;
    let lines = text_lines(text);
    let (start, end) = selection(range, lines.len() as int);
    law_each_selected_line_is_shown(text, range, numbers);
    let shown = numbered(lines, start, end, numbers);
    assert(r->Ok_0->0.bytes@ == (if write_bom {
        seq![0xEFu8, 0xBBu8, 0xBFu8]
    } else {
        seq![]
    }) + encode_utf8(shown));
}

proof fn lemma_shown_as_is(file: Seq<u8>)
    requires
        is_shown_as_is(file),
    ensures
        ({
            let text = text_to_lf(decode_utf8(file.skip(bom_length(file) as int)));
            &&& encode_utf8(text) == file
            &&& text.len() == 0 || text.last() == '\n'
        }),
{
    let text = decode_utf8(file);
    assert(file.skip(0) =~= file);
    decode_utf8_encode_utf8(file);
    assert(lacks_cr(text)) by {
        lemma_utf8_lacks_cr(text);
    }
    lemma_lf_text(text);
    if text.len() > 0 {
        let init = text.drop_last();
        let c = seq![text.last()];
        assert(text =~= init + c);
        lemma_utf8_add(init, c);
        lemma_one_scalar(text.last());
        assert(file.last() == encode_utf8(c).last());
    }
}

/// The UTF-8 of a character ends in the byte of LF for LF alone.
proof fn lemma_one_scalar(c: char)
    ensures
        encode_utf8(seq![c]).len() > 0,
        encode_utf8(seq![c]).last() == 0x0A ==> c == '\n',
{
    let s = seq![c];
    assert(s.drop_first() =~= seq![]);
    assert(encode_utf8(s.drop_first()) =~= seq![]);
    assert(encode_utf8(s) =~= encode_scalar(c as u32));
    let v = c as u32;
    char_is_scalar(c);
    if has_width_1_encoding(v) {
        let b = leading_byte_width_1(v);
        assert(b == 0x0A ==> v == 0x0A) by (bit_vector)
            requires
                b == leading_byte_width_1(v),
                v <= 0x7F,
        ;
        if v == 0x0A {
            char_u32_cast(c, 0x0Au32);
        }
    } else {
        let b = last_continuation_byte(v);
        assert(b != 0x0A) by (bit_vector)
            requires
                b == last_continuation_byte(v),
        ;
    }
}

/// UTF-8 without the byte of CR is a text without CR.
proof fn lemma_utf8_lacks_cr(s: Seq<char>)
    requires
        forall|i: int| 0 <= i < encode_utf8(s).len() ==> #[trigger] encode_utf8(s)[i] != 0x0D,
    ensures
        lacks_cr(s),
    decreases s.len(),
{
    if s.len() > 0 {
        let bytes = encode_utf8(s);
        let head = encode_scalar(s[0] as u32);
        let rest = s.drop_first();
        let tail = encode_utf8(rest);
        assert(bytes =~= head + tail);
        assert forall|i: int| 0 <= i < tail.len() implies #[trigger] tail[i] != 0x0D by {
            assert(tail[i] == bytes[head.len() + i]);
        }
        lemma_utf8_lacks_cr(rest);
        if s[0] == '\r' {
            let v = 0x0Du32;
            assert(leading_byte_width_1(v) == 0x0D) by (bit_vector)
                requires
                    v == 0x0D,
            ;
            assert(head =~= seq![0x0Du8]);
            assert(bytes[0] == head[0]);
        }
        assert forall|i: int| 0 <= i < s.len() implies #[trigger] s[i] != '\r' by {
            if i > 0 {
                assert(s[i] == rest[i - 1]);
            }
        }
    }
}

/// A byte range selects the bytes whose 1-based numbers lie within it, both bounds
/// included, and all bytes where there is none.
pub proof fn law_a_range_selects_its_bytes(range: Option<(u64, u64)>, len: int, i: int)
    requires
        0 <= i < len,
        range matches Some((s, e)) ==> 0 < s,
    ensures
        ({
            let (start, end) = byte_selection(range, len);
            &&& 0 <= start <= len && 0 <= end <= len
            &&& (start <= i < end) == (match range {
                Some((s, e)) => s <= i + 1 <= e,
                None => true,
            })
        }),
{
}

proof fn lemma_numeral_trimmed(n: nat)
    ensures
        trimmed(dec(n)) == dec(n),
        !dec(n).contains('-'),
        !dec(n).contains(':'),
        !has_prefix(dec(n), "0x"@),
        !has_prefix(dec(n), "0X"@),
{
    law_numerals_stand_for_their_number(n, n);
    let d = dec(n);
    assert('0' <= d[0] <= '9' && '0' <= d[d.len() - 1] <= '9');
    law_trimming_keeps_trimmed_text(d);
    reveal_strlit("0x");
    reveal_strlit("0X");
    if has_prefix(d, "0x"@) {
        assert(d.take(2)[1] == "0x"@[1]);
        assert('0' <= d[1] <= '9');
    }
    if has_prefix(d, "0X"@) {
        assert(d.take(2)[1] == "0X"@[1]);
        assert('0' <= d[1] <= '9');
    }
}

/// The words for a range of lines: the numerals of its bounds with `-` between them, or one
/// numeral for a single line. A range that begins behind its end, and line zero, are
/// refused.
pub proof fn law_line_ranges_as_text(a: usize, b: usize)
    ensures
        0 < a <= b ==> lines_arg(dec(a as nat) + seq!['-'] + dec(b as nat)) == Ok::<
            (usize, usize),
            Seq<char>,
        >((a, b)),
        !(0 < a <= b) ==> lines_arg(dec(a as nat) + seq!['-'] + dec(b as nat)) is Err,
        0 < a ==> lines_arg(dec(a as nat)) == Ok::<(usize, usize), Seq<char>>((a, a)),
        lines_arg(dec(0)) is Err,
{
    law_numerals_stand_for_their_number(a as nat, usize::MAX as nat);
    law_numerals_stand_for_their_number(b as nat, usize::MAX as nat);
    law_numerals_stand_for_their_number(0, usize::MAX as nat);
    lemma_numeral_trimmed(a as nat);
    lemma_numeral_trimmed(b as nat);
    lemma_numeral_trimmed(0);
    law_split_finds_the_parts(dec(a as nat), '-', dec(b as nat));
    law_split_loses_nothing(dec(a as nat), '-');
    law_split_loses_nothing(dec(0), '-');
}

/// The words for a range of bytes, likewise.
pub proof fn law_byte_ranges_as_text(a: u64, b: u64)
    ensures
        0 < a <= b ==> bytes_arg(dec(a as nat) + seq!['-'] + dec(b as nat)) == Ok::<
            (u64, u64),
            Seq<char>,
        >((a, b)),
        !(0 < a <= b) ==> bytes_arg(dec(a as nat) + seq!['-'] + dec(b as nat)) is Err,
        0 < a ==> bytes_arg(dec(a as nat)) == Ok::<(u64, u64), Seq<char>>((a, a)),
        bytes_arg(dec(0)) is Err,
{
    law_numerals_stand_for_their_number(a as nat, u64::MAX as nat);
    law_numerals_stand_for_their_number(b as nat, u64::MAX as nat);
    law_numerals_stand_for_their_number(0, u64::MAX as nat);
    lemma_numeral_trimmed(a as nat);
    lemma_numeral_trimmed(b as nat);
    lemma_numeral_trimmed(0);
    law_split_finds_the_parts(dec(a as nat), '-', dec(b as nat));
    law_split_loses_nothing(dec(a as nat), '-');
    law_split_loses_nothing(dec(0), '-');
}

/// The words for a checksum: the algorithm, a colon, and the 0-based bounds with `-` between
/// them, where `$` stands for the end of the file.
pub proof fn law_checksums_as_text(a: u64, b: u64)
    ensures
        hash_arg("md5"@ + seq![':'] + (dec(a as nat) + seq!['-'] + dec(b as nat))) == Ok::<
            HashSpec,
            Seq<char>,
        >(HashSpec { algo: HashAlgo::Md5, start: a, end: HashRangeEnd::Absolute(b) }),
        hash_arg("crc32"@ + seq![':'] + (dec(a as nat) + seq!['-'] + dec(b as nat))) == Ok::<
            HashSpec,
            Seq<char>,
        >(HashSpec { algo: HashAlgo::Crc32, start: a, end: HashRangeEnd::Absolute(b) }),
        hash_arg("md5"@ + seq![':'] + (dec(a as nat) + seq!['-'] + "$"@)) == Ok::<
            HashSpec,
            Seq<char>,
        >(HashSpec { algo: HashAlgo::Md5, start: a, end: HashRangeEnd::Eof }),
{
    reveal_strlit("md5");
    reveal_strlit("crc32");
    reveal_strlit("$");
    reveal_strlit("eof");
    law_numerals_stand_for_their_number(a as nat, u64::MAX as nat);
    law_numerals_stand_for_their_number(b as nat, u64::MAX as nat);
    lemma_numeral_trimmed(a as nat);
    lemma_numeral_trimmed(b as nat);
    let (da, db) = (dec(a as nat), dec(b as nat));
    assert(!is_eof_word(db)) by {
        if lower_text(db) == "eof"@ {
            assert(lower_text(db)[0] == lower(db[0]));
        }
        assert(db[0] != '$');
    }
    law_split_finds_the_parts(da, '-', db);
    law_split_finds_the_parts(da, '-', "$"@);
    law_split_finds_the_parts("md5"@, ':', da + seq!['-'] + db);
    law_split_finds_the_parts("crc32"@, ':', da + seq!['-'] + db);
    law_split_finds_the_parts("md5"@, ':', da + seq!['-'] + "$"@);
    assert("md5"@.len() != "crc32"@.len());
    law_trimming_keeps_trimmed_text("md5"@);
    law_trimming_keeps_trimmed_text("crc32"@);
    law_trimming_keeps_trimmed_text("$"@);
}

/// A checksum is that of the bytes in its range alone: what stands around them does not
/// count. It can be computed exactly where the range lies within the file and does not
/// begin behind its end.
pub proof fn law_checksums_are_of_the_range(
    bytes: Seq<u8>,
    part: ComputedHash,
    spec: HashSpec,
    whole: ComputedHash,
)
    requires
        hash_failure(spec, bytes.len()) is None,
        is_hash(part, spec, bytes),
        is_hash(
            whole,
            HashSpec { algo: spec.algo, start: 0, end: HashRangeEnd::Eof },
            bytes.subrange(spec.start as int, part.resolved_end as int),
        ),
    ensures
        part.hex_value@ == whole.hex_value@,
        part.start == spec.start,
        spec.end matches HashRangeEnd::Absolute(e) ==> part.resolved_end == e,
        spec.end is Eof ==> part.resolved_end == bytes.len(),
        part.start <= part.resolved_end <= bytes.len(),
{
    let t = bytes.subrange(spec.start as int, part.resolved_end as int);
    assert(t.subrange(0, t.len() as int) =~= t);
}

/// Checksums are refused where, and only where, some range begins behind its end or ends
/// behind the end of the file.
pub proof fn law_checksums_are_refused_out_of_range(specs: Seq<HashSpec>, len: nat, i: int)
    requires
        0 <= i,
    ensures
        first_hash_failure(specs, len, i) is None <==> forall|k: int|
            i <= k < specs.len() ==> ({
                let end = match (#[trigger] specs[k]).end {
                    HashRangeEnd::Absolute(e) => e as nat,
                    HashRangeEnd::Eof => len,
                };
                specs[k].start <= end <= len
            }),
    decreases specs.len() - i,
{
    if i < specs.len() {
        law_checksums_are_refused_out_of_range(specs, len, i + 1);
    }
}

/// A byte-order mark is shown where the output becomes UTF-8 and the policy asks for one: always
/// where it is forced, and where the file has one if it is to be preserved. It stands before the
/// text.
pub proof fn law_marks_are_shown_on_request(policy: BomPolicy, had_bom: bool, text: Seq<char>)
    ensures
        !bom_wanted(OutputEncoding::Preserve, policy, had_bom),
        bom_wanted(OutputEncoding::Utf8, BomPolicy::Force, had_bom),
        bom_wanted(OutputEncoding::Utf8, BomPolicy::Preserve, had_bom) == had_bom,
        !bom_wanted(OutputEncoding::Utf8, BomPolicy::Strip, had_bom),
        with_bom(true, text) == seq![0xEFu8, 0xBBu8, 0xBFu8] + encode_utf8(text),
        with_bom(false, text) == encode_utf8(text),
{
    assert(Seq::<u8>::empty() + encode_utf8(text) =~= encode_utf8(text));
}

} // verus!
