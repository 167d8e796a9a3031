//! Output encodings, byte-order marks and line endings.
//!
//! Line endings are rewritten in a file's native bytes, without decoding: the
//! byte-order mark and every byte that belongs to no line ending stay as they
//! are, and UTF-16 code units stay aligned.

use vstd::prelude::*;
use vstd::string::*;
use vstd::utf8::*;

use crate::source::bom_length;
use crate::text::{chars_of, format_str_debug, outcome, same, str_debug};

verus! {

/// A line-ending convention.
#[derive(Debug, Clone, Copy, PartialEq, Eq, Structural)]
pub enum LineEnding {
    /// A single line feed.
    Lf,
    /// A carriage return followed by a line feed.
    CrLf,
    /// A single carriage return.
    Cr,
}

/// Whether a subcommand should re-encode output as UTF-8.
#[derive(Debug, Clone, Copy, PartialEq, Eq, Structural)]
pub enum OutputEncoding {
    /// Keep the source file's encoding unchanged (default).
    Preserve,
    /// Re-encode output as UTF-8.
    Utf8,
}

impl Default for OutputEncoding {
    fn default() -> (r: Self)
        ensures
            r == OutputEncoding::Preserve,
    {
        OutputEncoding::Preserve
    }
}

/// How to handle the UTF-8 byte-order mark when output is re-encoded as UTF-8.
#[derive(Debug, Clone, Copy, PartialEq, Eq, Structural)]
pub enum BomPolicy {
    /// Do not write a byte-order mark (default).
    Strip,
    /// Write a byte-order mark only if the source contained one.
    Preserve,
    /// Always write a byte-order mark.
    Force,
}

impl Default for BomPolicy {
    fn default() -> (r: Self)
        ensures
            r == BomPolicy::Strip,
    {
        BomPolicy::Strip
    }
}

/// The byte-order mark in UTF-8.
pub const UTF8_BOM: &'static [u8; 3] = &[0xEF, 0xBB, 0xBF];

/// Decide whether a byte-order mark should be written: only when the output is
/// re-encoded as UTF-8, and then as the policy says.
pub fn should_write_bom(
    output_encoding: OutputEncoding,
    bom_policy: BomPolicy,
    source_had_bom: bool,
) -> (r: bool)
    ensures
        r == (output_encoding == OutputEncoding::Utf8 && match bom_policy {
            BomPolicy::Strip => false,
            BomPolicy::Preserve => source_had_bom,
            BomPolicy::Force => true,
        }),
{
    if output_encoding != OutputEncoding::Utf8 {
        return false;
    }
    match bom_policy {
        BomPolicy::Strip => false,
        BomPolicy::Preserve => source_had_bom,
        BomPolicy::Force => true,
    }
}

impl BomPolicy {
    /// The policy with the given name, or the message of the error.
    pub open spec fn named(s: Seq<char>) -> Result<BomPolicy, Seq<char>> {
        if s == "strip"@ {
            Ok(BomPolicy::Strip)
        } else if s == "preserve"@ {
            Ok(BomPolicy::Preserve)
        } else if s == "force"@ {
            Ok(BomPolicy::Force)
        } else {
            Err("invalid --bom value "@ + str_debug(s) + ": expected strip, preserve, or force"@)
        }
    }

    /// The policy with the given name.
    pub fn from_name(s: &str) -> (r: Result<BomPolicy, String>)
        ensures
            outcome(r) == BomPolicy::named(s@),
    {
        if same(s, "strip") {
            Ok(BomPolicy::Strip)
        } else if same(s, "preserve") {
            Ok(BomPolicy::Preserve)
        } else if same(s, "force") {
            Ok(BomPolicy::Force)
        } else {
            let mut m = "invalid --bom value ".to_owned();
            m.push_str(format_str_debug(s).as_str());
            m.push_str(": expected strip, preserve, or force");
            Err(m)
        }
    }
}

impl core::str::FromStr for BomPolicy {
    type Err = String;

    fn from_str(s: &str) -> Result<Self, Self::Err> {
        BomPolicy::from_name(s)
    }
}

impl LineEnding {
    /// The line ending with the given name, or the message of the error.
    pub open spec fn named(s: Seq<char>) -> Result<LineEnding, Seq<char>> {
        if s == "lf"@ {
            Ok(LineEnding::Lf)
        } else if s == "crlf"@ {
            Ok(LineEnding::CrLf)
        } else if s == "cr"@ {
            Ok(LineEnding::Cr)
        } else {
            Err(
                "unrecognised line-ending value "@ + str_debug(s)
                    + "; expected lf, crlf, or cr"@,
            )
        }
    }
}

/// Parse a line-ending name.
pub fn parse_line_ending(s: &str) -> (r: Result<LineEnding, String>)
    ensures
        outcome(r) == LineEnding::named(s@),
{
    if same(s, "lf") {
        Ok(LineEnding::Lf)
    } else if same(s, "crlf") {
        Ok(LineEnding::CrLf)
    } else if same(s, "cr") {
        Ok(LineEnding::Cr)
    } else {
        let mut m = "unrecognised line-ending value ".to_owned();
        m.push_str(format_str_debug(s).as_str());
        m.push_str("; expected lf, crlf, or cr");
        Err(m)
    }
}

// ── Line endings in native bytes ────────────────────────────────────────────

/// A byte stream with every CR LF and every other CR replaced by LF.
pub open spec fn to_lf(s: Seq<u8>) -> Seq<u8>
    decreases s.len(),
{
    if s.len() == 0 {
        seq![]
    } else if s[0] == 0x0D && s.len() > 1 && s[1] == 0x0A {
        seq![0x0Au8] + to_lf(s.skip(2))
    } else if s[0] == 0x0D {
        seq![0x0Au8] + to_lf(s.skip(1))
    } else {
        seq![s[0]] + to_lf(s.skip(1))
    }
}

/// A byte stream holds line endings of one kind alone.
pub open spec fn only_ending(s: Seq<u8>, e: LineEnding) -> bool {
    match e {
        LineEnding::Lf => forall|i: int| 0 <= i < s.len() ==> #[trigger] s[i] != 0x0D,
        LineEnding::CrLf => {
            &&& forall|i: int|
                0 <= i < s.len() && #[trigger] s[i] == 0x0D ==> i + 1 < s.len() && s[i + 1] == 0x0A
            &&& forall|i: int|
                0 <= i < s.len() && #[trigger] s[i] == 0x0A ==> i > 0 && s[i - 1] == 0x0D
        },
        LineEnding::Cr => forall|i: int| 0 <= i < s.len() ==> #[trigger] s[i] != 0x0A,
    }
}

/// A byte stream with every LF replaced by CR LF.
pub open spec fn lf_to_crlf(s: Seq<u8>) -> Seq<u8>
    decreases s.len(),
{
    if s.len() == 0 {
        seq![]
    } else if s[0] == 0x0A {
        seq![0x0Du8, 0x0Au8] + lf_to_crlf(s.skip(1))
    } else {
        seq![s[0]] + lf_to_crlf(s.skip(1))
    }
}

/// A byte stream with every LF replaced by CR.
pub open spec fn lf_to_cr(s: Seq<u8>) -> Seq<u8> {
    s.map_values(|b: u8| if b == 0x0A { 0x0Du8 } else { b })
}

/// A stream of two-byte units with every unit `needle` replaced; an odd last
/// byte stays.
pub open spec fn replace_units(s: Seq<u8>, needle: Seq<u8>, replacement: Seq<u8>) -> Seq<u8>
    decreases s.len(),
{
    if s.len() < 2 {
        s
    } else if s[0] == needle[0] && s[1] == needle[1] {
        replacement + replace_units(s.skip(2), needle, replacement)
    } else {
        s.take(2) + replace_units(s.skip(2), needle, replacement)
    }
}

/// A stream of two-byte units with every unit `cr`, together with a unit `lf`
/// that follows it, replaced by the unit `lf`; an odd last byte stays.
pub open spec fn units_to_lf(s: Seq<u8>, cr: Seq<u8>, lf: Seq<u8>) -> Seq<u8>
    decreases s.len(),
{
    if s.len() < 2 {
        s
    } else if s[0] == cr[0] && s[1] == cr[1] {
        if s.len() >= 4 && s[2] == lf[0] && s[3] == lf[1] {
            lf + units_to_lf(s.skip(4), cr, lf)
        } else {
            lf + units_to_lf(s.skip(2), cr, lf)
        }
    } else {
        s.take(2) + units_to_lf(s.skip(2), cr, lf)
    }
}

/// Normalise CR LF and lone CR endings to LF in a single-byte or UTF-8 stream.
pub fn normalize_bytes_to_lf(bytes: &[u8]) -> (r: Vec<u8>)
    ensures
        r@ == to_lf(bytes@),
{
    let mut out: Vec<u8> = Vec::new();
    let mut i: usize = 0;
    let len: usize = bytes.len();
    proof {
        assert(bytes@.skip(0) =~= bytes@);
    }
    while i < len
        invariant
            len == bytes@.len(),
            i <= len,
            out@ + to_lf(bytes@.skip(i as int)) =~= to_lf(bytes@),
        decreases len - i,
    {
        proof {
            assert(bytes@.skip(i as int).skip(1) =~= bytes@.skip(i + 1));
            if i + 1 < len {
                assert(bytes@.skip(i as int).skip(2) =~= bytes@.skip(i + 2));
            }
        }
        let b: u8 = bytes[i];
        if b == 0x0D {
            out.push(0x0A);
            if len - i > 1 && bytes[i + 1] == 0x0A {
                i = i + 2;
            } else {
                i = i + 1;
            }
        } else {
            out.push(b);
            i = i + 1;
        }
    }
    out
}

/// Insert CR before each LF of a single-byte or UTF-8 stream.
pub fn insert_cr_before_lf(bytes: &[u8]) -> (r: Vec<u8>)
    ensures
        r@ == lf_to_crlf(bytes@),
{
    let mut out: Vec<u8> = Vec::new();
    let mut i: usize = 0;
    proof {
        assert(bytes@.skip(0) =~= bytes@);
    }
    while i < bytes.len()
        invariant
            i <= bytes@.len(),
            out@ + lf_to_crlf(bytes@.skip(i as int)) =~= lf_to_crlf(bytes@),
        decreases bytes@.len() - i,
    {
        proof {
            assert(bytes@.skip(i as int).skip(1) =~= bytes@.skip(i + 1));
        }
        if bytes[i] == 0x0A {
            out.push(0x0D);
        }
        out.push(bytes[i]);
        i = i + 1;
    }
    out
}

/// Replace each LF of a single-byte or UTF-8 stream by CR.
pub fn replace_lf_by_cr(bytes: &[u8]) -> (r: Vec<u8>)
    ensures
        r@ == lf_to_cr(bytes@),
{
    let mut out: Vec<u8> = Vec::new();
    let mut i: usize = 0;
    while i < bytes.len()
        invariant
            i <= bytes@.len(),
            out@ =~= lf_to_cr(bytes@.take(i as int)),
        decreases bytes@.len() - i,
    {
        let b: u8 = bytes[i];
        out.push(if b == 0x0A { 0x0D } else { b });
        i = i + 1;
    }
    proof {
        assert(bytes@.take(i as int) =~= bytes@);
    }
    out
}

/// Replace every two-byte unit `needle`, on unit boundaries only.
pub fn replace_u16_pairs(bytes: &[u8], needle: [u8; 2], replacement: &[u8]) -> (r: Vec<u8>)
    ensures
        r@ == replace_units(bytes@, needle@, replacement@),
{
    let mut out: Vec<u8> = Vec::new();
    let mut i: usize = 0;
    let len: usize = bytes.len();
    proof {
        assert(bytes@.skip(0) =~= bytes@);
    }
    while len - i >= 2
        invariant
            len == bytes@.len(),
            i <= len,
            out@ + replace_units(bytes@.skip(i as int), needle@, replacement@) =~= replace_units(
                bytes@,
                needle@,
                replacement@,
            ),
        decreases len - i,
    {
        proof {
            assert(bytes@.skip(i as int).skip(2) =~= bytes@.skip(i + 2));
            assert(bytes@.skip(i as int).take(2) =~= seq![bytes@[i as int], bytes@[i + 1]]);
        }
        if bytes[i] == needle[0] && bytes[i + 1] == needle[1] {
            out.extend_from_slice(replacement);
        } else {
            out.push(bytes[i]);
            out.push(bytes[i + 1]);
        }
        i = i + 2;
    }
    if i < len {
        out.push(bytes[i]);
    }
    out
}

/// Normalise CR LF and lone CR endings to LF in a stream of two-byte units.
pub fn normalize_u16_to_lf(bytes: &[u8], cr: [u8; 2], lf: [u8; 2]) -> (r: Vec<u8>)
    ensures
        r@ == units_to_lf(bytes@, cr@, lf@),
{
    let mut out: Vec<u8> = Vec::new();
    let mut i: usize = 0;
    let len: usize = bytes.len();
    proof {
        assert(bytes@.skip(0) =~= bytes@);
    }
    while len - i >= 2
        invariant
            len == bytes@.len(),
            i <= len,
            out@ + units_to_lf(bytes@.skip(i as int), cr@, lf@) =~= units_to_lf(bytes@, cr@, lf@),
        decreases len - i,
    {
        proof {
            assert(bytes@.skip(i as int).skip(2) =~= bytes@.skip(i + 2));
            assert(bytes@.skip(i as int).take(2) =~= seq![bytes@[i as int], bytes@[i + 1]]);
            if i + 4 <= len {
                assert(bytes@.skip(i as int).skip(4) =~= bytes@.skip(i + 4));
            }
            assert(lf@ =~= seq![lf[0], lf[1]]);
        }
        if bytes[i] == cr[0] && bytes[i + 1] == cr[1] {
            out.push(lf[0]);
            out.push(lf[1]);
            if len - i >= 4 && bytes[i + 2] == lf[0] && bytes[i + 3] == lf[1] {
                i = i + 4;
            } else {
                i = i + 2;
            }
        } else {
            out.push(bytes[i]);
            out.push(bytes[i + 1]);
            i = i + 2;
        }
    }
    if i < len {
        out.push(bytes[i]);
    }
    out
}

// ── Text encodings ──────────────────────────────────────────────────────────

/// The encoding of a text file. UTF-16 has no encoder of its own in
/// `encoding_rs`, so it stands apart from the encodings known by name alone.
#[derive(Debug)]
pub enum TextEncoding {
    /// UTF-8.
    Utf8,
    /// UTF-16, low byte first.
    Utf16Le,
    /// UTF-16, high byte first.
    Utf16Be,
    /// Any other encoding of the WHATWG Encoding Standard, by its name there.
    Legacy(String),
}

impl Clone for TextEncoding {
    fn clone(&self) -> (r: Self)
        ensures
            r@ == self@,
    {
        match self {
            TextEncoding::Utf8 => TextEncoding::Utf8,
            TextEncoding::Utf16Le => TextEncoding::Utf16Le,
            TextEncoding::Utf16Be => TextEncoding::Utf16Be,
            TextEncoding::Legacy(name) => TextEncoding::Legacy(name.clone()),
        }
    }
}

/// The abstract value of a [`TextEncoding`].
pub enum EncodingKind {
    /// UTF-8.
    Utf8,
    /// UTF-16, low byte first.
    Utf16Le,
    /// UTF-16, high byte first.
    Utf16Be,
    /// Any other encoding, by name.
    Legacy(Seq<char>),
}

impl View for TextEncoding {
    type V = EncodingKind;

    open spec fn view(&self) -> EncodingKind {
        match self {
            TextEncoding::Utf8 => EncodingKind::Utf8,
            TextEncoding::Utf16Le => EncodingKind::Utf16Le,
            TextEncoding::Utf16Be => EncodingKind::Utf16Be,
            TextEncoding::Legacy(name) => EncodingKind::Legacy(name@),
        }
    }
}

impl EncodingKind {
    /// The WHATWG name of the encoding.
    pub open spec fn name(self) -> Seq<char> {
        match self {
            EncodingKind::Utf8 => "UTF-8"@,
            EncodingKind::Utf16Le => "UTF-16LE"@,
            EncodingKind::Utf16Be => "UTF-16BE"@,
            EncodingKind::Legacy(name) => name,
        }
    }

    /// The encoding with the given WHATWG name.
    pub open spec fn of_name(name: Seq<char>) -> EncodingKind {
        if name == "UTF-8"@ {
            EncodingKind::Utf8
        } else if name == "UTF-16LE"@ {
            EncodingKind::Utf16Le
        } else if name == "UTF-16BE"@ {
            EncodingKind::Utf16Be
        } else {
            EncodingKind::Legacy(name)
        }
    }

    /// The bytes of a byte-order mark in this encoding; empty where it has none.
    pub open spec fn bom(self) -> Seq<u8> {
        match self {
            EncodingKind::Utf8 => seq![0xEFu8, 0xBBu8, 0xBFu8],
            EncodingKind::Utf16Le => seq![0xFFu8, 0xFEu8],
            EncodingKind::Utf16Be => seq![0xFEu8, 0xFFu8],
            EncodingKind::Legacy(_) => seq![],
        }
    }
}

impl TextEncoding {
    /// The WHATWG name of the encoding.
    pub fn name(&self) -> (r: &str)
        ensures
            r@ == self@.name(),
    {
        match self {
            TextEncoding::Utf8 => "UTF-8",
            TextEncoding::Utf16Le => "UTF-16LE",
            TextEncoding::Utf16Be => "UTF-16BE",
            TextEncoding::Legacy(name) => name.as_str(),
        }
    }

    /// The encoding with the given WHATWG name.
    pub fn of_name(name: &str) -> (r: TextEncoding)
        ensures
            r@ == EncodingKind::of_name(name@),
    {
        if same(name, "UTF-8") {
            TextEncoding::Utf8
        } else if same(name, "UTF-16LE") {
            TextEncoding::Utf16Le
        } else if same(name, "UTF-16BE") {
            TextEncoding::Utf16Be
        } else {
            TextEncoding::Legacy(name.to_owned())
        }
    }
}

/// The byte-order mark of `encoding`; empty where it has none.
pub fn bom_bytes_for(encoding: &TextEncoding) -> (r: Vec<u8>)
    ensures
        r@ == encoding@.bom(),
{
    let r: Vec<u8> = match encoding {
        TextEncoding::Utf8 => vec![0xEF, 0xBB, 0xBF],
        TextEncoding::Utf16Le => vec![0xFF, 0xFE],
        TextEncoding::Utf16Be => vec![0xFE, 0xFF],
        TextEncoding::Legacy(_) => Vec::new(),
    };
    proof {
        assert(r@ =~= encoding@.bom());
    }
    r
}

/// The two bytes of a UTF-16 code unit.
pub open spec fn unit_bytes(unit: int, big: bool) -> Seq<u8> {
    if big {
        seq![(unit / 256) as u8, (unit % 256) as u8]
    } else {
        seq![(unit % 256) as u8, (unit / 256) as u8]
    }
}

/// The UTF-16 bytes of a character: one code unit, or a surrogate pair.
pub open spec fn char_utf16(c: char, big: bool) -> Seq<u8> {
    let v = c as int;
    if v < 0x10000 {
        unit_bytes(v, big)
    } else {
        unit_bytes(0xD800 + (v - 0x10000) / 0x400, big) + unit_bytes(
            0xDC00 + (v - 0x10000) % 0x400,
            big,
        )
    }
}

/// The UTF-16 bytes of a text.
pub open spec fn text_utf16(s: Seq<char>, big: bool) -> Seq<u8>
    decreases s.len(),
{
    if s.len() == 0 {
        seq![]
    } else {
        char_utf16(s[0], big) + text_utf16(s.drop_first(), big)
    }
}

fn push_unit(out: &mut Vec<u8>, unit: u32, big: bool)
    requires
        unit < 0x10000,
    ensures
        final(out)@ =~= old(out)@ + unit_bytes(unit as int, big),
{
    if big {
        out.push((unit / 256) as u8);
        out.push((unit % 256) as u8);
    } else {
        out.push((unit % 256) as u8);
        out.push((unit / 256) as u8);
    }
}

fn push_char_utf16(out: &mut Vec<u8>, c: char, big: bool)
    ensures
        final(out)@ =~= old(out)@ + char_utf16(c, big),
{
    let v: u32 = c as u32;
    if v < 0x10000 {
        push_unit(out, v, big);
    } else {
        let w: u32 = v - 0x10000;
        push_unit(out, 0xD800 + w / 0x400, big);
        push_unit(out, 0xDC00 + w % 0x400, big);
    }
}

/// Encode a text as UTF-16.
pub fn encode_utf16(text: &str, big: bool) -> (r: Vec<u8>)
    ensures
        r@ == text_utf16(text@, big),
{
    let mut out: Vec<u8> = Vec::new();
    proof {
        assert(text@.skip(0) =~= text@);
    }
    for c in it: text.chars()
        invariant
            it.seq() == text@,
            out@ + text_utf16(text@.skip(it.index()), big) =~= text_utf16(text@, big),
    {
        proof {
            let rest = text@.skip(it.index());
            assert(rest[0] == c);
            assert(rest.drop_first() =~= text@.skip(it.index() + 1));
        }
        let ghost before = out@;
        push_char_utf16(&mut out, c, big);
        proof {
            assert(out@ =~= before + char_utf16(c, big));
        }
    }
    out
}

/// There is an encoding of the given label, by `Encoding::for_label`.
pub uninterp spec fn whatwg_known(label: Seq<char>) -> bool;

/// An encoding is one that there is.
pub open spec fn is_known(encoding: EncodingKind) -> bool {
    encoding matches EncodingKind::Legacy(name) ==> whatwg_known(name)
}

/// What `encoding_rs` encodes a text to in the encoding of the given label, and
/// whether characters had to be replaced; `None` where there is no such label.
pub uninterp spec fn whatwg_encoded(label: Seq<char>, text: Seq<char>) -> Option<
    (Seq<u8>, bool),
>;

/// `Encoding::for_label` finds the encoding, and `Encoding::encode` encodes the
/// text in it, with unmappable characters replaced by numeric character
/// references and reported. Both are functions of their arguments; of the bytes
/// nothing more is claimed.
#[verifier::external_body]
fn encode_whatwg(label: &str, text: &str) -> (r: Option<(Vec<u8>, bool)>)
    ensures
        match r {
            Some((bytes, replaced)) => whatwg_encoded(label@, text@) == Some((bytes@, replaced)),
            None => whatwg_encoded(label@, text@) is None,
        },
        r is Some == whatwg_known(label@),
{
    let encoding = encoding_rs::Encoding::for_label(label.as_bytes())?;
    let (bytes, _, replaced) = encoding.encode(text);
    Some((bytes.into_owned(), replaced))
}

/// What `encoding_rs` decodes bytes to in the encoding of the given label, and
/// whether they were malformed; `None` where there is no such label.
pub uninterp spec fn whatwg_decoded(label: Seq<char>, bytes: Seq<u8>) -> Option<
    (Seq<char>, bool),
>;

/// A decoding result that holds the text of valid UTF-8, and reports everything
/// else as malformed.
pub open spec fn reads_as_utf8(r: Option<(String, bool)>, bytes: Seq<u8>) -> bool {
    match r {
        Some((text, malformed)) => malformed == !valid_utf8(bytes) && (!malformed ==> text@
            == decode_utf8(bytes)),
        None => false,
    }
}

/// A decoding result that holds the text whose UTF-16 bytes were given.
pub open spec fn reads_as_utf16(r: Option<(String, bool)>, bytes: Seq<u8>, big: bool) -> bool {
    match r {
        Some((decoded, malformed)) => forall|text: Seq<char>|
            bytes == #[trigger] text_utf16(text, big) ==> decoded@ == text && !malformed,
        None => false,
    }
}

/// A decoding result that holds the text which was encoded to the given bytes without
/// replacements.
pub open spec fn reads_as_encoded(
    r: Option<(String, bool)>,
    label: Seq<char>,
    bytes: Seq<u8>,
) -> bool {
    forall|text: Seq<char>| #[trigger]
        whatwg_encoded(label, text) == Some((bytes, false)) ==> (r matches Some((decoded, malformed))
            && decoded@ == text && !malformed)
}

/// `Encoding::for_label` finds the encoding, and
/// `Encoding::decode_without_bom_handling` decodes all of `bytes` in it, with
/// malformed sequences replaced and reported. Of UTF-8 it is claimed that
/// exactly the valid byte strings are free of malformed sequences and decode to
/// their text; of UTF-16, that the bytes of a text decode to that text; of windows-1252,
/// that what a text was encoded to without replacements decodes to that text.
#[verifier::external_body]
fn decode_whatwg(label: &str, bytes: &[u8]) -> (r: Option<(String, bool)>)
    ensures
        match r {
            Some((text, malformed)) => whatwg_decoded(label@, bytes@) == Some((text@, malformed)),
            None => whatwg_decoded(label@, bytes@) is None,
        },
        label@ == "UTF-8"@ ==> reads_as_utf8(r, bytes@),
        label@ == "UTF-16LE"@ ==> reads_as_utf16(r, bytes@, false),
        label@ == "UTF-16BE"@ ==> reads_as_utf16(r, bytes@, true),
        label@ == "windows-1252"@ ==> reads_as_encoded(r, label@, bytes@),
        r is Some == whatwg_known(label@),
{
    let encoding = encoding_rs::Encoding::for_label(label.as_bytes())?;
    let (text, malformed) = encoding.decode_without_bom_handling(bytes);
    Some((text.into_owned(), malformed))
}

/// What `encoding_rs` decodes bytes to in the encoding of the given label, or in
/// the one that a byte-order mark asks for, and whether they were malformed; `None`
/// where there is no such label.
pub uninterp spec fn whatwg_sniffing(label: Seq<char>, bytes: Seq<u8>) -> Option<
    (Seq<char>, bool),
>;

/// The text that bytes decode to with byte-order mark sniffing and malformed sequences
/// replaced; `None` where there is no such encoding.
pub open spec fn whatwg_sniffed(label: Seq<char>, bytes: Seq<u8>) -> Option<Seq<char>> {
    match whatwg_sniffing(label, bytes) {
        Some((text, _)) => Some(text),
        None => None,
    }
}

/// `Encoding::for_label` finds the encoding, and `Encoding::decode` decodes all
/// of `bytes` in it, or in the one that a byte-order mark asks for, which is left out,
/// with malformed sequences replaced and reported. Of UTF-8 without a byte-order mark
/// or behind its own it is claimed that exactly the valid byte strings are free of
/// malformed sequences and decode to their text; and that the labels of UTF-8 and UTF-16
/// are known.
#[verifier::external_body]
fn decode_sniffing(label: &str, bytes: &[u8]) -> (r: Option<(String, bool)>)
    ensures
        match r {
            Some((text, malformed)) => whatwg_sniffing(label@, bytes@) == Some((text@, malformed)),
            None => whatwg_sniffing(label@, bytes@) is None,
        },
        label@ == "UTF-8"@ && bom_length(bytes@) == 0 ==> reads_as_utf8(r, bytes@),
        label@ == "UTF-8"@ && bom_length(bytes@) == 3 ==> reads_as_utf8(r, bytes@.skip(3)),
        label@ == "UTF-8"@ || label@ == "UTF-16LE"@ || label@ == "UTF-16BE"@ ==> r is Some,
        r is Some == whatwg_known(label@),
{
    let encoding = encoding_rs::Encoding::for_label(label.as_bytes())?;
    let (text, _, malformed) = encoding.decode(bytes);
    Some((text.into_owned(), malformed))
}

/// Decode bytes with byte-order mark sniffing and malformed sequences replaced.
pub fn decode_text_lossy(bytes: &[u8], encoding: &TextEncoding) -> (r: Result<String, String>)
    ensures
        match r {
            Ok(text) => whatwg_sniffed(encoding@.name(), bytes@) == Some(text@),
            Err(m) => whatwg_sniffed(encoding@.name(), bytes@) is None && m@
                == unknown_encoding_message(encoding@.name()),
        },
        is_known(encoding@) ==> r is Ok,
{
    match decode_sniffing(encoding.name(), bytes) {
        Some((text, _)) => Ok(text),
        None => Err(unknown_encoding(encoding.name())),
    }
}

/// Decode bytes with byte-order mark sniffing and malformed sequences replaced, and
/// tell whether there were any.
pub fn decode_text_checked(bytes: &[u8], encoding: &TextEncoding) -> (r: Result<
    (String, bool),
    String,
>)
    ensures
        match r {
            Ok((text, malformed)) => whatwg_sniffing(encoding@.name(), bytes@) == Some(
                (text@, malformed),
            ),
            Err(m) => whatwg_sniffing(encoding@.name(), bytes@) is None && m@
                == unknown_encoding_message(encoding@.name()),
        },
        encoding@ is Utf8 && bom_length(bytes@) == 0 ==> r is Ok && r->Ok_0.1 == !valid_utf8(bytes@)
            && (valid_utf8(bytes@) ==> r->Ok_0.0@ == decode_utf8(bytes@)),
        encoding@ is Utf8 && bom_length(bytes@) == 3 ==> r is Ok && r->Ok_0.1 == !valid_utf8(
            bytes@.skip(3),
        ) && (valid_utf8(bytes@.skip(3)) ==> r->Ok_0.0@ == decode_utf8(bytes@.skip(3))),
{
    match decode_sniffing(encoding.name(), bytes) {
        Some(decoded) => Ok(decoded),
        None => Err(unknown_encoding(encoding.name())),
    }
}

/// The message for a label that names no encoding.
pub open spec fn unknown_encoding_message(name: Seq<char>) -> Seq<char> {
    "unknown encoding "@ + name
}

/// The bytes of a text in an encoding, with what cannot be represented replaced;
/// `None` where the encoding is unknown.
pub open spec fn encoded_lossy(text: Seq<char>, encoding: EncodingKind) -> Option<Seq<u8>> {
    match encoding {
        EncodingKind::Utf8 => Some(encode_utf8(text)),
        EncodingKind::Utf16Le => Some(text_utf16(text, false)),
        EncodingKind::Utf16Be => Some(text_utf16(text, true)),
        EncodingKind::Legacy(name) => match whatwg_encoded(name, text) {
            Some((bytes, _)) => Some(bytes),
            None => None,
        },
    }
}

/// The bytes of a text in an encoding, or the message where some character
/// cannot be represented.
pub open spec fn encoded_strict(text: Seq<char>, encoding: EncodingKind) -> Result<
    Seq<u8>,
    Seq<char>,
> {
    match encoding {
        EncodingKind::Utf8 => Ok(encode_utf8(text)),
        EncodingKind::Utf16Le => Ok(text_utf16(text, false)),
        EncodingKind::Utf16Be => Ok(text_utf16(text, true)),
        EncodingKind::Legacy(name) => match whatwg_encoded(name, text) {
            Some((bytes, false)) => Ok(bytes),
            Some((_, true)) => Err(
                "text contains characters that cannot be represented in "@ + name,
            ),
            None => Err(unknown_encoding_message(name)),
        },
    }
}

fn unknown_encoding(name: &str) -> (r: String)
    ensures
        r@ == unknown_encoding_message(name@),
{
    let mut m = "unknown encoding ".to_owned();
    m.push_str(name);
    m
}

fn utf8_bytes(text: &str) -> (r: Vec<u8>)
    ensures
        r@ == encode_utf8(text@),
{
    let mut out: Vec<u8> = Vec::new();
    out.extend_from_slice(text.as_bytes());
    proof {
        assert(out@ =~= encode_utf8(text@));
    }
    out
}

/// Encode a text, with characters that the encoding lacks replaced.
pub fn encode_text_lossy(text: &str, encoding: &TextEncoding) -> (r: Option<Vec<u8>>)
    ensures
        match r {
            Some(bytes) => encoded_lossy(text@, encoding@) == Some(bytes@),
            None => encoded_lossy(text@, encoding@) is None,
        },
        is_known(encoding@) ==> r is Some,
{
    match encoding {
        TextEncoding::Utf8 => Some(utf8_bytes(text)),
        TextEncoding::Utf16Le => Some(encode_utf16(text, false)),
        TextEncoding::Utf16Be => Some(encode_utf16(text, true)),
        TextEncoding::Legacy(name) => match encode_whatwg(name.as_str(), text) {
            Some((bytes, _)) => Some(bytes),
            None => None,
        },
    }
}

/// Encode a text without silently substituting characters.
pub fn encode_text_strict(text: &str, encoding: &TextEncoding) -> (r: Result<Vec<u8>, String>)
    ensures
        match r {
            Ok(bytes) => encoded_strict(text@, encoding@) == Ok::<Seq<u8>, Seq<char>>(bytes@),
            Err(m) => encoded_strict(text@, encoding@) == Err::<Seq<u8>, Seq<char>>(m@),
        },
{
    match encoding {
        TextEncoding::Utf8 => Ok(utf8_bytes(text)),
        TextEncoding::Utf16Le => Ok(encode_utf16(text, false)),
        TextEncoding::Utf16Be => Ok(encode_utf16(text, true)),
        TextEncoding::Legacy(name) => match encode_whatwg(name.as_str(), text) {
            Some((bytes, replaced)) => {
                if replaced {
                    let mut m = "text contains characters that cannot be represented in ".to_owned();
                    m.push_str(name.as_str());
                    Err(m)
                } else {
                    Ok(bytes)
                }
            },
            None => Err(unknown_encoding(name.as_str())),
        },
    }
}

/// The text that bytes hold in an encoding, by `encoding_rs`: `Err` with a
/// message where they are malformed.
pub open spec fn decoded_strict(bytes: Seq<u8>, encoding: EncodingKind) -> Result<
    Seq<char>,
    Seq<char>,
> {
    match whatwg_decoded(encoding.name(), bytes) {
        Some((text, false)) => Ok(text),
        Some((_, true)) => Err("file is not valid "@ + encoding.name()),
        None => Err(unknown_encoding_message(encoding.name())),
    }
}

/// What a text is encoded to decodes to the text: UTF-8, UTF-16 and windows-1252.
pub open spec fn round_trips(encoding: EncodingKind) -> bool {
    match encoding {
        EncodingKind::Legacy(name) => name == "windows-1252"@,
        _ => true,
    }
}

/// Decode bytes after any byte-order mark has been removed, rejecting malformed
/// input. What a text was encoded to gives the text back, where the encoding is one that
/// is known to do so.
pub fn decode_text_strict(bytes: &[u8], encoding: &TextEncoding) -> (r: Result<String, String>)
    ensures
        match r {
            Ok(text) => decoded_strict(bytes@, encoding@) == Ok::<Seq<char>, Seq<char>>(text@),
            Err(m) => decoded_strict(bytes@, encoding@) == Err::<Seq<char>, Seq<char>>(m@),
        },
        encoding@ is Utf8 ==> (r is Ok <==> valid_utf8(bytes@)),
        encoding@ is Utf8 && valid_utf8(bytes@) ==> r->Ok_0@ == decode_utf8(bytes@),
        forall|text: Seq<char>|
            encoding@ is Utf16Le && bytes@ == #[trigger] text_utf16(text, false)
                ==> r is Ok && r->Ok_0@ == text,
        forall|text: Seq<char>|
            encoding@ is Utf16Be && bytes@ == #[trigger] text_utf16(text, true)
                ==> r is Ok && r->Ok_0@ == text,
        forall|text: Seq<char>|
            round_trips(encoding@) && #[trigger] encoded_strict(text, encoding@) == Ok::<
                Seq<u8>,
                Seq<char>,
            >(bytes@) ==> r is Ok && r->Ok_0@ == text,
{
    proof {
        reveal_strlit("UTF-8");
        reveal_strlit("UTF-16LE");
        reveal_strlit("UTF-16BE");
        assert forall|text: Seq<char>| #[trigger]
            encode_utf8(text) == bytes@ implies valid_utf8(bytes@) && decode_utf8(bytes@)
            == text by {
            encode_utf8_valid_utf8(text);
            encode_utf8_decode_utf8(text);
        }
    }
    match decode_whatwg(encoding.name(), bytes) {
        Some((text, malformed)) => {
            if malformed {
                let mut m = "file is not valid ".to_owned();
                m.push_str(encoding.name());
                Err(m)
            } else {
                Ok(text)
            }
        },
        None => Err(unknown_encoding(encoding.name())),
    }
}

/// The text that bytes hold in an encoding, by `encoding_rs`, with malformed
/// sequences replaced.
pub open spec fn decoded_replacing(bytes: Seq<u8>, encoding: EncodingKind) -> Result<
    Seq<char>,
    Seq<char>,
> {
    match whatwg_decoded(encoding.name(), bytes) {
        Some((text, _)) => Ok(text),
        None => Err(unknown_encoding_message(encoding.name())),
    }
}

/// Decode bytes after any byte-order mark has been removed, with malformed
/// sequences replaced.
pub fn decode_text_replacing(bytes: &[u8], encoding: &TextEncoding) -> (r: Result<String, String>)
    ensures
        match r {
            Ok(text) => decoded_replacing(bytes@, encoding@) == Ok::<Seq<char>, Seq<char>>(text@),
            Err(m) => decoded_replacing(bytes@, encoding@) == Err::<Seq<char>, Seq<char>>(m@),
        },
        is_known(encoding@) ==> r is Ok,
        encoding@ is Utf8 && valid_utf8(bytes@) ==> r is Ok && r->Ok_0@ == decode_utf8(bytes@),
        forall|text: Seq<char>|
            encoding@ is Utf16Le && bytes@ == #[trigger] text_utf16(text, false)
                ==> r is Ok && r->Ok_0@ == text,
        forall|text: Seq<char>|
            encoding@ is Utf16Be && bytes@ == #[trigger] text_utf16(text, true)
                ==> r is Ok && r->Ok_0@ == text,
{
    match decode_whatwg(encoding.name(), bytes) {
        Some((text, _)) => Ok(text),
        None => Err(unknown_encoding(encoding.name())),
    }
}

/// A native byte stream with every line ending replaced by LF.
pub open spec fn native_to_lf(s: Seq<u8>, encoding: EncodingKind) -> Seq<u8> {
    match encoding {
        EncodingKind::Utf16Le => units_to_lf(s, seq![0x0Du8, 0x00u8], seq![0x0Au8, 0x00u8]),
        EncodingKind::Utf16Be => units_to_lf(s, seq![0x00u8, 0x0Du8], seq![0x00u8, 0x0Au8]),
        _ => to_lf(s),
    }
}

/// A native byte stream with every LF replaced by the line ending `target`.
pub open spec fn native_lf_to(s: Seq<u8>, encoding: EncodingKind, target: LineEnding) -> Seq<u8> {
    match (encoding, target) {
        (_, LineEnding::Lf) => s,
        (EncodingKind::Utf16Le, LineEnding::CrLf) => replace_units(
            s,
            seq![0x0Au8, 0x00u8],
            seq![0x0Du8, 0x00u8, 0x0Au8, 0x00u8],
        ),
        (EncodingKind::Utf16Be, LineEnding::CrLf) => replace_units(
            s,
            seq![0x00u8, 0x0Au8],
            seq![0x00u8, 0x0Du8, 0x00u8, 0x0Au8],
        ),
        (_, LineEnding::CrLf) => lf_to_crlf(s),
        (EncodingKind::Utf16Le, LineEnding::Cr) => replace_units(
            s,
            seq![0x0Au8, 0x00u8],
            seq![0x0Du8, 0x00u8],
        ),
        (EncodingKind::Utf16Be, LineEnding::Cr) => replace_units(
            s,
            seq![0x00u8, 0x0Au8],
            seq![0x00u8, 0x0Du8],
        ),
        (_, LineEnding::Cr) => lf_to_cr(s),
    }
}

/// Convert LF-only native bytes to CR LF endings.
pub fn denormalize_lf_to_crlf(bytes: &[u8], encoding: &TextEncoding) -> (r: Vec<u8>)
    ensures
        r@ == native_lf_to(bytes@, encoding@, LineEnding::CrLf),
{
    match encoding {
        TextEncoding::Utf16Le => {
            let with: [u8; 4] = [0x0D, 0x00, 0x0A, 0x00];
            let needle: [u8; 2] = [0x0A, 0x00];
            proof {
                assert(with@ =~= seq![0x0Du8, 0x00u8, 0x0Au8, 0x00u8]);
                assert(needle@ =~= seq![0x0Au8, 0x00u8]);
            }
            replace_u16_pairs(bytes, needle, &with)
        },
        TextEncoding::Utf16Be => {
            let with: [u8; 4] = [0x00, 0x0D, 0x00, 0x0A];
            let needle: [u8; 2] = [0x00, 0x0A];
            proof {
                assert(with@ =~= seq![0x00u8, 0x0Du8, 0x00u8, 0x0Au8]);
                assert(needle@ =~= seq![0x00u8, 0x0Au8]);
            }
            replace_u16_pairs(bytes, needle, &with)
        },
        _ => insert_cr_before_lf(bytes),
    }
}

/// Convert LF-only native bytes to lone CR endings.
pub fn denormalize_lf_to_cr(bytes: &[u8], encoding: &TextEncoding) -> (r: Vec<u8>)
    ensures
        r@ == native_lf_to(bytes@, encoding@, LineEnding::Cr),
{
    match encoding {
        TextEncoding::Utf16Le => {
            let with: [u8; 2] = [0x0D, 0x00];
            let needle: [u8; 2] = [0x0A, 0x00];
            proof {
                assert(with@ =~= seq![0x0Du8, 0x00u8]);
                assert(needle@ =~= seq![0x0Au8, 0x00u8]);
            }
            replace_u16_pairs(bytes, needle, &with)
        },
        TextEncoding::Utf16Be => {
            let with: [u8; 2] = [0x00, 0x0D];
            let needle: [u8; 2] = [0x00, 0x0A];
            proof {
                assert(with@ =~= seq![0x00u8, 0x0Du8]);
                assert(needle@ =~= seq![0x00u8, 0x0Au8]);
            }
            replace_u16_pairs(bytes, needle, &with)
        },
        _ => replace_lf_by_cr(bytes),
    }
}

/// Convert LF-only native bytes to the line ending `target`.
pub fn denormalize_lf(bytes: Vec<u8>, encoding: &TextEncoding, target: LineEnding) -> (r: Vec<u8>)
    ensures
        r@ == native_lf_to(bytes@, encoding@, target),
{
    match target {
        LineEnding::Lf => bytes,
        LineEnding::CrLf => denormalize_lf_to_crlf(bytes.as_slice(), encoding),
        LineEnding::Cr => denormalize_lf_to_cr(bytes.as_slice(), encoding),
    }
}

/// Normalise the line endings of native bytes to LF.
pub fn normalize_native_to_lf(bytes: &[u8], encoding: &TextEncoding) -> (r: Vec<u8>)
    ensures
        r@ == native_to_lf(bytes@, encoding@),
{
    match encoding {
        TextEncoding::Utf16Le => {
            let cr: [u8; 2] = [0x0D, 0x00];
            let lf: [u8; 2] = [0x0A, 0x00];
            proof {
                assert(cr@ =~= seq![0x0Du8, 0x00u8]);
                assert(lf@ =~= seq![0x0Au8, 0x00u8]);
            }
            normalize_u16_to_lf(bytes, cr, lf)
        },
        TextEncoding::Utf16Be => {
            let cr: [u8; 2] = [0x00, 0x0D];
            let lf: [u8; 2] = [0x00, 0x0A];
            proof {
                assert(cr@ =~= seq![0x00u8, 0x0Du8]);
                assert(lf@ =~= seq![0x00u8, 0x0Au8]);
            }
            normalize_u16_to_lf(bytes, cr, lf)
        },
        _ => normalize_bytes_to_lf(bytes),
    }
}

/// Rewrite every line ending of native bytes to `target`.
pub fn apply_line_ending_to_all(
    bytes: Vec<u8>,
    encoding: &TextEncoding,
    target: LineEnding,
) -> (r: Vec<u8>)
    ensures
        r@ == native_lf_to(native_to_lf(bytes@, encoding@), encoding@, target),
{
    let lf = normalize_native_to_lf(bytes.as_slice(), encoding);
    denormalize_lf(lf, encoding, target)
}

// ── Line endings in text ────────────────────────────────────────────────────

/// A text with every CR LF and every other CR replaced by LF.
pub open spec fn text_to_lf(s: Seq<char>) -> Seq<char>
    decreases s.len(),
{
    if s.len() == 0 {
        seq![]
    } else if s[0] == '\r' && s.len() > 1 && s[1] == '\n' {
        seq!['\n'] + text_to_lf(s.skip(2))
    } else if s[0] == '\r' {
        seq!['\n'] + text_to_lf(s.skip(1))
    } else {
        seq![s[0]] + text_to_lf(s.skip(1))
    }
}

/// The characters of a line ending.
pub open spec fn ending_text(e: LineEnding) -> Seq<char> {
    match e {
        LineEnding::Lf => seq!['\n'],
        LineEnding::CrLf => seq!['\r', '\n'],
        LineEnding::Cr => seq!['\r'],
    }
}

/// A text with every LF replaced by the given line ending.
pub open spec fn text_lf_to(s: Seq<char>, target: LineEnding) -> Seq<char>
    decreases s.len(),
{
    if s.len() == 0 {
        seq![]
    } else if s[0] == '\n' {
        ending_text(target) + text_lf_to(s.skip(1), target)
    } else {
        seq![s[0]] + text_lf_to(s.skip(1), target)
    }
}

/// Replace every CR LF and every other CR of a text by LF.
pub fn normalize_text_to_lf(s: &str) -> (r: String)
    ensures
        r@ == text_to_lf(s@),
{
    let v = chars_of(s);
    let mut out = String::new();
    let mut i: usize = 0;
    let len: usize = v.len();
    proof {
        assert(v@.skip(0) =~= v@);
    }
    while i < len
        invariant
            len == v@.len(),
            v@ == s@,
            i <= len,
            out@ + text_to_lf(v@.skip(i as int)) =~= text_to_lf(v@),
        decreases len - i,
    {
        proof {
            assert(v@.skip(i as int).skip(1) =~= v@.skip(i + 1));
            if i + 1 < len {
                assert(v@.skip(i as int).skip(2) =~= v@.skip(i + 2));
            }
        }
        let c: char = v[i];
        if c == '\r' {
            out.push('\n');
            if len - i > 1 && v[i + 1] == '\n' {
                i = i + 2;
            } else {
                i = i + 1;
            }
        } else {
            out.push(c);
            i = i + 1;
        }
    }
    out
}

} // verus!
