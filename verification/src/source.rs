//! Opening a file's bytes: encoding, byte-order mark and line-ending detection,
//! and the line-oriented view of its content.

use vstd::prelude::*;
use vstd::string::*;
use vstd::utf8::*;

use crate::cmd::write::{is_plain, law_written_utf8_reads_back, written_bytes};
use crate::encoding::{
    decode_text_replacing, decode_text_strict, decoded_replacing, decoded_strict, is_known,
    native_to_lf, normalize_native_to_lf, normalize_text_to_lf, only_ending, text_to_lf, text_utf16,
    whatwg_known, EncodingKind, LineEnding, TextEncoding,
};
use crate::encoding_laws::{
    law_native_conversion_is_text_conversion, lemma_utf8_add, lemma_utf8_lacks_lf, lemma_utf8_lf,
    lemma_utf8_to_lf,
};
use crate::layout::TextLayout;
use crate::lines::{lemma_parts_nonempty, parts, text_lines, texts};
use crate::num::{dec, push_dec};
use crate::text::{chars_of, first_pos, lemma_first_pos, string_of};

verus! {

/// What was detected of a file.
#[derive(Debug)]
pub struct SourceInfo {
    /// The encoding of the content.
    pub encoding: TextEncoding,
    /// The dominant line ending.
    pub line_ending: LineEnding,
    /// The number of bytes of the byte-order mark; zero without one.
    pub bom_len: usize,
}

/// The abstract value of a [`SourceInfo`].
pub struct SourceModel {
    /// The encoding of the content.
    pub encoding: EncodingKind,
    /// The dominant line ending.
    pub line_ending: LineEnding,
    /// The number of bytes of the byte-order mark.
    pub bom_len: nat,
}

impl View for SourceInfo {
    type V = SourceModel;

    open spec fn view(&self) -> SourceModel {
        SourceModel {
            encoding: self.encoding@,
            line_ending: self.line_ending,
            bom_len: self.bom_len as nat,
        }
    }
}

/// What `harrier` detects of a file's bytes: the WHATWG name of the encoding,
/// the dominant line ending and the length of the byte-order mark; or the
/// message of its error.
pub uninterp spec fn harrier_probe(bytes: Seq<u8>) -> Result<
    (Seq<char>, LineEnding, nat),
    Seq<char>,
>;

/// The length of the byte-order mark that bytes begin with.
pub open spec fn bom_length(bytes: Seq<u8>) -> nat {
    if bytes.len() >= 3 && bytes[0] == 0xEF && bytes[1] == 0xBB && bytes[2] == 0xBF {
        3
    } else if bytes.len() >= 2 && bytes[0] == 0xFF && bytes[1] == 0xFE {
        2
    } else if bytes.len() >= 2 && bytes[0] == 0xFE && bytes[1] == 0xFF {
        2
    } else {
        0
    }
}

/// The encoding name agrees with the byte-order mark that bytes begin with.
pub open spec fn agrees_with_bom(bytes: Seq<u8>, name: Seq<char>) -> bool {
    bom_length(bytes) > 0 ==> name == (if bytes[0] == 0xEF {
        "UTF-8"@
    } else if bytes[0] == 0xFF {
        "UTF-16LE"@
    } else {
        "UTF-16BE"@
    })
}

/// No byte is zero.
pub open spec fn lacks_nul(bytes: Seq<u8>) -> bool {
    forall|i: int| 0 <= i < bytes.len() ==> #[trigger] bytes[i] != 0
}

/// How many bytes at the start of a file are looked at to tell its line ending.
pub const PROBE_LEN: usize = 8192;

/// Bytes hold one kind of line ending alone, and show it where it is looked for: LF where
/// there is no CR; CR LF, or CR, where there is one among the first bytes.
pub open spec fn has_ending(bytes: Seq<u8>, e: LineEnding) -> bool {
    &&& only_ending(bytes, e)
    &&& match e {
        LineEnding::Lf => true,
        LineEnding::CrLf => exists|i: int|
            0 <= i < bytes.len() && i < PROBE_LEN && #[trigger] bytes[i] == 0x0A,
        LineEnding::Cr => exists|i: int|
            0 <= i < bytes.len() && i < PROBE_LEN && #[trigger] bytes[i] == 0x0D,
    }
}

/// `harrier::source::Source::new` with the default configuration, on a branch
/// holding `bytes`, detects the encoding, the dominant line ending and the
/// byte-order mark; all are functions of the bytes. It is claimed that a
/// byte-order mark decides the encoding, without an error, and is measured as such, that valid
/// UTF-8 without NUL is never taken for anything else, that the one line ending which
/// UTF-8 shows is the one detected, and that the name is one that `encoding_rs` knows. How
/// other encodings and line endings are guessed is left unsaid.
#[verifier::external_body]
fn probe(bytes: &[u8]) -> (r: Result<(String, LineEnding, usize), String>)
    ensures
        match r {
            Ok((name, ending, bom_len)) => harrier_probe(bytes@) == Ok::<
                (Seq<char>, LineEnding, nat),
                Seq<char>,
            >((name@, ending, bom_len as nat)) && bom_len == bom_length(bytes@) && agrees_with_bom(
                bytes@,
                name@,
            ) && (valid_utf8(bytes@) && lacks_nul(bytes@) ==> name@ == "UTF-8"@) && whatwg_known(name@)
                && (name@ == "UTF-8"@ ==> forall|e: LineEnding| #[trigger]
                has_ending(bytes@, e) ==> ending == e),
            Err(m) => harrier_probe(bytes@) == Err::<(Seq<char>, LineEnding, nat), Seq<char>>(m@)
                && !(valid_utf8(bytes@) && lacks_nul(bytes@)) && bom_length(bytes@) == 0,
        },
{
    let branch = redwing::make_thicket_from_bytes(bytes).main();
    let config = harrier::encoding::SourceConfig::default();
    let source = harrier::source::Source::new(branch, config).map_err(|e| e.to_string())?;
    let ending = match source.line_ending() {
        harrier::encoding::LineEnding::Lf => LineEnding::Lf,
        harrier::encoding::LineEnding::CrLf => LineEnding::CrLf,
        harrier::encoding::LineEnding::Cr => LineEnding::Cr,
    };
    Ok((source.encoding().name().to_owned(), ending, source.bom_len()))
}

/// What is detected of a file with the given bytes.
pub open spec fn source_of(bytes: Seq<u8>) -> Result<SourceModel, Seq<char>> {
    match harrier_probe(bytes) {
        Ok((name, line_ending, bom_len)) => Ok(
            SourceModel { encoding: EncodingKind::of_name(name), line_ending, bom_len },
        ),
        Err(m) => Err(m),
    }
}

/// A file is the UTF-16 of a text, behind the byte-order mark.
pub open spec fn is_utf16_of(bytes: Seq<u8>, text: Seq<char>, kind: EncodingKind) -> bool {
    (kind is Utf16Le || kind is Utf16Be) && bytes == kind.bom() + text_utf16(text, kind is Utf16Be)
}

/// The byte-order mark of UTF-16 tells which it is.
pub proof fn lemma_utf16_file(bytes: Seq<u8>, text: Seq<char>, kind: EncodingKind)
    requires
        is_utf16_of(bytes, text, kind),
    ensures
        bom_length(bytes) == 2,
        bytes.take(2) == kind.bom(),
        bytes.skip(2) == text_utf16(text, kind is Utf16Be),
        forall|k: EncodingKind| #[trigger] k.bom() == bytes.take(2) ==> k == kind,
        native_to_lf(bytes.skip(2), kind) == text_utf16(text_to_lf(text), kind is Utf16Be),
{
    let bom = kind.bom();
    assert(bytes[0] == bom[0] && bytes[1] == bom[1]);
    assert(bytes.take(2) =~= bom);
    assert(bytes.skip(2) =~= text_utf16(text, kind is Utf16Be));
    assert forall|k: EncodingKind| #[trigger] k.bom() == bytes.take(2) implies k == kind by {
        assert(k.bom().len() == 2);
        assert(k.bom()[0] == bom[0]);
    }
    law_native_conversion_is_text_conversion(text, kind, LineEnding::Lf);
}

/// Detect the encoding, line ending and byte-order mark of a file.
pub fn open_source(bytes: &[u8]) -> (r: Result<SourceInfo, String>)
    ensures
        match r {
            Ok(info) => source_of(bytes@) == Ok::<SourceModel, Seq<char>>(info@),
            Err(m) => source_of(bytes@) == Err::<SourceModel, Seq<char>>(m@),
        },
        r matches Ok(info) ==> info.bom_len == bom_length(bytes@) && info.bom_len <= bytes@.len(),
        r matches Ok(info) ==> (bom_length(bytes@) > 0 ==> info.encoding@.bom() == bytes@.take(
            bom_length(bytes@) as int,
        )),
        valid_utf8(bytes@) && lacks_nul(bytes@) ==> r is Ok && r->Ok_0.encoding@ is Utf8,
        bom_length(bytes@) > 0 ==> r is Ok,
        r matches Ok(info) ==> is_known(info.encoding@),
        r matches Ok(info) ==> (info.encoding@ is Utf8 ==> forall|e: LineEnding| #[trigger]
            has_ending(bytes@, e) ==> info.line_ending == e),
{
    match probe(bytes) {
        Ok((name, line_ending, bom_len)) => {
            let encoding = TextEncoding::of_name(name.as_str());
            proof {
                reveal_strlit("UTF-8");
                reveal_strlit("UTF-16LE");
                reveal_strlit("UTF-16BE");
                assert("UTF-16LE"@[6] != "UTF-16BE"@[6]);
                assert("UTF-8"@.len() != "UTF-16BE"@.len());
                assert("UTF-8"@.len() != "UTF-16LE"@.len());
                if bom_length(bytes@) > 0 {
                    assert(encoding@.bom() =~= bytes@.take(bom_length(bytes@) as int));
                }
            }
            Ok(SourceInfo { encoding, line_ending, bom_len })
        },
        Err(m) => Err(m),
    }
}

// ── Line view ───────────────────────────────────────────────────────────────

/// The largest content, in bytes, that a view is made of.
pub const VIEW_CEILING: u64 = 67108864;

/// The message for content of `len` bytes, which is too much.
pub open spec fn ceiling_message(len: nat) -> Seq<char> {
    "byte range ("@ + dec(len) + " bytes) exceeds memory ceiling (67108864 bytes)"@
}

fn over_ceiling(len: usize) -> (r: String)
    ensures
        r@ == ceiling_message(len as nat),
{
    let mut m = "byte range (".to_owned();
    push_dec(&mut m, len as u64);
    m.push_str(" bytes) exceeds memory ceiling (67108864 bytes)");
    m
}

/// The content of a file, in the file's encoding.
#[derive(Debug)]
pub struct LineView {
    /// The content as it is in the file.
    raw: Vec<u8>,
    /// The encoding of the content.
    encoding: TextEncoding,
    /// The offset of the content in the file.
    start: usize,
}

impl LineView {
    /// The content as it is in the file.
    pub closed spec fn raw(&self) -> Seq<u8> {
        self.raw@
    }

    /// The encoding of the content.
    pub closed spec fn kind(&self) -> EncodingKind {
        self.encoding@
    }

    /// The offset of the content in the file.
    pub closed spec fn start(&self) -> nat {
        self.start as nat
    }

    /// The end of the content can be addressed.
    #[verifier::type_invariant]
    closed spec fn wf(&self) -> bool {
        self.start + self.raw@.len() <= usize::MAX
    }

    /// The view of the content of `file` from offset `start` on; an error where
    /// the content is too large.
    pub fn over(file: &[u8], start: usize, encoding: &TextEncoding) -> (r: Result<LineView, String>)
        requires
            start <= file@.len(),
        ensures
            match r {
                Ok(view) => view.raw() == file@.skip(start as int) && view.start() == start
                    && view.kind() == encoding@ && file@.len() - start <= VIEW_CEILING,
                Err(m) => file@.len() - start > VIEW_CEILING && m@ == ceiling_message(
                    (file@.len() - start) as nat,
                ),
            },
    {
        let len: usize = file.len() - start;
        if len as u64 > VIEW_CEILING {
            return Err(over_ceiling(len));
        }
        let mut raw: Vec<u8> = Vec::new();
        raw.extend_from_slice(vstd::slice::slice_subrange(file, start, file.len()));
        proof {
            assert(raw@ =~= file@.skip(start as int));
        }
        Ok(LineView { raw, encoding: encoding.clone(), start })
    }

    /// The content as it is in the file.
    pub fn content(&self) -> (r: &[u8])
        ensures
            r@ == self.raw(),
    {
        self.raw.as_slice()
    }

    /// The content with its line endings normalised to LF.
    pub fn bytes(&self) -> (r: Vec<u8>)
        ensures
            r@ == native_to_lf(self.raw(), self.kind()),
    {
        normalize_native_to_lf(self.raw.as_slice(), &self.encoding)
    }

    /// The encoding of the content.
    pub fn encoding(&self) -> (r: &TextEncoding)
        ensures
            r@ == self.kind(),
    {
        &self.encoding
    }

    /// The offset in the file of an offset in the content.
    pub fn to_source(&self, n: usize) -> (r: usize)
        requires
            n <= self.raw().len(),
        ensures
            r == self.start() + n,
    {
        proof {
            use_type_invariant(self);
        }
        self.start + n
    }
}

// ── Decoded text ────────────────────────────────────────────────────────────

/// A file decoded to text.
#[derive(Debug)]
pub struct DecodedText {
    /// The text, with its line endings normalised to LF.
    pub text: String,
    /// The encoding of the file.
    pub encoding: TextEncoding,
    /// The dominant line ending of the file.
    pub line_ending: LineEnding,
    /// The number of bytes of the byte-order mark; zero without one.
    pub bom_len: usize,
    /// The census of the file's line endings.
    pub layout: TextLayout,
}

/// The text of a file behind its byte-order mark, with its line endings as they
/// are, or the message of the error.
pub open spec fn text_of(bytes: Seq<u8>) -> Result<Seq<char>, Seq<char>> {
    match source_of(bytes) {
        Ok(info) => decoded_strict(bytes.skip(info.bom_len as int), info.encoding),
        Err(m) => Err(m),
    }
}

impl DecodedText {
    /// This is the file with the given bytes, decoded.
    pub open spec fn is_of(self, bytes: Seq<u8>) -> bool {
        match (source_of(bytes), text_of(bytes)) {
            (Ok(info), Ok(text)) => {
                &&& self.text@ == text_to_lf(text)
                &&& self.encoding@ == info.encoding
                &&& self.line_ending == info.line_ending
                &&& self.bom_len == info.bom_len
                &&& self.layout.describes(text)
            },
            _ => false,
        }
    }
}

/// Decode a file. Malformed content is rejected, never replaced; valid UTF-8
/// without NUL always decodes to itself, and UTF-16 behind its byte-order mark to its text.
/// A text that was written in UTF-8 comes back.
pub fn read_text(bytes: &[u8]) -> (r: Result<DecodedText, String>)
    ensures
        match r {
            Ok(d) => d.is_of(bytes@) && d.bom_len == bom_length(bytes@) && d.bom_len
                <= bytes@.len() && d.layout.total() <= usize::MAX,
            Err(m) => text_of(bytes@) == Err::<Seq<char>, Seq<char>>(m@),
        },
        r matches Ok(d) ==> (bom_length(bytes@) > 0 ==> d.encoding@.bom() == bytes@.take(
            bom_length(bytes@) as int,
        )),
        valid_utf8(bytes@) && lacks_nul(bytes@) ==> r is Ok && r->Ok_0.encoding@ is Utf8
            && r->Ok_0.text@ == text_to_lf(
            decode_utf8(bytes@.skip(bom_length(bytes@) as int)),
        ),
        r matches Ok(d) ==> is_known(d.encoding@),
        r matches Ok(d) ==> (d.encoding@ is Utf8 ==> forall|e: LineEnding| #[trigger]
            has_ending(bytes@, e) ==> d.line_ending == e),
        forall|text: Seq<char>, ending: LineEnding, write_bom: bool|
            is_plain(text, write_bom) && #[trigger] written_bytes(
                text,
                EncodingKind::Utf8,
                ending,
                write_bom,
            ) == Some(bytes@) ==> r is Ok && r->Ok_0.text@ == text,
        forall|text: Seq<char>, kind: EncodingKind| #[trigger]
            is_utf16_of(bytes@, text, kind) ==> r is Ok && r->Ok_0.encoding@ == kind
                && r->Ok_0.text@ == text_to_lf(text),
{
    proof {
        assert forall|text: Seq<char>, kind: EncodingKind| #[trigger]
            is_utf16_of(bytes@, text, kind) implies bom_length(bytes@) == 2 && bytes@.skip(2)
            == text_utf16(text, kind is Utf16Be) && forall|k: EncodingKind| #[trigger]
            k.bom() == bytes@.take(2) ==> k == kind by {
            lemma_utf16_file(bytes@, text, kind);
        }
        assert forall|text: Seq<char>, ending: LineEnding, write_bom: bool|
            is_plain(text, write_bom) && #[trigger] written_bytes(
                text,
                EncodingKind::Utf8,
                ending,
                write_bom,
            ) == Some(bytes@) implies valid_utf8(bytes@) && lacks_nul(bytes@) && text_to_lf(
            decode_utf8(bytes@.skip(bom_length(bytes@) as int)),
        ) == text by {
            law_written_utf8_reads_back(text, ending, write_bom);
        }
    }
    let info = match open_source(bytes) {
        Ok(info) => info,
        Err(m) => {
            return Err(m);
        },
    };
    let content = vstd::slice::slice_subrange(bytes, info.bom_len, bytes.len());
    proof {
        assert(content@ =~= bytes@.skip(info.bom_len as int));
        if valid_utf8(bytes@) {
            lemma_utf8_behind_bom(bytes@);
        }
    }
    match decode_text_strict(content, &info.encoding) {
        Ok(text) => {
            let layout = TextLayout::analyze(text.as_str());
            Ok(
                DecodedText {
                    text: normalize_text_to_lf(text.as_str()),
                    encoding: info.encoding,
                    line_ending: info.line_ending,
                    bom_len: info.bom_len,
                    layout,
                },
            )
        },
        Err(m) => Err(m),
    }
}

/// Valid UTF-8 has no byte-order mark but its own, and is valid behind that too.
pub proof fn lemma_utf8_behind_bom(bytes: Seq<u8>)
    requires
        valid_utf8(bytes),
    ensures
        bom_length(bytes) != 2,
        valid_utf8(bytes.skip(bom_length(bytes) as int)),
{
    if bom_length(bytes) == 3 {
        assert(pop_first_scalar(bytes) =~= bytes.skip(3));
    } else if bom_length(bytes) == 2 {
        assert(!valid_first_scalar(bytes));
    } else {
        assert(bytes.skip(0) =~= bytes);
    }
}

/// A file as it is shown: decoded, with malformed sequences replaced and line
/// endings normalised to LF.
#[derive(Debug)]
pub struct ShownText {
    /// The text.
    pub text: String,
    /// The encoding of the file.
    pub encoding: TextEncoding,
    /// The dominant line ending of the file.
    pub line_ending: LineEnding,
    /// Whether the file begins with a byte-order mark.
    pub had_bom: bool,
}

/// The text that a file is shown as, or the message of the error.
pub open spec fn shown_text(bytes: Seq<u8>) -> Result<Seq<char>, Seq<char>> {
    match source_of(bytes) {
        Ok(info) => {
            let content = bytes.skip(info.bom_len as int);
            if content.len() > VIEW_CEILING {
                Err(ceiling_message(content.len()))
            } else {
                decoded_replacing(native_to_lf(content, info.encoding), info.encoding)
            }
        },
        Err(m) => Err(m),
    }
}

impl ShownText {
    /// This is the file with the given bytes, as it is shown.
    pub open spec fn is_of(self, bytes: Seq<u8>) -> bool {
        match (source_of(bytes), shown_text(bytes)) {
            (Ok(info), Ok(text)) => {
                &&& self.text@ == text
                &&& self.encoding@ == info.encoding
                &&& self.line_ending == info.line_ending
                &&& self.had_bom == (info.bom_len > 0)
            },
            _ => false,
        }
    }
}

/// Decode a file for showing it. Valid UTF-8 without NUL, and UTF-16 behind its byte-order
/// mark, is shown as it is, but for its line endings.
pub fn show_text(bytes: &[u8]) -> (r: Result<ShownText, String>)
    ensures
        match r {
            Ok(d) => d.is_of(bytes@) && d.had_bom == (bom_length(bytes@) > 0),
            Err(m) => shown_text(bytes@) == Err::<Seq<char>, Seq<char>>(m@),
        },
        valid_utf8(bytes@) && lacks_nul(bytes@) && bytes@.len() <= VIEW_CEILING ==> r is Ok,
        valid_utf8(bytes@) && lacks_nul(bytes@) && r is Ok ==> r->Ok_0.encoding@ is Utf8
            && r->Ok_0.text@ == text_to_lf(decode_utf8(bytes@.skip(bom_length(bytes@) as int))),
        r matches Ok(d) ==> is_known(d.encoding@),
        r matches Ok(d) ==> (d.encoding@ is Utf8 ==> forall|e: LineEnding| #[trigger]
            has_ending(bytes@, e) ==> d.line_ending == e),
        forall|text: Seq<char>, kind: EncodingKind| #[trigger]
            is_utf16_of(bytes@, text, kind) ==> (bytes@.len() <= VIEW_CEILING ==> r is Ok) && (r
                matches Ok(d) ==> d.encoding@ == kind && d.text@ == text_to_lf(text)),
{
    proof {
        assert forall|text: Seq<char>, kind: EncodingKind| #[trigger]
            is_utf16_of(bytes@, text, kind) implies bom_length(bytes@) == 2 && native_to_lf(
            bytes@.skip(2),
            kind,
        ) == text_utf16(text_to_lf(text), kind is Utf16Be) && forall|k: EncodingKind| #[trigger]
            k.bom() == bytes@.take(2) ==> k == kind by {
            lemma_utf16_file(bytes@, text, kind);
        }
    }
    let info = match open_source(bytes) {
        Ok(info) => info,
        Err(m) => {
            return Err(m);
        },
    };
    let len: usize = bytes.len() - info.bom_len;
    if len as u64 > VIEW_CEILING {
        return Err(over_ceiling(len));
    }
    let content = vstd::slice::slice_subrange(bytes, info.bom_len, bytes.len());
    proof {
        assert(content@ =~= bytes@.skip(info.bom_len as int));
        if valid_utf8(bytes@) {
            lemma_utf8_behind_bom(bytes@);
            let text = decode_utf8(content@);
            decode_utf8_encode_utf8(content@);
            lemma_utf8_to_lf(text);
            encode_utf8_valid_utf8(text_to_lf(text));
            encode_utf8_decode_utf8(text_to_lf(text));
        }
    }
    let norm = normalize_native_to_lf(content, &info.encoding);
    match decode_text_replacing(norm.as_slice(), &info.encoding) {
        Ok(text) => Ok(
            ShownText {
                text,
                encoding: info.encoding,
                line_ending: info.line_ending,
                had_bom: info.bom_len > 0,
            },
        ),
        Err(m) => Err(m),
    }
}

// ── Lines as they are read one by one ───────────────────────────────────────

/// The offset of the first LF in a native byte stream, or the length where there
/// is none.
pub open spec fn first_native_lf(s: Seq<u8>, encoding: EncodingKind) -> nat
    decreases s.len(),
{
    match encoding {
        EncodingKind::Utf16Le => if s.len() < 2 {
            s.len()
        } else if s[0] == 0x0A && s[1] == 0x00 {
            0
        } else {
            2 + first_native_lf(s.skip(2), encoding)
        },
        EncodingKind::Utf16Be => if s.len() < 2 {
            s.len()
        } else if s[0] == 0x00 && s[1] == 0x0A {
            0
        } else {
            2 + first_native_lf(s.skip(2), encoding)
        },
        _ => if s.len() == 0 || s[0] == 0x0A {
            0
        } else {
            1 + first_native_lf(s.skip(1), encoding)
        },
    }
}

/// The number of bytes of LF in an encoding.
pub open spec fn lf_width(encoding: EncodingKind) -> nat {
    if encoding is Utf16Le || encoding is Utf16Be {
        2
    } else {
        1
    }
}

/// The lines of a native byte stream with LF endings, each with its LF, and
/// whether it has one.
pub open spec fn native_lines(s: Seq<u8>, encoding: EncodingKind) -> Seq<(Seq<u8>, bool)>
    decreases s.len(),
{
    let k = first_native_lf(s, encoding);
    let end = k + lf_width(encoding);
    if s.len() == 0 {
        seq![]
    } else if end > s.len() {
        seq![(s, false)]
    } else {
        seq![(s.take(end as int), true)] + native_lines(s.skip(end as int), encoding)
    }
}

/// A line's text, without its LF, or the message of the error.
pub open spec fn line_text(line: (Seq<u8>, bool), encoding: EncodingKind) -> Result<
    Seq<char>,
    Seq<char>,
> {
    match decoded_replacing(line.0, encoding) {
        Ok(t) => Ok(
            if line.1 && t.len() > 0 && t.last() == '\n' {
                t.drop_last()
            } else {
                t
            },
        ),
        Err(m) => Err(m),
    }
}

proof fn lemma_first_native_lf(s: Seq<u8>, encoding: EncodingKind)
    ensures
        first_native_lf(s, encoding) <= s.len(),
        first_native_lf(s, encoding) < s.len() ==> first_native_lf(s, encoding) + lf_width(encoding)
            <= s.len(),
    decreases s.len(),
{
    if s.len() >= lf_width(encoding) && s.len() > 0 {
        lemma_first_native_lf(s.skip(lf_width(encoding) as int), encoding);
    }
}

/// The offset of the first LF from offset `from` on.
fn find_native_lf(s: &Vec<u8>, from: usize, encoding: &TextEncoding) -> (r: usize)
    requires
        from <= s@.len(),
    ensures
        from <= r <= s@.len(),
        r - from == first_native_lf(s@.skip(from as int), encoding@),
{
    let len: usize = s.len();
    let mut i: usize = from;
    match encoding {
        TextEncoding::Utf16Le | TextEncoding::Utf16Be => {
            let big = match encoding {
                TextEncoding::Utf16Be => true,
                _ => false,
            };
            while len - i >= 2 && !((big && s[i] == 0x00 && s[i + 1] == 0x0A) || (!big && s[i] == 0x0A
                && s[i + 1] == 0x00))
                invariant
                    len == s@.len(),
                    from <= i <= len,
                    encoding@ is Utf16Le || encoding@ is Utf16Be,
                    big == (encoding@ is Utf16Be),
                    (i - from) + first_native_lf(s@.skip(i as int), encoding@) == first_native_lf(
                        s@.skip(from as int),
                        encoding@,
                    ),
                decreases len - i,
            {
                proof {
                    assert(s@.skip(i as int).skip(2) =~= s@.skip(i + 2));
                }
                i = i + 2;
            }
            if len - i < 2 {
                i = len;
            }
        },
        _ => {
            while i < len && s[i] != 0x0A
                invariant
                    len == s@.len(),
                    from <= i <= len,
                    !(encoding@ is Utf16Le || encoding@ is Utf16Be),
                    (i - from) + first_native_lf(s@.skip(i as int), encoding@) == first_native_lf(
                        s@.skip(from as int),
                        encoding@,
                    ),
                decreases len - i,
            {
                proof {
                    assert(s@.skip(i as int).skip(1) =~= s@.skip(i + 1));
                }
                i = i + 1;
            }
        },
    }
    i
}

/// The texts of lines, or the message of the first error.
pub open spec fn line_texts(lines: Seq<(Seq<u8>, bool)>, encoding: EncodingKind) -> Result<
    Seq<Seq<char>>,
    Seq<char>,
>
    decreases lines.len(),
{
    if lines.len() == 0 {
        Ok(seq![])
    } else {
        match line_text(lines[0], encoding) {
            Err(m) => Err(m),
            Ok(t) => match line_texts(lines.drop_first(), encoding) {
                Err(m) => Err(m),
                Ok(rest) => Ok(seq![t] + rest),
            },
        }
    }
}

/// The lines of a file, each decoded by itself, or the message of the error.
pub open spec fn file_lines(bytes: Seq<u8>) -> Result<Seq<Seq<char>>, Seq<char>> {
    match source_of(bytes) {
        Ok(info) => line_texts(
            native_lines(
                native_to_lf(bytes.skip(info.bom_len as int), info.encoding),
                info.encoding,
            ),
            info.encoding,
        ),
        Err(m) => Err(m),
    }
}

/// A text without an LF at its end, where `ended` says to drop it.
fn drop_newline(text: String, ended: bool) -> (r: String)
    ensures
        r@ == (if ended && text@.len() > 0 && text@.last() == '\n' {
            text@.drop_last()
        } else {
            text@
        }),
{
    if !ended {
        return text;
    }
    let v = chars_of(text.as_str());
    let n: usize = v.len();
    if n > 0 && v[n - 1] == '\n' {
        proof {
            assert(v@.subrange(0, n - 1) =~= text@.drop_last());
        }
        string_of(&v, 0, n - 1)
    } else {
        text
    }
}

proof fn lemma_first_native_lf_is(s: Seq<u8>, k: int)
    requires
        0 <= k <= s.len(),
        forall|i: int| 0 <= i < k ==> #[trigger] s[i] != 0x0A,
        k < s.len() ==> s[k] == 0x0A,
    ensures
        first_native_lf(s, EncodingKind::Utf8) == k,
    decreases k,
{
    if k > 0 {
        let t = s.skip(1);
        assert(s[0] != 0x0A);
        assert forall|i: int| 0 <= i < k - 1 implies #[trigger] t[i] != 0x0A by {
            assert(t[i] == s[i + 1]);
        }
        lemma_first_native_lf_is(t, k - 1);
    }
}

/// The first line of a text and what is behind it, in UTF-8.
proof fn lemma_first_utf8_line(text: Seq<char>)
    requires
        text.len() > 0,
    ensures
        ({
            let s = encode_utf8(text);
            let j = first_pos(text, '\n') as int;
            let k = first_native_lf(s, EncodingKind::Utf8) as int;
            if j < text.len() {
                &&& k < s.len()
                &&& s.take(k + 1) == encode_utf8(text.take(j + 1))
                &&& s.skip(k + 1) == encode_utf8(text.skip(j + 1))
                &&& text_lines(text) == seq![text.take(j)] + text_lines(text.skip(j + 1))
                &&& text.take(j + 1) == text.take(j).push('\n')
            } else {
                &&& k == s.len()
                &&& text_lines(text) == seq![text]
                &&& text.last() != '\n'
            }
        }),
{
    let s = encode_utf8(text);
    lemma_first_pos(text, '\n');
    let j = first_pos(text, '\n') as int;
    let head = text.take(j);
    assert forall|i: int| 0 <= i < head.len() implies #[trigger] head[i] != '\n' by {
        assert(head[i] == text[i]);
    }
    lemma_utf8_lacks_lf(head);
    let k = encode_utf8(head).len() as int;
    if j < text.len() {
        let rest = text.skip(j + 1);
        let ended = text.take(j + 1);
        assert(ended =~= head + seq!['\n']);
        assert(text =~= ended + rest);
        lemma_utf8_add(ended, rest);
        lemma_utf8_add(head, seq!['\n']);
        lemma_utf8_lf();
        assert forall|i: int| 0 <= i < k implies #[trigger] s[i] != 0x0A by {
            assert(s[i] == encode_utf8(head)[i]);
        }
        assert(s[k] == encode_utf8(ended)[k]);
        lemma_first_native_lf_is(s, k);
        assert(s.take(k + 1) =~= encode_utf8(ended));
        assert(s.skip(k + 1) =~= encode_utf8(rest));
        assert(ended =~= head.push('\n'));
        lemma_parts_nonempty(rest);
        assert(parts(text) =~= seq![head] + parts(rest));
        assert(parts(text).last() == parts(rest).last());
        if parts(rest).last().len() == 0 {
            assert(parts(text).drop_last() =~= seq![head] + parts(rest).drop_last());
        }
    } else {
        assert(head =~= text);
        lemma_first_native_lf_is(s, k);
        assert(parts(text) =~= seq![text]);
        assert(text[text.len() - 1] != '\n');
    }
}

/// Read the lines of a file, each decoded by itself. The lines of valid UTF-8 without NUL
/// are those of its text.
pub fn read_lines(bytes: &[u8]) -> (r: Result<Vec<String>, String>)
    ensures
        match r {
            Ok(v) => file_lines(bytes@) == Ok::<Seq<Seq<char>>, Seq<char>>(texts(v@)),
            Err(m) => file_lines(bytes@) == Err::<Seq<Seq<char>>, Seq<char>>(m@),
        },
        valid_utf8(bytes@) && lacks_nul(bytes@) ==> (r matches Ok(v) && texts(v@) == text_lines(
            text_to_lf(decode_utf8(bytes@.skip(bom_length(bytes@) as int))),
        )),
{
    let info = match open_source(bytes) {
        Ok(info) => info,
        Err(m) => {
            return Err(m);
        },
    };
    let content = vstd::slice::slice_subrange(bytes, info.bom_len, bytes.len());
    proof {
        assert(content@ =~= bytes@.skip(info.bom_len as int));
    }
    let norm = normalize_native_to_lf(content, &info.encoding);
    let ghost kind = info.encoding@;
    let ghost all = line_texts(native_lines(norm@, kind), kind);
    let ghost plain = valid_utf8(bytes@) && lacks_nul(bytes@);
    let ghost whole = text_to_lf(decode_utf8(content@));
    let ghost mut left = whole;
    proof {
        if plain {
            lemma_utf8_behind_bom(bytes@);
            decode_utf8_encode_utf8(content@);
            lemma_utf8_to_lf(decode_utf8(content@));
        }
    }
    let width: usize = match &info.encoding {
        TextEncoding::Utf16Le | TextEncoding::Utf16Be => 2,
        _ => 1,
    };
    let mut out: Vec<String> = Vec::new();
    let mut i: usize = 0;
    proof {
        assert(norm@.skip(0) =~= norm@);
        if let Ok(rest) = all {
            assert(texts(out@) + rest =~= rest);
        }
        assert(texts(out@) + text_lines(whole) =~= text_lines(whole));
    }
    while i < norm.len()
        invariant
            i <= norm@.len(),
            plain == (valid_utf8(bytes@) && lacks_nul(bytes@)),
            plain ==> kind is Utf8 && norm@.skip(i as int) == encode_utf8(left) && texts(out@)
                + text_lines(left) == text_lines(whole),
            width == lf_width(kind),
            kind == info.encoding@,
            match line_texts(native_lines(norm@.skip(i as int), kind), kind) {
                Ok(rest) => all == Ok::<Seq<Seq<char>>, Seq<char>>(texts(out@) + rest),
                Err(m) => all == Err::<Seq<Seq<char>>, Seq<char>>(m),
            },
            all == file_lines(bytes@),
        decreases norm@.len() - i,
    {
        let k: usize = find_native_lf(&norm, i, &info.encoding);
        let ghost rest = norm@.skip(i as int);
        proof {
            lemma_first_native_lf(rest, kind);
        }
        let ended = k < norm.len();
        let end: usize = if ended {
            k + width
        } else {
            norm.len()
        };
        let line = vstd::slice::slice_subrange(norm.as_slice(), i, end);
        let ghost lines = native_lines(rest, kind);
        proof {
            if ended {
                assert(line@ =~= rest.take(end - i));
                assert(rest.skip(end - i) =~= norm@.skip(end as int));
            } else {
                assert(line@ =~= rest);
            }
            assert(lines[0] == (line@, ended));
            if plain {
                assert(rest.len() > 0);
                lemma_first_utf8_line(left);
                let j = first_pos(left, '\n') as int;
                let cut = if j < left.len() {
                    left.take(j + 1)
                } else {
                    left
                };
                assert(line@ == encode_utf8(cut));
                encode_utf8_valid_utf8(cut);
                encode_utf8_decode_utf8(cut);
            }
            if ended {
                assert(lines.drop_first() =~= native_lines(norm@.skip(end as int), kind));
            } else {
                assert(lines.drop_first() =~= seq![]);
                assert(native_lines(norm@.skip(end as int), kind) =~= seq![]);
            }
        }
        match decode_text_replacing(line, &info.encoding) {
            Ok(text) => {
                let ghost had = texts(out@);
                let shown = drop_newline(text, ended);
                let ghost sv = shown@;
                out.push(shown);
                proof {
                    assert(texts(out@) =~= had.push(sv));
                    if plain {
                        let j = first_pos(left, '\n') as int;
                        if j < left.len() {
                            assert(left.take(j).push('\n').drop_last() =~= left.take(j));
                            assert(had + (seq![sv] + text_lines(left.skip(j + 1))) =~= texts(out@)
                                + text_lines(left.skip(j + 1)));
                            left = left.skip(j + 1);
                        } else {
                            assert(texts(out@) + Seq::<Seq<char>>::empty() =~= had + seq![sv]);
                            left = seq![];
                            assert(norm@.skip(end as int) =~= seq![]);
                            assert(text_lines(left) =~= seq![]);
                        }
                    }
                    if let Ok(tail) = line_texts(native_lines(norm@.skip(end as int), kind), kind) {
                        assert(had + (seq![sv] + tail) =~= texts(out@) + tail);
                    }
                }
            },
            Err(m) => {
                return Err(m);
            },
        }
        i = end;
    }
    proof {
        if plain {
            assert(norm@.skip(i as int).len() == 0);
            if left.len() > 0 {
                encode_utf8_first_scalar(left);
            }
            assert(left =~= seq![]);
            assert(text_lines(left) =~= seq![]);
            assert(texts(out@) + text_lines(left) =~= texts(out@));
        }
        assert(native_lines(norm@.skip(i as int), kind) =~= seq![]);
        assert(texts(out@) + Seq::<Seq<char>>::empty() =~= texts(out@));
    }
    Ok(out)
}

// ── Laws ────────────────────────────────────────────────────────────────────

/// The bytes of lines one behind the other.
pub open spec fn all_bytes(lines: Seq<(Seq<u8>, bool)>) -> Seq<u8>
    decreases lines.len(),
{
    if lines.len() == 0 {
        seq![]
    } else {
        lines[0].0 + all_bytes(lines.drop_first())
    }
}

/// The lines of a byte stream make it up: no byte is lost, none is added, no line is empty, and
/// only the last may lack its LF.
pub proof fn law_native_lines_make_up_the_bytes(s: Seq<u8>, encoding: EncodingKind)
    ensures
        ({
            let lines = native_lines(s, encoding);
            &&& all_bytes(lines) == s
            &&& forall|i: int| 0 <= i < lines.len() ==> (#[trigger] lines[i]).0.len() > 0
            &&& forall|i: int| 0 <= i < lines.len() - 1 ==> (#[trigger] lines[i]).1
        }),
    decreases s.len(),
{
    let lines = native_lines(s, encoding);
    let end = (first_native_lf(s, encoding) + lf_width(encoding)) as int;
    if s.len() > 0 && end <= s.len() {
        let rest = native_lines(s.skip(end), encoding);
        law_native_lines_make_up_the_bytes(s.skip(end), encoding);
        assert(lines =~= seq![(s.take(end), true)] + rest);
        assert(lines.drop_first() =~= rest);
        assert(s.take(end) + s.skip(end) =~= s);
        assert forall|i: int| 0 <= i < lines.len() implies (#[trigger] lines[i]).0.len() > 0 by {
            if i > 0 {
                assert(lines[i] == rest[i - 1]);
            }
        }
        assert forall|i: int| 0 <= i < lines.len() - 1 implies (#[trigger] lines[i]).1 by {
            if i > 0 {
                assert(lines[i] == rest[i - 1]);
            }
        }
    } else if s.len() > 0 {
        assert(lines =~= seq![(s, false)]);
        assert(lines.drop_first() =~= seq![]);
        assert(all_bytes(lines.drop_first()) =~= seq![]);
        assert(all_bytes(lines) =~= s);
    } else {
        assert(s =~= seq![]);
    }
}

/// In single-byte encodings a line has an LF where, and only where, it is ended, and then at its
/// end alone.
pub proof fn law_native_lines_end_at_lf(s: Seq<u8>, encoding: EncodingKind, i: int)
    requires
        !(encoding is Utf16Le),
        !(encoding is Utf16Be),
        0 <= i < native_lines(s, encoding).len(),
    ensures
        ({
            let (line, ended) = native_lines(s, encoding)[i];
            &&& line.len() > 0
            &&& ended == (line.last() == 0x0A)
            &&& forall|k: int| 0 <= k < line.len() - 1 ==> #[trigger] line[k] != 0x0A
        }),
    decreases s.len(),
{
    lemma_single_byte_lf(s, encoding);
    let k = first_native_lf(s, encoding) as int;
    if k + 1 <= s.len() {
        let rest = native_lines(s.skip(k + 1), encoding);
        assert(native_lines(s, encoding) =~= seq![(s.take(k + 1), true)] + rest);
        if i > 0 {
            law_native_lines_end_at_lf(s.skip(k + 1), encoding, i - 1);
        }
    }
}

proof fn lemma_single_byte_lf(s: Seq<u8>, encoding: EncodingKind)
    requires
        !(encoding is Utf16Le),
        !(encoding is Utf16Be),
    ensures
        ({
            let k = first_native_lf(s, encoding) as int;
            &&& k <= s.len()
            &&& k < s.len() ==> s[k] == 0x0A
            &&& forall|j: int| 0 <= j < k ==> #[trigger] s[j] != 0x0A
        }),
    decreases s.len(),
{
    if s.len() > 0 && s[0] != 0x0A {
        let t = s.skip(1);
        lemma_single_byte_lf(t, encoding);
        let k = first_native_lf(s, encoding) as int;
        assert forall|j: int| 0 <= j < k implies #[trigger] s[j] != 0x0A by {
            if j > 0 {
                assert(s[j] == t[j - 1]);
            }
        }
        if k < s.len() {
            assert(s[k] == t[k - 1]);
        }
    }
}

/// A byte-order mark is that of UTF-8 or UTF-16 at the very beginning, and is as long as that;
/// without one there is none.
pub proof fn law_byte_order_marks_are_measured(body: Seq<u8>)
    ensures
        bom_length(EncodingKind::Utf8.bom() + body) == 3,
        bom_length(EncodingKind::Utf16Le.bom() + body) == 2,
        bom_length(EncodingKind::Utf16Be.bom() + body) == 2,
        bom_length(body) > 0 <==> {
            ||| has_mark(body, EncodingKind::Utf8)
            ||| has_mark(body, EncodingKind::Utf16Le)
            ||| has_mark(body, EncodingKind::Utf16Be)
        },
{
    if bom_length(body) == 3 {
        assert(body.take(3) =~= EncodingKind::Utf8.bom());
    } else if bom_length(body) == 2 {
        assert(body[0] == 0xFF ==> body.take(2) =~= EncodingKind::Utf16Le.bom());
        assert(body[0] == 0xFE ==> body.take(2) =~= EncodingKind::Utf16Be.bom());
    } else {
        if has_mark(body, EncodingKind::Utf8) {
            assert(body.take(3)[0] == body[0] && body.take(3)[1] == body[1] && body.take(3)[2]
                == body[2]);
        }
        if has_mark(body, EncodingKind::Utf16Le) || has_mark(body, EncodingKind::Utf16Be) {
            assert(body.take(2)[0] == body[0] && body.take(2)[1] == body[1]);
        }
    }
}

/// Bytes begin with the byte-order mark of an encoding.
pub open spec fn has_mark(bytes: Seq<u8>, kind: EncodingKind) -> bool {
    bytes.len() >= kind.bom().len() && bytes.take(kind.bom().len() as int) == kind.bom()
}

} // verus!
