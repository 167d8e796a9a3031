//! Writing text to a file in the file's own encoding and line endings.

use vstd::prelude::*;
use vstd::string::*;
use vstd::utf8::*;

use crate::diff::{file_diff, similar_unified, unified_diff};
use crate::encoding::{
    bom_bytes_for, decode_text_lossy, denormalize_lf, encode_text_lossy, encoded_lossy,
    encoded_strict, ending_text, is_known, native_lf_to, native_to_lf, normalize_text_to_lf,
    text_lf_to, text_to_lf, unknown_encoding_message, whatwg_sniffed, BomPolicy, EncodingKind,
    LineEnding, OutputEncoding, TextEncoding,
};
use crate::encoding_laws::{
    law_native_conversion_is_text_conversion, law_normalize_undoes_denormalize,
    law_normalized_is_lf_only, lemma_utf8_lacks_nul,
};
use crate::escape::{encode_bytes, escape_bytes};
use crate::layout::lacks_cr;
use crate::source::{
    bom_length, is_utf16_of, lacks_nul, lemma_utf8_behind_bom, open_source, source_of,
};
use crate::text::lemma_encode_utf8_injective;

verus! {

/// What a file to be written is like: encoding, line ending, and whether it begins
/// with a byte-order mark.
#[derive(Debug)]
pub struct Target {
    /// The encoding.
    pub encoding: TextEncoding,
    /// The line ending.
    pub line_ending: LineEnding,
    /// Whether there is a byte-order mark.
    pub had_bom: bool,
}

/// The abstract value of a [`Target`].
pub struct TargetModel {
    /// The encoding.
    pub encoding: EncodingKind,
    /// The line ending.
    pub line_ending: LineEnding,
    /// Whether there is a byte-order mark.
    pub had_bom: bool,
}

impl View for Target {
    type V = TargetModel;

    open spec fn view(&self) -> TargetModel {
        TargetModel {
            encoding: self.encoding@,
            line_ending: self.line_ending,
            had_bom: self.had_bom,
        }
    }
}

/// What is assumed of a file that is new or empty.
pub open spec fn new_target() -> TargetModel {
    TargetModel { encoding: EncodingKind::Utf8, line_ending: LineEnding::Lf, had_bom: false }
}

/// What a file with the given content is like; `None` for a file that is not there.
pub open spec fn target_of(file: Option<Seq<u8>>) -> Result<TargetModel, Seq<char>> {
    match file {
        None => Ok(new_target()),
        Some(bytes) => if bytes.len() == 0 {
            Ok(new_target())
        } else {
            match source_of(bytes) {
                Ok(info) => Ok(
                    TargetModel {
                        encoding: info.encoding,
                        line_ending: info.line_ending,
                        had_bom: info.bom_len > 0,
                    },
                ),
                Err(m) => Err(m),
            }
        },
    }
}

/// The view of optional content.
pub open spec fn opt_bytes(file: Option<&[u8]>) -> Option<Seq<u8>> {
    match file {
        Some(b) => Some(b@),
        None => None,
    }
}

/// Detect what a file to be written is like.
pub fn detect_target(file: Option<&[u8]>) -> (r: Result<Target, String>)
    ensures
        match r {
            Ok(t) => target_of(opt_bytes(file)) == Ok::<TargetModel, Seq<char>>(t@),
            Err(m) => target_of(opt_bytes(file)) == Err::<TargetModel, Seq<char>>(m@),
        },
        r matches Ok(t) ==> is_known(t.encoding@),
{
    match file {
        Some(bytes) => {
            if bytes.len() > 0 {
                return match open_source(bytes) {
                    Ok(info) => Ok(
                        Target {
                            encoding: info.encoding,
                            line_ending: info.line_ending,
                            had_bom: info.bom_len > 0,
                        },
                    ),
                    Err(m) => Err(m),
                };
            }
        },
        None => {},
    }
    Ok(Target { encoding: TextEncoding::Utf8, line_ending: LineEnding::Lf, had_bom: false })
}

/// The bytes that a text is written as, in an encoding: with a byte-order mark where
/// asked for, and each LF as the line ending; `None` where the encoding is unknown.
pub open spec fn written_bytes(
    text: Seq<char>,
    encoding: EncodingKind,
    ending: LineEnding,
    write_bom: bool,
) -> Option<Seq<u8>> {
    match encoded_lossy(text, encoding) {
        Some(b) => Some(
            (if write_bom {
                encoding.bom()
            } else {
                seq![]
            }) + native_lf_to(b, encoding, ending),
        ),
        None => None,
    }
}

/// The bytes that a text is written as.
pub fn encode_for_file(text: &str, encoding: &TextEncoding, ending: LineEnding, write_bom: bool) -> (r: Result<
    Vec<u8>,
    String,
>)
    ensures
        match r {
            Ok(b) => written_bytes(text@, encoding@, ending, write_bom) == Some(b@),
            Err(m) => written_bytes(text@, encoding@, ending, write_bom) is None && m@
                == unknown_encoding_message(encoding@.name()),
        },
        is_known(encoding@) ==> r is Ok,
{
    match encode_text_lossy(text, encoding) {
        Some(b) => {
            let body = denormalize_lf(b, encoding, ending);
            let mut out: Vec<u8> = Vec::new();
            if write_bom {
                out.extend_from_slice(bom_bytes_for(encoding).as_slice());
            }
            out.extend_from_slice(body.as_slice());
            proof {
                assert(out@ =~= written_bytes(text@, encoding@, ending, write_bom)->0);
            }
            Ok(out)
        },
        None => {
            let mut m = "unknown encoding ".to_owned();
            m.push_str(encoding.name());
            Err(m)
        },
    }
}

/// The encoding to write in.
pub open spec fn output_kind(output: OutputEncoding, target: TargetModel) -> EncodingKind {
    match output {
        OutputEncoding::Preserve => target.encoding,
        OutputEncoding::Utf8 => EncodingKind::Utf8,
    }
}

/// Whether a byte-order mark is written: as it was found where the encoding is
/// preserved, and as the policy says where the output becomes UTF-8.
pub open spec fn writes_bom(output: OutputEncoding, policy: BomPolicy, had_bom: bool) -> bool {
    match output {
        OutputEncoding::Preserve => had_bom,
        OutputEncoding::Utf8 => match policy {
            BomPolicy::Strip => false,
            BomPolicy::Preserve => had_bom,
            BomPolicy::Force => true,
        },
    }
}

/// The line ending to write: the one asked for, or the file's own.
pub open spec fn output_ending(asked: Option<LineEnding>, target: TargetModel) -> LineEnding {
    match asked {
        Some(e) => e,
        None => target.line_ending,
    }
}

/// The diff between a file's content and a new text.
pub open spec fn text_diff(
    label: Seq<char>,
    old_bytes: Seq<u8>,
    encoding: EncodingKind,
    new_text: Seq<char>,
) -> Option<Seq<char>> {
    match whatwg_sniffed(encoding.name(), old_bytes) {
        Some(t) => Some(file_diff(label, text_to_lf(t), new_text)),
        None => None,
    }
}

/// The unified diff between a file's content, with line endings normalised, and a new
/// text.
pub fn emit_text_diff(label: &str, old_bytes: &[u8], encoding: &TextEncoding, new_text: &str) -> (r: Result<
    String,
    String,
>)
    ensures
        match r {
            Ok(d) => text_diff(label@, old_bytes@, encoding@, new_text@) == Some(d@),
            Err(m) => text_diff(label@, old_bytes@, encoding@, new_text@) is None && m@
                == unknown_encoding_message(encoding@.name()),
        },
        is_known(encoding@) ==> r is Ok,
{
    match decode_text_lossy(old_bytes, encoding) {
        Ok(t) => {
            let old_text = normalize_text_to_lf(t.as_str());
            Ok(unified_diff(label, old_text.as_str(), new_text))
        },
        Err(m) => Err(m),
    }
}

/// What to write to a file, and what to check and show.
#[derive(Debug)]
pub struct WritePlan {
    /// The content.
    pub bytes: Vec<u8>,
    /// The text before, for a check before the content is written.
    pub old_text: Option<String>,
    /// The unified diff.
    pub diff: Option<String>,
}

/// The plan for a write.
pub open spec fn is_write_plan(
    plan: WritePlan,
    label: Seq<char>,
    old: Option<Seq<u8>>,
    content: Seq<char>,
    target: TargetModel,
    output: OutputEncoding,
    policy: BomPolicy,
    asked: Option<LineEnding>,
    want_old_text: bool,
    want_diff: bool,
) -> bool {
    &&& written_bytes(
        content,
        output_kind(output, target),
        output_ending(asked, target),
        writes_bom(output, policy, target.had_bom),
    ) == Some(plan.bytes@)
    &&& match plan.old_text {
        Some(t) => want_old_text && match old {
            Some(b) => whatwg_sniffed(target.encoding.name(), b) == Some(t@),
            None => t@.len() == 0,
        },
        None => !want_old_text,
    }
    &&& match plan.diff {
        Some(d) => want_diff && old is Some && text_diff(
            label,
            old->0,
            target.encoding,
            content,
        ) == Some(d@),
        None => !want_diff || old is None,
    }
}

/// Write `content` to a file with the given content before; `None` for a file that is
/// not there. The text before is handed back for a check where `want_old_text`.
pub fn run(
    label: &str,
    old: Option<&[u8]>,
    content: &str,
    output_encoding: OutputEncoding,
    bom_policy: BomPolicy,
    line_ending_override: Option<LineEnding>,
    want_old_text: bool,
    want_diff: bool,
) -> (r: Result<WritePlan, String>)
    ensures
        match target_of(opt_bytes(old)) {
            Err(m) => r is Err && r->Err_0@ == m,
            Ok(target) => r matches Ok(plan) && is_write_plan(
                plan,
                label@,
                opt_bytes(old),
                content@,
                target,
                output_encoding,
                bom_policy,
                line_ending_override,
                want_old_text,
                want_diff,
            ),
        },
{
    let target = match detect_target(old) {
        Ok(t) => t,
        Err(m) => {
            return Err(m);
        },
    };
    let ending = match line_ending_override {
        Some(e) => e,
        None => target.line_ending,
    };
    let old_text = if want_old_text {
        match old {
            Some(b) => match decode_text_lossy(b, &target.encoding) {
                Ok(t) => Some(t),
                Err(m) => {
                    return Err(m);
                },
            },
            None => Some(String::new()),
        }
    } else {
        None
    };
    let encoding = match output_encoding {
        OutputEncoding::Preserve => target.encoding.clone(),
        OutputEncoding::Utf8 => TextEncoding::Utf8,
    };
    let write_bom = match output_encoding {
        OutputEncoding::Preserve => target.had_bom,
        OutputEncoding::Utf8 => match bom_policy {
            BomPolicy::Strip => false,
            BomPolicy::Preserve => target.had_bom,
            BomPolicy::Force => true,
        },
    };
    let bytes = match encode_for_file(content, &encoding, ending, write_bom) {
        Ok(b) => b,
        Err(m) => {
            return Err(m);
        },
    };
    let diff = if want_diff {
        match old {
            Some(b) => match emit_text_diff(label, b, &target.encoding, content) {
                Ok(d) => Some(d),
                Err(m) => {
                    return Err(m);
                },
            },
            None => None,
        }
    } else {
        None
    };
    Ok(WritePlan { bytes, old_text, diff })
}

/// The content of a new file.
pub open spec fn new_file_bytes(
    content: Seq<char>,
    output: OutputEncoding,
    policy: BomPolicy,
    asked: Option<LineEnding>,
) -> Seq<u8> {
    (if output == OutputEncoding::Utf8 && policy == BomPolicy::Force {
        EncodingKind::Utf8.bom()
    } else {
        seq![]
    }) + native_lf_to(
        encode_utf8(content),
        EncodingKind::Utf8,
        match asked {
            Some(e) => e,
            None => LineEnding::Lf,
        },
    )
}

/// Encode the content of a new file: UTF-8, and LF unless another line ending is asked
/// for.
pub fn encode_new_file_content(
    content: &str,
    output_encoding: OutputEncoding,
    bom_policy: BomPolicy,
    line_ending_override: Option<LineEnding>,
) -> (r: Vec<u8>)
    ensures
        r@ == new_file_bytes(content@, output_encoding, bom_policy, line_ending_override),
{
    let ending = match line_ending_override {
        Some(e) => e,
        None => LineEnding::Lf,
    };
    let mut body: Vec<u8> = Vec::new();
    body.extend_from_slice(content.as_bytes());
    proof {
        assert(body@ =~= encode_utf8(content@));
    }
    let body = denormalize_lf(body, &TextEncoding::Utf8, ending);
    let mut out: Vec<u8> = Vec::new();
    if output_encoding == OutputEncoding::Utf8 && bom_policy == BomPolicy::Force {
        out.extend_from_slice(bom_bytes_for(&TextEncoding::Utf8).as_slice());
    }
    out.extend_from_slice(body.as_slice());
    proof {
        assert(out@ =~= new_file_bytes(
            content@,
            output_encoding,
            bom_policy,
            line_ending_override,
        ));
    }
    out
}

/// The diff between two byte strings, by their escaped forms.
pub open spec fn binary_diff(label: Seq<char>, old_bytes: Seq<u8>, new_bytes: Seq<u8>) -> Seq<char> {
    file_diff(label, escape_bytes(old_bytes).push('\n'), escape_bytes(new_bytes).push('\n'))
}

/// The unified diff between the escaped forms of two byte strings.
pub fn emit_binary_diff(label: &str, old_bytes: &[u8], new_bytes: &[u8]) -> (r: String)
    ensures
        r@ == binary_diff(label@, old_bytes@, new_bytes@),
{
    let mut old_text = encode_bytes(old_bytes);
    old_text.push('\n');
    let mut new_text = encode_bytes(new_bytes);
    new_text.push('\n');
    unified_diff(label, old_text.as_str(), new_text.as_str())
}

/// Write bytes to a file as they are: the diff to show, where there is something to
/// compare with and it is asked for.
pub fn run_binary(label: &str, old: Option<&[u8]>, new_bytes: &[u8], want_diff: bool) -> (r: Option<
    String,
>)
    ensures
        match r {
            Some(d) => want_diff && old is Some && d@ == binary_diff(
                label@,
                old->0@,
                new_bytes@,
            ),
            None => !want_diff || old is None,
        },
{
    if want_diff {
        match old {
            Some(b) => {
                return Some(emit_binary_diff(label, b, new_bytes));
            },
            None => {},
        }
    }
    None
}

// ── Laws ────────────────────────────────────────────────────────────────────

/// What is written reads back: behind the byte-order mark, and with line endings
/// normalised, the written bytes are those of the text, for UTF-8 and UTF-16 and any
/// line ending.
pub proof fn law_written_text_reads_back(
    text: Seq<char>,
    encoding: EncodingKind,
    ending: LineEnding,
    write_bom: bool,
)
    requires
        !(encoding is Legacy),
        lacks_cr(text),
    ensures
        ({
            let bom = if write_bom {
                encoding.bom()
            } else {
                seq![]
            };
            let bytes = written_bytes(text, encoding, ending, write_bom)->0;
            &&& written_bytes(text, encoding, ending, write_bom) is Some
            &&& bytes.take(bom.len() as int) == bom
            &&& Ok::<Seq<u8>, Seq<char>>(native_to_lf(bytes.skip(bom.len() as int), encoding))
                == encoded_strict(text, encoding)
        }),
{
    let b = encoded_lossy(text, encoding)->0;
    let bom = if write_bom {
        encoding.bom()
    } else {
        seq![]
    };
    law_native_conversion_is_text_conversion(text, encoding, ending);
    lemma_lf_text(text);
    law_normalized_is_lf_only(b, encoding);
    law_normalize_undoes_denormalize(b, encoding, ending);
    let bytes = written_bytes(text, encoding, ending, write_bom)->0;
    assert(bytes.take(bom.len() as int) =~= bom);
    assert(bytes.skip(bom.len() as int) =~= native_lf_to(b, encoding, ending));
}

/// A text that is read back as it was written in UTF-8: it holds neither CR nor NUL, and
/// does not begin with what would be taken for a byte-order mark.
pub open spec fn is_plain(text: Seq<char>, write_bom: bool) -> bool {
    &&& lacks_cr(text)
    &&& forall|i: int| 0 <= i < text.len() ==> #[trigger] text[i] != '\0'
    &&& write_bom || text.len() == 0 || text[0] != '\u{FEFF}'
}

/// What is written in UTF-8 reads back as the text: it is valid UTF-8 without NUL, which
/// [`read_text`](crate::source::read_text) takes for UTF-8, and behind the byte-order mark
/// and with line endings normalised it is the text.
pub proof fn law_written_utf8_reads_back(text: Seq<char>, ending: LineEnding, write_bom: bool)
    requires
        is_plain(text, write_bom),
    ensures
        written_bytes(text, EncodingKind::Utf8, ending, write_bom) matches Some(bytes) && {
            &&& valid_utf8(bytes)
            &&& lacks_nul(bytes)
            &&& bom_length(bytes) == (if write_bom {
                3nat
            } else {
                0
            })
            &&& text_to_lf(decode_utf8(bytes.skip(bom_length(bytes) as int))) == text
        },
{
    let kind = EncodingKind::Utf8;
    let bytes = written_bytes(text, kind, ending, write_bom)->0;
    let shown = text_lf_to(text, ending);
    let body = encode_utf8(shown);
    law_native_conversion_is_text_conversion(text, kind, ending);
    encode_utf8_valid_utf8(shown);
    encode_utf8_decode_utf8(shown);
    let bom = if write_bom {
        kind.bom()
    } else {
        seq![]
    };
    assert(bytes =~= bom + body);
    assert(bytes.skip(bom.len() as int) =~= body);
    lemma_lf_to_back(text, ending);
    lemma_lf_to_lacks_nul(text, ending);
    lemma_utf8_lacks_nul(shown);
    if write_bom {
        lemma_bom_is_utf8();
        valid_utf8_concat(bom, body);
        assert forall|i: int| 0 <= i < bytes.len() implies #[trigger] bytes[i] != 0 by {
            if i >= 3 {
                assert(bytes[i] == body[i - 3]);
            }
        }
    } else {
        assert(bytes =~= body);
        lemma_utf8_behind_bom(bytes);
        if bom_length(bytes) == 3 {
            lemma_marked_text(bytes);
            assert(shown[0] == '\u{FEFF}');
            assert(text.len() > 0 && (text[0] == '\n' || shown[0] == text[0]));
            assert(ending_text(ending)[0] != '\u{FEFF}');
        }
    }
}

/// A text without CR comes back from any line ending.
proof fn lemma_lf_to_back(text: Seq<char>, ending: LineEnding)
    requires
        lacks_cr(text),
    ensures
        text_to_lf(text_lf_to(text, ending)) == text,
{
    let kind = EncodingKind::Utf8;
    let shown = text_lf_to(text, ending);
    law_native_conversion_is_text_conversion(text, kind, ending);
    law_native_conversion_is_text_conversion(shown, kind, ending);
    law_written_text_reads_back(text, kind, ending, false);
    let body = encode_utf8(shown);
    assert(written_bytes(text, kind, ending, false)->0 =~= body);
    assert(body.skip(0) =~= body);
    lemma_encode_utf8_injective(text_to_lf(shown), text);
}

/// What is written in UTF-16 with a byte-order mark reads back as the text: it is the
/// UTF-16 of the text with the line ending, which
/// [`read_text`](crate::source::read_text) takes for that.
pub proof fn law_written_utf16_reads_back(text: Seq<char>, kind: EncodingKind, ending: LineEnding)
    requires
        kind is Utf16Le || kind is Utf16Be,
        lacks_cr(text),
    ensures
        written_bytes(text, kind, ending, true) matches Some(bytes) && is_utf16_of(
            bytes,
            text_lf_to(text, ending),
            kind,
        ),
        text_to_lf(text_lf_to(text, ending)) == text,
{
    law_native_conversion_is_text_conversion(text, kind, ending);
    lemma_lf_to_back(text, ending);
}

proof fn lemma_lf_to_lacks_nul(text: Seq<char>, ending: LineEnding)
    requires
        forall|i: int| 0 <= i < text.len() ==> #[trigger] text[i] != '\0',
    ensures
        forall|i: int|
            0 <= i < text_lf_to(text, ending).len() ==> #[trigger] text_lf_to(text, ending)[i]
                != '\0',
    decreases text.len(),
{
    if text.len() > 0 {
        let rest = text.skip(1);
        assert forall|i: int| 0 <= i < rest.len() implies #[trigger] rest[i] != '\0' by {
            assert(rest[i] == text[i + 1]);
        }
        lemma_lf_to_lacks_nul(rest, ending);
        let head = if text[0] == '\n' {
            ending_text(ending)
        } else {
            seq![text[0]]
        };
        let tail = text_lf_to(rest, ending);
        let all = text_lf_to(text, ending);
        assert(all =~= head + tail);
        assert forall|i: int| 0 <= i < all.len() implies #[trigger] all[i] != '\0' by {
            if i >= head.len() {
                assert(all[i] == tail[i - head.len()]);
            } else {
                assert(all[i] == head[i]);
            }
        }
    }
}

proof fn lemma_bom_is_utf8()
    ensures
        valid_utf8(EncodingKind::Utf8.bom()),
{
    let bom = EncodingKind::Utf8.bom();
    let (a, b, c) = (0xEFu8, 0xBBu8, 0xBFu8);
    assert(bom =~= seq![a, b, c]);
    assert(is_leading_byte_width_3(a) && !is_leading_byte_width_1(a) && !is_leading_byte_width_2(a)
        && is_continuation_byte(b) && is_continuation_byte(c) && codepoint_width_3(a, b, c)
        == 0xFEFF) by (bit_vector)
        requires
            a == 0xEF,
            b == 0xBB,
            c == 0xBF,
    ;
    assert(pop_first_scalar(bom) =~= seq![]);
    assert(valid_utf8(pop_first_scalar(bom)));
}

/// Valid UTF-8 that begins with the byte-order mark is a text that begins with U+FEFF.
proof fn lemma_marked_text(bytes: Seq<u8>)
    requires
        valid_utf8(bytes),
        bom_length(bytes) == 3,
    ensures
        decode_utf8(bytes).len() > 0,
        decode_utf8(bytes)[0] == '\u{FEFF}',
{
    let (a, b, c) = (bytes[0], bytes[1], bytes[2]);
    assert(is_leading_byte_width_3(a) && !is_leading_byte_width_1(a) && !is_leading_byte_width_2(a)
        && is_continuation_byte(b) && is_continuation_byte(c) && codepoint_width_3(a, b, c)
        == 0xFEFF) by (bit_vector)
        requires
            a == 0xEF,
            b == 0xBB,
            c == 0xBF,
    ;
    assert(decode_first_scalar(bytes) == 0xFEFF);
    char_u32_cast('\u{FEFF}', 0xFEFF);
}

/// UTF-8 without NUL is a text without NUL.
proof fn lemma_text_lacks_nul(s: Seq<char>)
    requires
        lacks_nul(encode_utf8(s)),
    ensures
        forall|i: int| 0 <= i < s.len() ==> #[trigger] s[i] != '\0',
    decreases s.len(),
{
    if s.len() > 0 {
        let bytes = encode_utf8(s);
        let head = encode_scalar(s[0] as u32);
        let rest = s.drop_first();
        let tail = encode_utf8(rest);
        assert(bytes =~= head + tail);
        assert forall|i: int| 0 <= i < tail.len() implies #[trigger] tail[i] != 0 by {
            assert(tail[i] == bytes[head.len() + i]);
        }
        lemma_text_lacks_nul(rest);
        if s[0] == '\0' {
            let v = 0u32;
            assert(leading_byte_width_1(v) == 0) by (bit_vector)
                requires
                    v == 0,
            ;
            assert(head =~= seq![0u8]);
            assert(bytes[0] == head[0]);
        }
        assert forall|i: int| 0 <= i < s.len() implies #[trigger] s[i] != '\0' by {
            if i > 0 {
                assert(s[i] == rest[i - 1]);
            }
        }
    }
}

/// A normalised text holds no CR.
pub proof fn lemma_text_to_lf_lacks_cr(s: Seq<char>)
    ensures
        lacks_cr(text_to_lf(s)),
    decreases s.len(),
{
    if s.len() > 0 {
        let n: int = if s[0] == '\r' && s.len() > 1 && s[1] == '\n' {
            2
        } else {
            1
        };
        let head = if s[0] == '\r' {
            '\n'
        } else {
            s[0]
        };
        lemma_text_to_lf_lacks_cr(s.skip(n));
        let tail = text_to_lf(s.skip(n));
        let all = text_to_lf(s);
        assert(all =~= seq![head] + tail);
        assert forall|i: int| 0 <= i < all.len() implies #[trigger] all[i] != '\r' by {
            if i > 0 {
                assert(all[i] == tail[i - 1]);
            }
        }
    }
}

/// A normalised text holds no NUL where there was none, and begins as before or with a
/// line ending.
proof fn lemma_normalised_text(s: Seq<char>)
    requires
        forall|i: int| 0 <= i < s.len() ==> #[trigger] s[i] != '\0',
    ensures
        forall|i: int| 0 <= i < text_to_lf(s).len() ==> #[trigger] text_to_lf(s)[i] != '\0',
        text_to_lf(s).len() > 0 ==> s.len() > 0 && (text_to_lf(s)[0] == '\n' || text_to_lf(s)[0]
            == s[0]),
    decreases s.len(),
{
    if s.len() > 0 {
        let n: int = if s[0] == '\r' && s.len() > 1 && s[1] == '\n' {
            2
        } else {
            1
        };
        let head = if s[0] == '\r' {
            '\n'
        } else {
            s[0]
        };
        let rest = s.skip(n);
        assert forall|i: int| 0 <= i < rest.len() implies #[trigger] rest[i] != '\0' by {
            assert(rest[i] == s[i + n]);
        }
        lemma_normalised_text(rest);
        let tail = text_to_lf(rest);
        let all = text_to_lf(s);
        assert(all =~= seq![head] + tail);
        assert forall|i: int| 0 <= i < all.len() implies #[trigger] all[i] != '\0' by {
            if i > 0 {
                assert(all[i] == tail[i - 1]);
            }
        }
    }
}

/// A text that begins with U+FEFF begins, in UTF-8, with the byte-order mark.
proof fn lemma_text_is_marked(s: Seq<char>)
    requires
        s.len() > 0,
        s[0] == '\u{FEFF}',
    ensures
        bom_length(encode_utf8(s)) == 3,
{
    let bom = EncodingKind::Utf8.bom();
    lemma_bom_is_utf8();
    lemma_marked_text(bom);
    decode_utf8_encode_utf8(bom);
    let t = decode_utf8(bom);
    let head = encode_scalar(t[0] as u32);
    assert(bom =~= head + encode_utf8(t.drop_first()));
    encode_utf8_first_scalar(t);
    assert(head.len() == 3) by {
        char_u32_cast('\u{FEFF}', 0xFEFF);
    }
    let bytes = encode_utf8(s);
    assert(bytes =~= head + encode_utf8(s.drop_first()));
    assert(bytes[0] == head[0] && bytes[1] == head[1] && bytes[2] == head[2]);
    assert(bom[0] == head[0] && bom[1] == head[1] && bom[2] == head[2]);
}

/// The text of a file in UTF-8 without NUL, with line endings normalised, is one that is
/// read back as it is written.
pub proof fn law_utf8_holds_plain_text(bytes: Seq<u8>)
    requires
        valid_utf8(bytes),
        lacks_nul(bytes),
    ensures
        is_plain(
            text_to_lf(decode_utf8(bytes.skip(bom_length(bytes) as int))),
            bom_length(bytes) > 0,
        ),
{
    lemma_utf8_behind_bom(bytes);
    let n = bom_length(bytes) as int;
    let body = bytes.skip(n);
    let x = decode_utf8(body);
    decode_utf8_encode_utf8(body);
    assert forall|i: int| 0 <= i < body.len() implies #[trigger] body[i] != 0 by {
        assert(body[i] == bytes[i + n]);
    }
    lemma_text_lacks_nul(x);
    lemma_text_to_lf_lacks_cr(x);
    lemma_normalised_text(x);
    if n == 0 {
        assert(body =~= bytes);
        if x.len() > 0 && x[0] == '\u{FEFF}' {
            lemma_text_is_marked(x);
        }
    }
}

/// Normalising a text without CR changes nothing.
pub proof fn lemma_lf_text(s: Seq<char>)
    requires
        lacks_cr(s),
    ensures
        text_to_lf(s) == s,
    decreases s.len(),
{
    if s.len() > 0 {
        let rest = s.skip(1);
        assert forall|i: int| 0 <= i < rest.len() implies #[trigger] rest[i] != '\r' by {
            assert(rest[i] == s[i + 1]);
        }
        lemma_lf_text(rest);
        assert(seq![s[0]] + rest =~= s);
    } else {
        assert(text_to_lf(s) =~= s);
    }
}

/// Writing to a file that is not there writes the content of a new file.
pub proof fn law_write_to_nothing_is_a_new_file(
    content: Seq<char>,
    output: OutputEncoding,
    policy: BomPolicy,
    asked: Option<LineEnding>,
)
    ensures
        ({
            let target = target_of(None)->Ok_0;
            written_bytes(
                content,
                output_kind(output, target),
                output_ending(asked, target),
                writes_bom(output, policy, target.had_bom),
            ) == Some(new_file_bytes(content, output, policy, asked))
        }),
{
}

/// A write keeps the file's encoding, byte-order mark and line ending unless others are asked
/// for: the encoding becomes UTF-8 where that is asked for, and only then does the policy
/// decide on the byte-order mark; behind that stands the content, with the line ending asked
/// for or the file's own.
pub proof fn law_a_write_keeps_the_ways_of_the_file(
    plan: WritePlan,
    label: Seq<char>,
    old: Option<Seq<u8>>,
    content: Seq<char>,
    target: TargetModel,
    output: OutputEncoding,
    policy: BomPolicy,
    asked: Option<LineEnding>,
    want_old_text: bool,
    want_diff: bool,
)
    requires
        is_write_plan(
            plan,
            label,
            old,
            content,
            target,
            output,
            policy,
            asked,
            want_old_text,
            want_diff,
        ),
        lacks_cr(content),
        output == OutputEncoding::Preserve ==> !(target.encoding is Legacy),
    ensures
        ({
            let kind = if output == OutputEncoding::Utf8 {
                EncodingKind::Utf8
            } else {
                target.encoding
            };
            let marked = if output == OutputEncoding::Preserve {
                target.had_bom
            } else {
                policy == BomPolicy::Force || (policy == BomPolicy::Preserve && target.had_bom)
            };
            let bom = if marked {
                kind.bom()
            } else {
                seq![]
            };
            let ending = if asked is Some {
                asked->0
            } else {
                target.line_ending
            };
            let body = plan.bytes@.skip(bom.len() as int);
            &&& plan.bytes@ == bom + body
            &&& encoded_strict(text_lf_to(content, ending), kind) == Ok::<Seq<u8>, Seq<char>>(body)
            &&& encoded_strict(content, kind) == Ok::<Seq<u8>, Seq<char>>(native_to_lf(body, kind))
            &&& want_old_text == (plan.old_text is Some)
            &&& (plan.diff is Some) == (want_diff && old is Some)
        }),
{
    let kind = output_kind(output, target);
    let ending = output_ending(asked, target);
    let marked = writes_bom(output, policy, target.had_bom);
    let bom = if marked {
        kind.bom()
    } else {
        seq![]
    };
    law_written_text_reads_back(content, kind, ending, marked);
    law_native_conversion_is_text_conversion(content, kind, ending);
    assert(plan.bytes@ =~= bom + plan.bytes@.skip(bom.len() as int));
    assert(plan.bytes@.skip(bom.len() as int) =~= native_lf_to(
        encoded_lossy(content, kind)->0,
        kind,
        ending,
    ));
}

/// A file that is not there, or empty, is written in UTF-8 without a byte-order mark and with
/// LF, unless others are asked for.
pub proof fn law_new_files_are_plain_utf8(content: Seq<char>)
    requires
        lacks_cr(content),
    ensures
        target_of(None) == target_of(Some(seq![])),
        target_of(None) matches Ok(t) && t.encoding == EncodingKind::Utf8 && t.line_ending
            == LineEnding::Lf && !t.had_bom,
        new_file_bytes(content, OutputEncoding::Preserve, BomPolicy::Strip, None) == encode_utf8(
            content,
        ),
        new_file_bytes(content, OutputEncoding::Utf8, BomPolicy::Strip, None) == encode_utf8(
            content,
        ),
        new_file_bytes(content, OutputEncoding::Utf8, BomPolicy::Preserve, None) == encode_utf8(
            content,
        ),
        new_file_bytes(content, OutputEncoding::Utf8, BomPolicy::Force, None) == seq![
            0xEFu8,
            0xBBu8,
            0xBFu8,
        ] + encode_utf8(content),
        forall|e: LineEnding| #[trigger]
            new_file_bytes(content, OutputEncoding::Preserve, BomPolicy::Strip, Some(e))
                == encode_utf8(text_lf_to(content, e)),
{
    let b = encode_utf8(content);
    assert(Seq::<u8>::empty() + b =~= b);
    assert forall|e: LineEnding| #[trigger]
        new_file_bytes(content, OutputEncoding::Preserve, BomPolicy::Strip, Some(e))
            == encode_utf8(text_lf_to(content, e)) by {
        law_native_conversion_is_text_conversion(content, EncodingKind::Utf8, e);
        let c = native_lf_to(b, EncodingKind::Utf8, e);
        assert(Seq::<u8>::empty() + c =~= c);
    }
}

/// A diff compares what was there with what is written, in this order and under the file's name
/// on both sides: texts with the old line endings normalised, and bytes in their escaped forms.
pub proof fn law_diffs_compare_old_with_new(
    label: Seq<char>,
    old_bytes: Seq<u8>,
    encoding: EncodingKind,
    new_text: Seq<char>,
    new_bytes: Seq<u8>,
)
    ensures
        match whatwg_sniffed(encoding.name(), old_bytes) {
            Some(t) => text_diff(label, old_bytes, encoding, new_text) == Some(
                similar_unified(text_to_lf(t), new_text, "a/"@ + label, "b/"@ + label),
            ),
            None => text_diff(label, old_bytes, encoding, new_text) is None,
        },
        binary_diff(label, old_bytes, new_bytes) == similar_unified(
            escape_bytes(old_bytes).push('\n'),
            escape_bytes(new_bytes).push('\n'),
            "a/"@ + label,
            "b/"@ + label,
        ),
{
}

} // verus!
