//! Appending text to a file in the file's own encoding and line endings.

use vstd::prelude::*;
use vstd::string::*;

use crate::cmd::write::{
    emit_text_diff, encode_for_file, law_written_text_reads_back, new_target, text_diff,
    written_bytes, TargetModel,
};
use crate::encoding::{
    encoded_lossy, encoded_strict, native_lf_to, native_to_lf, text_lf_to, EncodingKind, LineEnding,
    TextEncoding,
};
use crate::encoding_laws::{
    law_native_conversion_is_text_conversion, lemma_utf16_add, lemma_utf8_add,
};
use crate::layout::lacks_cr;
use crate::source::{show_text, shown_text, source_of};

verus! {

/// What appending comes to.
#[derive(Debug)]
pub struct AppendPlan {
    /// The content to write; `None` for a preview.
    pub bytes: Option<Vec<u8>>,
    /// The text before, for a check before the content is written.
    pub old_text: String,
    /// The text after.
    pub new_text: String,
    /// The unified diff, for a preview.
    pub diff: Option<String>,
}

/// What a file is like, and its text; nothing in UTF-8 with LF for an empty file.
pub open spec fn existing(file: Seq<u8>) -> Result<(TargetModel, Seq<char>), Seq<char>> {
    if file.len() == 0 {
        Ok((new_target(), seq![]))
    } else {
        match (source_of(file), shown_text(file)) {
            (Ok(info), Ok(text)) => Ok(
                (
                    TargetModel {
                        encoding: info.encoding,
                        line_ending: info.line_ending,
                        had_bom: info.bom_len > 0,
                    },
                    text,
                ),
            ),
            (_, Err(m)) => Err(m),
            (Err(m), _) => Err(m),
        }
    }
}

/// The plan for appending `new_text`: the whole content with it, or where `preview` a
/// diff.
pub open spec fn is_append_plan(
    plan: AppendPlan,
    label: Seq<char>,
    file: Seq<u8>,
    target: TargetModel,
    text: Seq<char>,
    new_text: Seq<char>,
    asked: Option<LineEnding>,
    preview: bool,
) -> bool {
    let ending = match asked {
        Some(e) => e,
        None => target.line_ending,
    };
    &&& plan.old_text@ == text
    &&& plan.new_text@ == text + new_text
    &&& match plan.bytes {
        Some(b) => !preview && written_bytes(
            text + new_text,
            target.encoding,
            ending,
            target.had_bom,
        ) == Some(b@),
        None => preview,
    }
    &&& match plan.diff {
        Some(d) => preview && text_diff(label, file, target.encoding, text + new_text) == Some(d@),
        None => !preview,
    }
}

/// Append text to a file with the given content.
pub fn run(
    label: &str,
    file: &[u8],
    new_text: &str,
    line_ending_override: Option<LineEnding>,
    preview: bool,
) -> (r: Result<AppendPlan, String>)
    ensures
        match existing(file@) {
            Err(m) => r is Err && r->Err_0@ == m,
            Ok((target, text)) => r matches Ok(plan) && is_append_plan(
                plan,
                label@,
                file@,
                target,
                text,
                new_text@,
                line_ending_override,
                preview,
            ),
        },
{
    let (encoding, detected, had_bom, old_text) = if file.len() == 0 {
        (TextEncoding::Utf8, LineEnding::Lf, false, String::new())
    } else {
        match show_text(file) {
            Ok(s) => (s.encoding, s.line_ending, s.had_bom, s.text),
            Err(m) => {
                return Err(m);
            },
        }
    };
    let ending = match line_ending_override {
        Some(e) => e,
        None => detected,
    };
    let mut combined = old_text.clone();
    combined.push_str(new_text);
    if preview {
        return match emit_text_diff(label, file, &encoding, combined.as_str()) {
            Ok(d) => Ok(AppendPlan { bytes: None, old_text, new_text: combined, diff: Some(d) }),
            Err(m) => Err(m),
        };
    }
    match encode_for_file(combined.as_str(), &encoding, ending, had_bom) {
        Ok(b) => Ok(AppendPlan { bytes: Some(b), old_text, new_text: combined, diff: None }),
        Err(m) => Err(m),
    }
}

/// Refuse to append to the file called `label` if it is not there.
pub fn check_exists(label: &str, exists: bool) -> (r: Result<(), String>)
    ensures
        match r {
            Ok(_) => exists,
            Err(m) => !exists && m@ == "append: file does not exist: "@ + label@
                + "; use 'tpu write' to create new files"@,
        },
{
    if exists {
        return Ok(());
    }
    let mut m = "append: file does not exist: ".to_owned();
    m.push_str(label);
    m.push_str("; use 'tpu write' to create new files");
    Err(m)
}

// ── Laws ────────────────────────────────────────────────────────────────────

/// Appending keeps what is there: behind the byte-order mark, and with line endings
/// normalised, the written bytes are those of the text before and behind them those of
/// the new text, for UTF-8 and UTF-16 and any line ending.
pub proof fn law_append_keeps_what_is_there(
    text: Seq<char>,
    new_text: Seq<char>,
    target: TargetModel,
    ending: LineEnding,
)
    requires
        !(target.encoding is Legacy),
        lacks_cr(text),
        lacks_cr(new_text),
    ensures
        ({
            let bom = if target.had_bom {
                target.encoding.bom()
            } else {
                seq![]
            };
            let bytes = written_bytes(text + new_text, target.encoding, ending, target.had_bom)->0;
            &&& written_bytes(text + new_text, target.encoding, ending, target.had_bom) is Some
            &&& bytes.take(bom.len() as int) == bom
            &&& native_to_lf(bytes.skip(bom.len() as int), target.encoding) == encoded_strict(
                text,
                target.encoding,
            )->Ok_0 + encoded_strict(new_text, target.encoding)->Ok_0
        }),
{
    let all = text + new_text;
    assert(lacks_cr(all));
    law_written_text_reads_back(all, target.encoding, ending, target.had_bom);
    match target.encoding {
        EncodingKind::Utf8 => {
            lemma_utf8_add(text, new_text);
        },
        EncodingKind::Utf16Le => {
            lemma_utf16_add(text, new_text, false);
        },
        EncodingKind::Utf16Be => {
            lemma_utf16_add(text, new_text, true);
        },
        EncodingKind::Legacy(_) => {},
    }
}

/// Appending writes what was there and behind it the new text, as it is, in the file's encoding
/// and with its byte-order mark where it has one; with the line ending asked for, or the
/// file's own. A preview writes nothing.
pub proof fn law_an_append_adds_the_text(
    plan: AppendPlan,
    label: Seq<char>,
    file: Seq<u8>,
    target: TargetModel,
    text: Seq<char>,
    new_text: Seq<char>,
    asked: Option<LineEnding>,
    preview: bool,
)
    requires
        is_append_plan(plan, label, file, target, text, new_text, asked, preview),
        lacks_cr(text),
        lacks_cr(new_text),
        !(target.encoding is Legacy),
    ensures
        plan.old_text@ == text,
        plan.new_text@ == text + new_text,
        preview ==> plan.bytes is None && plan.diff is Some,
        !preview ==> plan.diff is None && (plan.bytes matches Some(b) && {
            let bom = if target.had_bom {
                target.encoding.bom()
            } else {
                seq![]
            };
            let ending = if asked is Some {
                asked->0
            } else {
                target.line_ending
            };
            &&& b@.take(bom.len() as int) == bom
            &&& encoded_strict(text_lf_to(text + new_text, ending), target.encoding) == Ok::<
                Seq<u8>,
                Seq<char>,
            >(b@.skip(bom.len() as int))
        }),
{
    if !preview {
        let ending = if asked is Some {
            asked->0
        } else {
            target.line_ending
        };
        let bom = if target.had_bom {
            target.encoding.bom()
        } else {
            seq![]
        };
        law_native_conversion_is_text_conversion(text + new_text, target.encoding, ending);
        let b = plan.bytes->0@;
        assert(b.take(bom.len() as int) =~= bom);
        assert(b.skip(bom.len() as int) =~= native_lf_to(
            encoded_lossy(text + new_text, target.encoding)->0,
            target.encoding,
            ending,
        ));
    }
}

} // verus!
