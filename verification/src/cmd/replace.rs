//! Replacement on an encoding-aware view of a file, with line endings normalised
//! to LF.

use vstd::prelude::*;
use vstd::string::*;
use vstd::utf8::*;

use crate::cmd::write::lemma_lf_text;
use crate::data_format::{self, bytes_outcome, decoded, encoded, law_round_trip, DataFormat};
use crate::diff::{
    change_views, file_diff, indices_within, line_changes, similar_changes, similar_unified,
    unified_diff, ChangeModel, LineChange, LineTag,
};
use crate::encoding::{
    bom_bytes_for, denormalize_lf, encode_text_strict, encoded_strict, native_lf_to, native_to_lf,
    normalize_bytes_to_lf, normalize_text_to_lf, only_ending, text_to_lf, to_lf, EncodingKind,
    LineEnding,
};
use crate::encoding_laws::{
    is_lf_only, lacks, law_converted_bytes_have_one_ending, law_normalize_undoes_denormalize,
    law_one_ending_comes_back, law_to_lf_keeps_lf_only, law_to_lf_lacks_cr, lemma_utf8_to_lf,
};
use crate::escape::{self, unescape_bytes};
use crate::json::{field, get_field, Json, JsonValue};
use crate::layout::{lacks_cr, TextLayout};
use crate::num::{dec, push_dec};
use crate::pattern::{
    are_spans, bytes_pattern, bytes_pattern_error, bytes_spans, capture_count, captures_len,
    compile_bytes, escape as escape_pattern, escaped_pattern, expand_all, expanded, find_spans,
    is_literal_pattern, occurrences, replace_expanding, replace_verbatim, replaced, span_views,
};
use crate::source::{bom_length, lemma_utf8_behind_bom, DecodedText};
use crate::text::{
    chars_of, format_str_debug, from_utf8, from_utf8_lossy, outcome, same, same_bytes, str_debug,
    string_of, utf8_error, utf8_lossy,
};

verus! {

/// The bytes that a replacement given as text stands for, with line endings
/// normalised to LF, or the message of the error.
pub open spec fn replacement_bytes(s: Seq<char>, literal: bool) -> Result<Seq<u8>, Seq<char>> {
    if literal {
        Ok(to_lf(encode_utf8(s)))
    } else {
        match unescape_bytes(encode_utf8(s), 0) {
            Ok(b) => Ok(to_lf(b)),
            Err(e) => Err("invalid escape in replacement: "@ + e.message_spec()),
        }
    }
}

/// Decode a replacement given as text. Unless `literal`, backslash escapes are
/// interpreted; either way line endings are normalised to LF.
pub fn decode_replacement(s: &str, literal: bool) -> (r: Result<Vec<u8>, String>)
    ensures
        bytes_outcome(r) == replacement_bytes(s@, literal),
{
    if literal {
        Ok(normalize_bytes_to_lf(s.as_bytes()))
    } else {
        match escape::decode_bytes(s) {
            Ok(b) => Ok(normalize_bytes_to_lf(b.as_slice())),
            Err(e) => {
                let mut m = "invalid escape in replacement: ".to_owned();
                m.push_str(e.message().as_str());
                Err(m)
            },
        }
    }
}

/// A text with `\\n`, `\\r`, `\\t` and `\\\\` expanded; any other backslash stays.
pub open spec fn unescaped(s: Seq<char>) -> Seq<char>
    decreases s.len(),
{
    if s.len() == 0 {
        seq![]
    } else if s[0] != '\\' || s.len() == 1 {
        seq![s[0]] + unescaped(s.skip(1))
    } else if s[1] == 'n' {
        seq!['\n'] + unescaped(s.skip(2))
    } else if s[1] == 'r' {
        seq!['\r'] + unescaped(s.skip(2))
    } else if s[1] == 't' {
        seq!['\t'] + unescaped(s.skip(2))
    } else if s[1] == '\\' {
        seq!['\\'] + unescaped(s.skip(2))
    } else {
        seq!['\\', s[1]] + unescaped(s.skip(2))
    }
}

/// Expand `\\n`, `\\r`, `\\t` and `\\\\` in a replacement template.
pub fn unescape_replacement(s: &str) -> (r: String)
    ensures
        r@ == unescaped(s@),
{
    let v = chars_of(s);
    let mut out = String::new();
    let mut i: usize = 0;
    let len: usize = v.len();
    proof {
        assert(v@.skip(0) =~= v@);
    }
    while i < len
        invariant
            len == v@.len(),
            v@ == s@,
            i <= len,
            out@ + unescaped(v@.skip(i as int)) =~= unescaped(v@),
        decreases len - i,
    {
        proof {
            assert(v@.skip(i as int).skip(1) =~= v@.skip(i + 1));
            if i + 1 < len {
                assert(v@.skip(i as int).skip(2) =~= v@.skip(i + 2));
            }
        }
        let c: char = v[i];
        if c != '\\' || len - i == 1 {
            out.push(c);
            i = i + 1;
        } else {
            let d: char = v[i + 1];
            if d == 'n' {
                out.push('\n');
            } else if d == 'r' {
                out.push('\r');
            } else if d == 't' {
                out.push('\t');
            } else if d == '\\' {
                out.push('\\');
            } else {
                out.push('\\');
                out.push(d);
            }
            i = i + 2;
        }
    }
    out
}

// ── Substitutions ───────────────────────────────────────────────────────────

/// One substitution within a batch.
pub struct ReplaceOp<'a> {
    /// A name for this substitution, shown beside its count.
    pub label: Option<&'a str>,
    /// What to look for.
    pub pattern: &'a str,
    /// What to put in its place; must be valid UTF-8.
    pub replacement: &'a [u8],
    /// Whether `pattern` is a regular expression rather than literal text.
    pub regex: bool,
    /// Whether `^` and `$` match at every line.
    pub multiline: bool,
    /// When `false`, no match at all refuses the whole batch.
    pub allow_no_match: bool,
}

/// A [`ReplaceOp`] that owns its texts.
#[derive(Debug, Clone, PartialEq, Eq)]
pub struct OwnedReplaceOp {
    /// A name for this substitution, shown beside its count.
    pub label: Option<String>,
    /// What to look for.
    pub pattern: String,
    /// What to put in its place.
    pub replacement: String,
    /// Whether `pattern` is a regular expression rather than literal text.
    pub regex: bool,
    /// Whether `^` and `$` match at every line.
    pub multiline: bool,
    /// When `false`, no match at all refuses the whole batch.
    pub allow_no_match: bool,
}

/// The abstract value of a substitution.
pub struct OpModel {
    /// A name for this substitution.
    pub label: Option<Seq<char>>,
    /// What to look for.
    pub pattern: Seq<char>,
    /// What to put in its place.
    pub replacement: Seq<u8>,
    /// Whether `pattern` is a regular expression.
    pub regex: bool,
    /// Whether `^` and `$` match at every line.
    pub multiline: bool,
    /// When `false`, no match at all refuses the whole batch.
    pub allow_no_match: bool,
}

impl<'a> View for ReplaceOp<'a> {
    type V = OpModel;

    open spec fn view(&self) -> OpModel {
        OpModel {
            label: match self.label {
                Some(l) => Some(l@),
                None => None,
            },
            pattern: self.pattern@,
            replacement: self.replacement@,
            regex: self.regex,
            multiline: self.multiline,
            allow_no_match: self.allow_no_match,
        }
    }
}

impl View for OwnedReplaceOp {
    type V = OpModel;

    open spec fn view(&self) -> OpModel {
        OpModel {
            label: match self.label {
                Some(l) => Some(l@),
                None => None,
            },
            pattern: self.pattern@,
            replacement: encode_utf8(self.replacement@),
            regex: self.regex,
            multiline: self.multiline,
            allow_no_match: self.allow_no_match,
        }
    }
}

impl OwnedReplaceOp {
    /// This substitution, borrowed.
    pub fn as_op(&self) -> (r: ReplaceOp<'_>)
        ensures
            r@ == self@,
    {
        ReplaceOp {
            label: match &self.label {
                Some(l) => Some(l.as_str()),
                None => None,
            },
            pattern: self.pattern.as_str(),
            replacement: self.replacement.as_str().as_bytes(),
            regex: self.regex,
            multiline: self.multiline,
            allow_no_match: self.allow_no_match,
        }
    }
}

/// The substitutions, borrowed.
pub fn as_ops(owned: &[OwnedReplaceOp]) -> (r: Vec<ReplaceOp<'_>>)
    ensures
        r@.len() == owned@.len(),
        forall|i: int| 0 <= i < r@.len() ==> (#[trigger] r@[i])@ == owned@[i]@,
{
    let mut out: Vec<ReplaceOp<'_>> = Vec::new();
    let mut i: usize = 0;
    while i < owned.len()
        invariant
            i <= owned@.len(),
            out@.len() == i,
            forall|k: int| 0 <= k < i ==> (#[trigger] out@[k])@ == owned@[k]@,
        decreases owned@.len() - i,
    {
        out.push(owned[i].as_op());
        i = i + 1;
    }
    out
}

// ── Substitutions given as JSON ─────────────────────────────────────────────

/// A field that a substitution object may have.
pub open spec fn is_op_key(key: Seq<char>) -> bool {
    ||| key == "label"@
    ||| key == "pattern"@
    ||| key == "pattern_format"@
    ||| key == "replacement"@
    ||| key == "replacement_format"@
    ||| key == "expand_escapes"@
    ||| key == "regex"@
    ||| key == "multiline"@
    ||| key == "allow_no_match"@
}

fn known_key(key: &str) -> (r: bool)
    ensures
        r == is_op_key(key@),
{
    same(key, "label") || same(key, "pattern") || same(key, "pattern_format") || same(
        key,
        "replacement",
    ) || same(key, "replacement_format") || same(key, "expand_escapes") || same(key, "regex")
        || same(key, "multiline") || same(key, "allow_no_match")
}

/// The first key, from position `i` on, that a substitution object may not have.
pub open spec fn unknown_key(fields: Seq<(String, Json)>, i: int) -> Option<Seq<char>>
    decreases fields.len() - i,
{
    if i < 0 || i >= fields.len() {
        None
    } else if !is_op_key(fields[i].0@) {
        Some(fields[i].0@)
    } else {
        unknown_key(fields, i + 1)
    }
}

/// The message for a key that a substitution object may not have.
pub open spec fn unknown_key_message(key: Seq<char>) -> Seq<char> {
    "unknown field "@ + str_debug(key)
        + "; expected one of label, pattern, pattern_format, replacement, replacement_format, expand_escapes, regex, multiline, allow_no_match"@
}

fn find_unknown_key(fields: &Vec<(String, Json)>) -> (r: Option<String>)
    ensures
        match r {
            Some(m) => unknown_key(fields@, 0) is Some && m@ == unknown_key_message(
                unknown_key(fields@, 0)->0,
            ),
            None => unknown_key(fields@, 0) is None,
        },
{
    let mut i: usize = 0;
    while i < fields.len()
        invariant
            i <= fields@.len(),
            unknown_key(fields@, i as int) == unknown_key(fields@, 0),
        decreases fields@.len() - i,
    {
        if !known_key(fields[i].0.as_str()) {
            let mut m = "unknown field ".to_owned();
            m.push_str(format_str_debug(fields[i].0.as_str()).as_str());
            m.push_str(
                "; expected one of label, pattern, pattern_format, replacement, replacement_format, expand_escapes, regex, multiline, allow_no_match",
            );
            return Some(m);
        }
        i = i + 1;
    }
    None
}

/// The message for a field of the wrong type.
pub open spec fn mistyped(key: Seq<char>, expected: Seq<char>, got: Json) -> Seq<char> {
    "'"@ + key + "' must be a JSON "@ + expected + ", got "@ + got.text@
}

fn mistyped_message(key: &str, expected: &str, got: &Json) -> (r: String)
    ensures
        r@ == mistyped(key@, expected@, *got),
{
    let mut m = "'".to_owned();
    m.push_str(key);
    m.push_str("' must be a JSON ");
    m.push_str(expected);
    m.push_str(", got ");
    m.push_str(got.text.as_str());
    m
}

/// The boolean in a field; `false` where it is missing or null.
pub open spec fn flag_of(fields: Seq<(String, Json)>, key: Seq<char>) -> Result<bool, Seq<char>> {
    match field(fields, key) {
        None => Ok(false),
        Some(j) => match j.value {
            JsonValue::Null => Ok(false),
            JsonValue::Bool(b) => Ok(b),
            _ => Err(mistyped(key, "boolean"@, j)),
        },
    }
}

fn op_bool(fields: &Vec<(String, Json)>, key: &str) -> (r: Result<bool, String>)
    ensures
        outcome(r) == flag_of(fields@, key@),
{
    match get_field(fields, key) {
        None => Ok(false),
        Some(j) => match &j.value {
            JsonValue::Null => Ok(false),
            JsonValue::Bool(b) => Ok(*b),
            _ => Err(mistyped_message(key, "boolean", j)),
        },
    }
}

/// The label in a substitution object; a label of the wrong type is an error.
pub open spec fn label_of(fields: Seq<(String, Json)>) -> Result<Option<Seq<char>>, Seq<char>> {
    match field(fields, "label"@) {
        None => Ok(None),
        Some(j) => match j.value {
            JsonValue::Null => Ok(None),
            JsonValue::Text(s) => Ok(Some(s@)),
            _ => Err(mistyped("label"@, "string"@, j)),
        },
    }
}

fn op_label(fields: &Vec<(String, Json)>) -> (r: Result<Option<String>, String>)
    ensures
        match r {
            Ok(Some(l)) => label_of(fields@) == Ok::<Option<Seq<char>>, Seq<char>>(Some(l@)),
            Ok(None) => label_of(fields@) == Ok::<Option<Seq<char>>, Seq<char>>(None),
            Err(m) => label_of(fields@) == Err::<Option<Seq<char>>, Seq<char>>(m@),
        },
{
    match get_field(fields, "label") {
        None => Ok(None),
        Some(j) => match &j.value {
            JsonValue::Null => Ok(None),
            JsonValue::Text(s) => Ok(Some(s.clone())),
            _ => Err(mistyped_message("label", "string", j)),
        },
    }
}

/// The data format that a field names; none where it is missing or null.
pub open spec fn format_of(fields: Seq<(String, Json)>, key: Seq<char>) -> Result<
    Option<DataFormat>,
    Seq<char>,
> {
    match field(fields, key) {
        None => Ok(None),
        Some(j) => match j.value {
            JsonValue::Null => Ok(None),
            JsonValue::Text(s) => match DataFormat::named(s@) {
                Ok(f) => Ok(Some(f)),
                Err(m) => Err(m),
            },
            _ => Err(mistyped(key, "string naming a data format"@, j)),
        },
    }
}

fn op_format(fields: &Vec<(String, Json)>, key: &str) -> (r: Result<Option<DataFormat>, String>)
    ensures
        outcome(r) == format_of(fields@, key@),
{
    match get_field(fields, key) {
        None => Ok(None),
        Some(j) => match &j.value {
            JsonValue::Null => Ok(None),
            JsonValue::Text(s) => match DataFormat::from_name(s.as_str()) {
                Ok(f) => Ok(Some(f)),
                Err(m) => Err(m),
            },
            _ => Err(mistyped_message(key, "string naming a data format", j)),
        },
    }
}

/// The text in a field that must be there.
pub open spec fn required_text(fields: Seq<(String, Json)>, key: Seq<char>) -> Result<
    Seq<char>,
    Seq<char>,
> {
    match field(fields, key) {
        Some(j) => match j.value {
            JsonValue::Text(s) => Ok(s@),
            _ => Err("missing required string field '"@ + key + "'"@),
        },
        None => Err("missing required string field '"@ + key + "'"@),
    }
}

/// A text result, by its views.
pub open spec fn text_outcome(r: Result<String, String>) -> Result<Seq<char>, Seq<char>> {
    match r {
        Ok(t) => Ok(t@),
        Err(m) => Err(m@),
    }
}

fn op_str(fields: &Vec<(String, Json)>, key: &str) -> (r: Result<String, String>)
    ensures
        text_outcome(r) == required_text(fields@, key@),
{
    match get_field(fields, key) {
        Some(j) => match &j.value {
            JsonValue::Text(s) => {
                return Ok(s.clone());
            },
            _ => {},
        },
        None => {},
    }
    let mut m = "missing required string field '".to_owned();
    m.push_str(key);
    m.push_str("'");
    Err(m)
}

/// The text that a payload in a data format stands for.
pub open spec fn payload_text(format: DataFormat, raw: Seq<char>, what: Seq<char>) -> Result<
    Seq<char>,
    Seq<char>,
> {
    match decoded(format, raw) {
        Err(e) => Err(what + ": "@ + e),
        Ok(b) => if valid_utf8(b) {
            Ok(decode_utf8(b))
        } else {
            Err(what + ": decoded bytes are not valid UTF-8: "@ + utf8_error(b))
        },
    }
}

fn decode_utf8_payload(format: &DataFormat, raw: &str, what: &str) -> (r: Result<String, String>)
    ensures
        text_outcome(r) == payload_text(*format, raw@, what@),
{
    match data_format::decode(format, raw) {
        Err(e) => {
            let mut m = what.to_owned();
            m.push_str(": ");
            m.push_str(e.as_str());
            Err(m)
        },
        Ok(b) => match from_utf8(b.as_slice()) {
            Ok(t) => Ok(t),
            Err(e) => {
                let mut m = what.to_owned();
                m.push_str(": decoded bytes are not valid UTF-8: ");
                m.push_str(e.as_str());
                Err(m)
            },
        },
    }
}

/// The pattern in a substitution object.
pub open spec fn pattern_of(fields: Seq<(String, Json)>) -> Result<Seq<char>, Seq<char>> {
    match format_of(fields, "pattern_format"@) {
        Err(e) => Err(e),
        Ok(f) => match required_text(fields, "pattern"@) {
            Err(e) => Err(e),
            Ok(raw) => match f {
                Some(format) => payload_text(format, raw, "pattern_format"@),
                None => Ok(raw),
            },
        },
    }
}

fn op_pattern(fields: &Vec<(String, Json)>) -> (r: Result<String, String>)
    ensures
        text_outcome(r) == pattern_of(fields@),
{
    let format = match op_format(fields, "pattern_format") {
        Ok(f) => f,
        Err(e) => {
            return Err(e);
        },
    };
    let raw = match op_str(fields, "pattern") {
        Ok(t) => t,
        Err(e) => {
            return Err(e);
        },
    };
    match format {
        Some(f) => decode_utf8_payload(&f, raw.as_str(), "pattern_format"),
        None => Ok(raw),
    }
}

/// The replacement in a substitution object, with line endings as they are.
pub open spec fn replacement_of(
    fields: Seq<(String, Json)>,
    expand: bool,
    format: Option<DataFormat>,
) -> Result<Seq<char>, Seq<char>> {
    match required_text(fields, "replacement"@) {
        Err(e) => Err(e),
        Ok(raw) => match format {
            Some(f) => payload_text(f, raw, "replacement_format"@),
            None => Ok(
                if expand {
                    unescaped(raw)
                } else {
                    raw
                },
            ),
        },
    }
}

fn op_replacement(
    fields: &Vec<(String, Json)>,
    expand: bool,
    format: Option<DataFormat>,
) -> (r: Result<String, String>)
    ensures
        text_outcome(r) == replacement_of(fields@, expand, format),
{
    let raw = match op_str(fields, "replacement") {
        Ok(t) => t,
        Err(e) => {
            return Err(e);
        },
    };
    match format {
        Some(f) => decode_utf8_payload(&f, raw.as_str(), "replacement_format"),
        None => Ok(
            if expand {
                unescape_replacement(raw.as_str())
            } else {
                raw
            },
        ),
    }
}

/// The substitution that an object with the given fields describes, or the
/// message of the first error.
pub open spec fn op_of_fields(fields: Seq<(String, Json)>) -> Result<OpModel, Seq<char>> {
    if unknown_key(fields, 0) is Some {
        Err(unknown_key_message(unknown_key(fields, 0)->0))
    } else {
        match (flag_of(fields, "expand_escapes"@), format_of(fields, "replacement_format"@)) {
            (Err(e), _) => Err(e),
            (_, Err(e)) => Err(e),
            (Ok(expand), Ok(format)) => if expand && format is Some {
                Err(
                    "'expand_escapes' cannot be combined with 'replacement_format': the encoded payload already specifies the exact bytes to write"@,
                )
            } else {
                match (pattern_of(fields), flag_of(fields, "regex"@)) {
                    (Err(e), _) => Err(e),
                    (_, Err(e)) => Err(e),
                    (Ok(pattern), Ok(regex)) => if pattern.len() == 0 && !regex {
                        Err(
                            "'pattern' is empty, which would match at every position and rewrite the whole file; pass regex:true if an empty pattern is genuinely intended"@,
                        )
                    } else {
                        match (
                            replacement_of(fields, expand, format),
                            label_of(fields),
                            flag_of(fields, "multiline"@),
                            flag_of(fields, "allow_no_match"@),
                        ) {
                            (Err(e), _, _, _) => Err(e),
                            (_, Err(e), _, _) => Err(e),
                            (_, _, Err(e), _) => Err(e),
                            (_, _, _, Err(e)) => Err(e),
                            (Ok(replacement), Ok(label), Ok(multiline), Ok(allow_no_match)) => Ok(
                                OpModel {
                                    label,
                                    pattern,
                                    replacement: encode_utf8(text_to_lf(replacement)),
                                    regex,
                                    multiline,
                                    allow_no_match,
                                },
                            ),
                        }
                    },
                }
            },
        }
    }
}

/// The substitution that a JSON value describes, or the message of the first
/// error.
pub open spec fn op_of(entry: Json) -> Result<OpModel, Seq<char>> {
    match entry.value {
        JsonValue::Object(fields) => op_of_fields(fields@),
        _ => Err("must be a JSON object, got "@ + entry.text@),
    }
}

fn op_from_fields(fields: &Vec<(String, Json)>) -> (r: Result<OwnedReplaceOp, String>)
    ensures
        match r {
            Ok(op) => op_of_fields(fields@) == Ok::<OpModel, Seq<char>>(op@),
            Err(m) => op_of_fields(fields@) == Err::<OpModel, Seq<char>>(m@),
        },
{
    match find_unknown_key(fields) {
        Some(m) => {
            return Err(m);
        },
        None => {},
    }
    let expand = match op_bool(fields, "expand_escapes") {
        Ok(v) => v,
        Err(e) => {
            return Err(e);
        },
    };
    let format = match op_format(fields, "replacement_format") {
        Ok(v) => v,
        Err(e) => {
            return Err(e);
        },
    };
    if expand && format.is_some() {
        return Err(
            "'expand_escapes' cannot be combined with 'replacement_format': the encoded payload already specifies the exact bytes to write".to_owned(),
        );
    }
    let pattern = match op_pattern(fields) {
        Ok(v) => v,
        Err(e) => {
            return Err(e);
        },
    };
    let regex = match op_bool(fields, "regex") {
        Ok(v) => v,
        Err(e) => {
            return Err(e);
        },
    };
    if pattern.as_str().is_empty() && !regex {
        return Err(
            "'pattern' is empty, which would match at every position and rewrite the whole file; pass regex:true if an empty pattern is genuinely intended".to_owned(),
        );
    }
    let replacement = match op_replacement(fields, expand, format) {
        Ok(v) => v,
        Err(e) => {
            return Err(e);
        },
    };
    let label = match op_label(fields) {
        Ok(v) => v,
        Err(e) => {
            return Err(e);
        },
    };
    let multiline = match op_bool(fields, "multiline") {
        Ok(v) => v,
        Err(e) => {
            return Err(e);
        },
    };
    let allow_no_match = match op_bool(fields, "allow_no_match") {
        Ok(v) => v,
        Err(e) => {
            return Err(e);
        },
    };
    Ok(
        OwnedReplaceOp {
            label,
            pattern,
            replacement: normalize_text_to_lf(replacement.as_str()),
            regex,
            multiline,
            allow_no_match,
        },
    )
}

fn op_from_json(entry: &Json) -> (r: Result<OwnedReplaceOp, String>)
    ensures
        match r {
            Ok(op) => op_of(*entry) == Ok::<OpModel, Seq<char>>(op@),
            Err(m) => op_of(*entry) == Err::<OpModel, Seq<char>>(m@),
        },
{
    match &entry.value {
        JsonValue::Object(fields) => op_from_fields(fields),
        _ => {
            let mut m = "must be a JSON object, got ".to_owned();
            m.push_str(entry.text.as_str());
            Err(m)
        },
    }
}

/// The message of the first entry that describes no substitution, from position
/// `i` on.
pub open spec fn first_op_error(entries: Seq<Json>, i: int) -> Option<Seq<char>>
    decreases entries.len() - i,
{
    if i < 0 || i >= entries.len() {
        None
    } else {
        match op_of(entries[i]) {
            Err(e) => Some("ops["@ + dec(i as nat) + "]: "@ + e),
            Ok(_) => first_op_error(entries, i + 1),
        }
    }
}

/// The substitutions that a JSON array describes, or the message of the first
/// error.
pub open spec fn ops_of(value: Json) -> Result<Seq<OpModel>, Seq<char>> {
    match value.value {
        JsonValue::Array(entries) => if entries@.len() == 0 {
            Err("'ops' must contain at least one substitution"@)
        } else {
            match first_op_error(entries@, 0) {
                Some(m) => Err(m),
                None => Ok(entries@.map_values(|j: Json| op_of(j)->Ok_0)),
            }
        },
        _ => Err("'ops' must be a JSON array of substitution objects"@),
    }
}

/// The abstract values of substitutions.
pub open spec fn op_models(ops: Seq<OwnedReplaceOp>) -> Seq<OpModel> {
    ops.map_values(|op: OwnedReplaceOp| op@)
}

/// Decode an array of substitution objects.
pub fn ops_from_json(value: &Json) -> (r: Result<Vec<OwnedReplaceOp>, String>)
    ensures
        match r {
            Ok(ops) => ops_of(*value) == Ok::<Seq<OpModel>, Seq<char>>(op_models(ops@)),
            Err(m) => ops_of(*value) == Err::<Seq<OpModel>, Seq<char>>(m@),
        },
{
    let entries = match &value.value {
        JsonValue::Array(entries) => entries,
        _ => {
            return Err("'ops' must be a JSON array of substitution objects".to_owned());
        },
    };
    if entries.len() == 0 {
        return Err("'ops' must contain at least one substitution".to_owned());
    }
    let mut ops: Vec<OwnedReplaceOp> = Vec::new();
    let mut i: usize = 0;
    while i < entries.len()
        invariant
            i <= entries@.len(),
            entries@.len() > 0,
            value.value == JsonValue::Array(*entries),
            ops@.len() == i,
            first_op_error(entries@, i as int) == first_op_error(entries@, 0),
            forall|k: int|
                0 <= k < i ==> op_of(entries@[k]) == Ok::<OpModel, Seq<char>>((#[trigger] ops@[k])@),
        decreases entries@.len() - i,
    {
        match op_from_json(&entries[i]) {
            Ok(op) => {
                ops.push(op);
            },
            Err(e) => {
                let mut m = "ops[".to_owned();
                push_dec(&mut m, i as u64);
                m.push_str("]: ");
                m.push_str(e.as_str());
                return Err(m);
            },
        }
        i = i + 1;
    }
    proof {
        assert(entries@.map_values(|j: Json| op_of(j)->Ok_0) =~= op_models(ops@));
    }
    Ok(ops)
}

// ── Changed lines ───────────────────────────────────────────────────────────

/// One line that differs between the file as read and the file as written.
#[derive(Debug, Clone, PartialEq, Eq)]
pub struct ChangedLine {
    /// 1-based line number in the file as read; `None` for an inserted line.
    pub old_line: Option<usize>,
    /// 1-based line number in the file as written; `None` for a deleted line.
    pub new_line: Option<usize>,
    /// The line before, without its line ending.
    pub old_text: Option<String>,
    /// The line after, without its line ending.
    pub new_text: Option<String>,
}

/// The abstract value of a [`ChangedLine`].
pub struct LinePair {
    /// The line before: its 1-based number and text.
    pub old_side: Option<(int, Seq<char>)>,
    /// The line after: its 1-based number and text.
    pub new_side: Option<(int, Seq<char>)>,
}

/// A line number and text, where there are both.
pub open spec fn side(line: Option<usize>, text: Option<String>) -> Option<(int, Seq<char>)> {
    match (line, text) {
        (Some(n), Some(t)) => Some((n as int, t@)),
        _ => None,
    }
}

impl View for ChangedLine {
    type V = LinePair;

    open spec fn view(&self) -> LinePair {
        LinePair {
            old_side: side(self.old_line, self.old_text),
            new_side: side(self.new_line, self.new_text),
        }
    }
}

impl ChangedLine {
    /// Each side is there as a whole or not at all.
    pub open spec fn wf(self) -> bool {
        &&& self.old_line is Some <==> self.old_text is Some
        &&& self.new_line is Some <==> self.new_text is Some
    }
}

/// A text without the LF and CR at its end.
pub open spec fn without_newlines(s: Seq<char>) -> Seq<char>
    decreases s.len(),
{
    if s.len() > 0 && (s.last() == '\n' || s.last() == '\r') {
        without_newlines(s.drop_last())
    } else {
        s
    }
}

/// The side of a line pair that a changed line makes.
pub open spec fn change_side(index: Option<nat>, text: Seq<char>) -> (int, Seq<char>) {
    (
        (match index {
            Some(i) => i as int,
            None => 0,
        }) + 1,
        without_newlines(text),
    )
}

/// The `i`-th of the given lines, where there is one.
pub open spec fn nth(v: Seq<(int, Seq<char>)>, i: int) -> Option<(int, Seq<char>)> {
    if 0 <= i < v.len() {
        Some(v[i])
    } else {
        None
    }
}

/// Deleted and inserted lines, paired by position.
pub open spec fn paired(
    deleted: Seq<(int, Seq<char>)>,
    inserted: Seq<(int, Seq<char>)>,
) -> Seq<LinePair> {
    Seq::new(
        if deleted.len() > inserted.len() {
            deleted.len()
        } else {
            inserted.len()
        },
        |i: int| LinePair { old_side: nth(deleted, i), new_side: nth(inserted, i) },
    )
}

/// The line pairs of a diff, behind the given deleted and inserted lines: each
/// run of changed lines between equal ones is paired by position.
pub open spec fn line_pairs(
    changes: Seq<ChangeModel>,
    deleted: Seq<(int, Seq<char>)>,
    inserted: Seq<(int, Seq<char>)>,
) -> Seq<LinePair>
    decreases changes.len(),
{
    if changes.len() == 0 {
        paired(deleted, inserted)
    } else {
        let c = changes[0];
        let rest = changes.drop_first();
        match c.tag {
            LineTag::Equal => paired(deleted, inserted) + line_pairs(rest, seq![], seq![]),
            LineTag::Delete => line_pairs(
                rest,
                deleted.push(change_side(c.old_index, c.text)),
                inserted,
            ),
            LineTag::Insert => line_pairs(
                rest,
                deleted,
                inserted.push(change_side(c.new_index, c.text)),
            ),
        }
    }
}

/// The first items, as many as `max` allows.
pub open spec fn capped<T>(s: Seq<T>, max: Option<usize>) -> Seq<T> {
    match max {
        Some(m) => if s.len() > m {
            s.take(m as int)
        } else {
            s
        },
        None => s,
    }
}

/// There are more items than `max` allows.
pub open spec fn exceeds<T>(s: Seq<T>, max: Option<usize>) -> bool {
    match max {
        Some(m) => s.len() > m,
        None => false,
    }
}

/// The abstract values of changed lines.
pub open spec fn pair_views(v: Seq<ChangedLine>) -> Seq<LinePair> {
    v.map_values(|l: ChangedLine| l@)
}

/// A text without the LF and CR at its end.
fn trim_newlines(s: &str) -> (r: String)
    ensures
        r@ == without_newlines(s@),
{
    let v = chars_of(s);
    let mut b: usize = v.len();
    proof {
        assert(v@.take(v@.len() as int) =~= v@);
    }
    while b > 0 && (v[b - 1] == '\n' || v[b - 1] == '\r')
        invariant
            b <= v@.len(),
            v@ == s@,
            without_newlines(v@.take(b as int)) == without_newlines(s@),
        decreases b,
    {
        proof {
            assert(v@.take(b as int).last() == v@[b - 1]);
            assert(v@.take(b as int).drop_last() =~= v@.take(b - 1));
        }
        b = b - 1;
    }
    proof {
        if b > 0 {
            assert(v@.take(b as int).last() == v@[b - 1]);
        }
        assert(v@.subrange(0, b as int) =~= v@.take(b as int));
    }
    string_of(&v, 0, b)
}

/// Line numbers with texts, by their views.
spec fn side_views(v: Seq<(usize, String)>) -> Seq<(int, Seq<char>)> {
    v.map_values(|p: (usize, String)| (p.0 as int, p.1@))
}

/// What `max` leaves behind `used` items.
spec fn room(max: Option<usize>, used: int) -> Option<usize> {
    match max {
        Some(m) => Some((m - used) as usize),
        None => None,
    }
}

/// Appends the pairs of the given lines.
fn push_pairs(
    out: &mut Vec<ChangedLine>,
    deleted: &Vec<(usize, String)>,
    inserted: &Vec<(usize, String)>,
)
    requires
        forall|k: int| 0 <= k < old(out)@.len() ==> (#[trigger] old(out)@[k]).wf(),
    ensures
        pair_views(final(out)@) =~= pair_views(old(out)@) + paired(
            side_views(deleted@),
            side_views(inserted@),
        ),
        forall|k: int| 0 <= k < final(out)@.len() ==> (#[trigger] final(out)@[k]).wf(),
{
    let n: usize = if deleted.len() > inserted.len() {
        deleted.len()
    } else {
        inserted.len()
    };
    let ghost had = pair_views(out@);
    let ghost pairs = paired(side_views(deleted@), side_views(inserted@));
    let mut i: usize = 0;
    while i < n
        invariant
            i <= n,
            n == pairs.len(),
            pairs == paired(side_views(deleted@), side_views(inserted@)),
            pair_views(out@) =~= had + pairs.take(i as int),
            forall|k: int| 0 <= k < out@.len() ==> (#[trigger] out@[k]).wf(),
        decreases n - i,
    {
        let (old_line, old_text) = if i < deleted.len() {
            (Some(deleted[i].0), Some(deleted[i].1.clone()))
        } else {
            (None, None)
        };
        let (new_line, new_text) = if i < inserted.len() {
            (Some(inserted[i].0), Some(inserted[i].1.clone()))
        } else {
            (None, None)
        };
        let line = ChangedLine { old_line, new_line, old_text, new_text };
        let ghost before = pair_views(out@);
        proof {
            assert(line@ == pairs[i as int]);
            assert(pairs.take(i + 1) =~= pairs.take(i as int).push(pairs[i as int]));
        }
        let ghost shown = line@;
        out.push(line);
        proof {
            assert(pair_views(out@) =~= before.push(shown));
        }
        i = i + 1;
    }
    proof {
        assert(pairs.take(n as int) =~= pairs);
    }
}

proof fn lemma_capped_pairs(
    deleted: Seq<(int, Seq<char>)>,
    inserted: Seq<(int, Seq<char>)>,
    max: Option<usize>,
)
    ensures
        paired(capped(deleted, max), capped(inserted, max)) == capped(
            paired(deleted, inserted),
            max,
        ),
{
    assert(paired(capped(deleted, max), capped(inserted, max)) =~= capped(
        paired(deleted, inserted),
        max,
    ));
}

proof fn lemma_capped_append(p: Seq<LinePair>, q: Seq<LinePair>, max: Option<usize>)
    ensures
        capped(p, max) + capped(q, room(max, capped(p, max).len() as int)) == capped(p + q, max),
{
    match max {
        Some(m) => {
            assert(capped(p, max) + capped(q, room(max, capped(p, max).len() as int)) =~= capped(
                p + q,
                max,
            ));
        },
        None => {},
    }
}

/// The lines of a diff that changed, at most `max` of them, and whether there
/// are more.
pub fn pair_changes(changes: &Vec<LineChange>, max: Option<usize>) -> (r: (Vec<ChangedLine>, bool))
    requires
        indices_within(changes@, usize::MAX as nat, usize::MAX as nat),
    ensures
        pair_views(r.0@) == capped(line_pairs(change_views(changes@), seq![], seq![]), max),
        r.1 == exceeds(line_pairs(change_views(changes@), seq![], seq![]), max),
        forall|k: int| 0 <= k < r.0@.len() ==> (#[trigger] r.0@[k]).wf(),
{
    let mut out: Vec<ChangedLine> = Vec::new();
    let mut deletes: Vec<(usize, String)> = Vec::new();
    let mut inserts: Vec<(usize, String)> = Vec::new();
    let mut truncated = false;
    let ghost models = change_views(changes@);
    let ghost all = line_pairs(models, seq![], seq![]);
    let ghost mut done: Seq<LinePair> = seq![];
    let ghost mut d: Seq<(int, Seq<char>)> = seq![];
    let ghost mut e: Seq<(int, Seq<char>)> = seq![];
    let mut i: usize = 0;
    proof {
        assert(models.skip(0) =~= models);
        assert(done + all =~= all);
        assert(pair_views(out@) =~= capped(done, max));
        assert(side_views(deletes@) =~= capped(d, max));
        assert(side_views(inserts@) =~= capped(e, max));
    }
    while i < changes.len()
        invariant
            i <= changes@.len(),
            indices_within(changes@, usize::MAX as nat, usize::MAX as nat),
            models == change_views(changes@),
            all == done + line_pairs(models.skip(i as int), d, e),
            pair_views(out@) == capped(done, max),
            side_views(deletes@) == capped(d, room(max, out@.len() as int)),
            side_views(inserts@) == capped(e, room(max, out@.len() as int)),
            truncated == (exceeds(done, max) || exceeds(d, room(max, out@.len() as int))
                || exceeds(e, room(max, out@.len() as int))),
            forall|k: int| 0 <= k < out@.len() ==> (#[trigger] out@[k]).wf(),
        decreases changes@.len() - i,
    {
        proof {
            assert(pair_views(out@).len() == out@.len());
            assert(models.skip(i as int)[0] == models[i as int]);
            assert(models.skip(i as int).drop_first() =~= models.skip(i + 1));
            assert(side_views(deletes@).len() == deletes@.len());
            assert(side_views(inserts@).len() == inserts@.len());
        }
        let tag = changes[i].tag;
        match tag {
            LineTag::Equal => {
                let ghost used = out@.len() as int;
                push_pairs(&mut out, &deletes, &inserts);
                proof {
                    lemma_capped_pairs(d, e, room(max, used));
                    lemma_capped_append(done, paired(d, e), max);
                    let next = done + paired(d, e);
                    assert(pair_views(out@).len() == out@.len());
                    assert(all =~= next + line_pairs(models.skip(i + 1), seq![], seq![]));
                    done = next;
                    d = seq![];
                    e = seq![];
                }
                deletes = Vec::new();
                inserts = Vec::new();
                proof {
                    assert(side_views(deletes@) =~= capped(d, room(max, out@.len() as int)));
                    assert(side_views(inserts@) =~= capped(e, room(max, out@.len() as int)));
                }
            },
            LineTag::Delete => {
                let full = match max {
                    Some(m) => deletes.len() >= m - out.len(),
                    None => false,
                };
                let ghost shown = change_side(models[i as int].old_index, models[i as int].text);
                let ghost left = room(max, out@.len() as int);
                if full {
                    truncated = true;
                    proof {
                        assert(capped(d.push(shown), left) =~= capped(d, left));
                    }
                } else {
                    let line: usize = match changes[i].old_index {
                        Some(k) => k + 1,
                        None => 1,
                    };
                    let ghost had = side_views(deletes@);
                    deletes.push((line, trim_newlines(changes[i].text.as_str())));
                    proof {
                        assert(side_views(deletes@) =~= had.push(shown));
                        assert(capped(d, left) =~= d);
                        assert(capped(d.push(shown), left) =~= d.push(shown));
                    }
                }
                proof {
                    d = d.push(shown);
                }
            },
            LineTag::Insert => {
                let full = match max {
                    Some(m) => inserts.len() >= m - out.len(),
                    None => false,
                };
                let ghost shown = change_side(models[i as int].new_index, models[i as int].text);
                let ghost left = room(max, out@.len() as int);
                if full {
                    truncated = true;
                    proof {
                        assert(capped(e.push(shown), left) =~= capped(e, left));
                    }
                } else {
                    let line: usize = match changes[i].new_index {
                        Some(k) => k + 1,
                        None => 1,
                    };
                    let ghost had = side_views(inserts@);
                    inserts.push((line, trim_newlines(changes[i].text.as_str())));
                    proof {
                        assert(side_views(inserts@) =~= had.push(shown));
                        assert(capped(e, left) =~= e);
                        assert(capped(e.push(shown), left) =~= e.push(shown));
                    }
                }
                proof {
                    e = e.push(shown);
                }
            },
        }
        i = i + 1;
    }
    let ghost used = out@.len() as int;
    push_pairs(&mut out, &deletes, &inserts);
    proof {
        assert(pair_views(out@).len() == out@.len());
        assert(models.skip(i as int).len() == 0);
        lemma_capped_pairs(d, e, room(max, used));
        lemma_capped_append(done, paired(d, e), max);
        assert(all == done + paired(d, e));
    }
    (out, truncated)
}

/// The lines that differ between two texts, at most `max` of them, and whether
/// there are more.
pub fn collect_changed_lines(old_text: &str, new_text: &str, max: Option<usize>) -> (r: (
    Vec<ChangedLine>,
    bool,
))
    ensures
        ({
            let pairs = line_pairs(similar_changes(old_text@, new_text@), seq![], seq![]);
            pair_views(r.0@) == capped(pairs, max) && r.1 == exceeds(pairs, max)
        }),
        forall|k: int| 0 <= k < r.0@.len() ==> (#[trigger] r.0@[k]).wf(),
{
    let old_len: usize = old_text.as_bytes().len();
    let new_len: usize = new_text.as_bytes().len();
    let changes = line_changes(old_text, new_text);
    proof {
        assert(old_len == encode_utf8(old_text@).len());
        assert(new_len == encode_utf8(new_text@).len());
    }
    pair_changes(&changes, max)
}

// ── Changed regions ─────────────────────────────────────────────────────────

/// What one match changed. Line numbers refer to the text before.
#[derive(Debug, Clone)]
pub struct ChangedRegion {
    /// 1-based number of the line that the match begins in.
    pub start_line: usize,
    /// 1-based number of the line that the match ends in.
    pub end_line: usize,
    /// The number of lines of the replacement.
    pub new_line_count: usize,
    /// The replacement, or empty once the budget is exhausted.
    pub new_text: String,
}

/// A request to report what each match changed.
#[derive(Debug, Clone, Copy)]
pub struct RegionsRequest {
    /// Once a replacement would push the number of lines reported past this, it
    /// and every later one is left out of the report; `None` for no limit.
    pub text_budget_lines: Option<usize>,
}

/// The number of LF in bytes.
pub open spec fn lf_count(s: Seq<u8>) -> nat
    decreases s.len(),
{
    if s.len() == 0 {
        0
    } else {
        lf_count(s.drop_last()) + (if s.last() == 0x0A {
            1nat
        } else {
            0nat
        })
    }
}

/// The number of lines of a replacement; an LF at its end begins no further one.
pub open spec fn replacement_lines(s: Seq<u8>) -> nat {
    if s.len() == 0 {
        0
    } else if s.last() == 0x0A {
        lf_count(s)
    } else {
        lf_count(s) + 1
    }
}

/// The number of lines of the first `n` replacements.
pub open spec fn lines_before(with: Seq<Seq<u8>>, n: int) -> nat
    decreases n,
{
    if n <= 0 {
        0
    } else {
        lines_before(with, n - 1) + replacement_lines(with[n - 1])
    }
}

/// An LF at the end of a match ends the match's last line and takes in nothing
/// of the next.
pub open spec fn counted_match(m: Seq<u8>) -> Seq<u8> {
    if m.len() > 0 && m.last() == 0x0A {
        m.drop_last()
    } else {
        m
    }
}

/// What is reported of the `i`-th match.
pub open spec fn is_region(
    r: ChangedRegion,
    hay: Seq<u8>,
    spans: Seq<(int, int)>,
    with: Seq<Seq<u8>>,
    i: int,
    budget: Option<usize>,
) -> bool {
    let start = 1 + lf_count(hay.take(spans[i].0));
    &&& r.start_line == start
    &&& r.end_line == start + lf_count(counted_match(hay.subrange(spans[i].0, spans[i].1)))
    &&& r.new_line_count == replacement_lines(with[i])
    &&& r.new_text@ == (if budget is None || lines_before(with, i + 1) <= budget->0 {
        utf8_lossy(with[i])
    } else {
        seq![]
    })
}

proof fn lemma_lf_count_add(a: Seq<u8>, b: Seq<u8>)
    ensures
        lf_count(a + b) == lf_count(a) + lf_count(b),
    decreases b.len(),
{
    if b.len() == 0 {
        assert(a + b =~= a);
    } else {
        assert((a + b).drop_last() =~= a + b.drop_last());
        lemma_lf_count_add(a, b.drop_last());
    }
}

proof fn lemma_lf_count_bound(s: Seq<u8>)
    ensures
        lf_count(s) <= s.len(),
        s.len() > 0 && s.last() != 0x0A ==> lf_count(s) < s.len(),
    decreases s.len(),
{
    if s.len() > 0 {
        lemma_lf_count_bound(s.drop_last());
    }
}

/// Counts the LF of `s[from..to]`.
fn count_lf(s: &[u8], from: usize, to: usize) -> (r: usize)
    requires
        from <= to <= s@.len(),
    ensures
        r == lf_count(s@.subrange(from as int, to as int)),
        r <= to - from,
{
    let mut n: usize = 0;
    let mut i: usize = from;
    while i < to
        invariant
            from <= i <= to <= s@.len(),
            n <= i - from,
            n == lf_count(s@.subrange(from as int, i as int)),
        decreases to - i,
    {
        proof {
            let t = s@.subrange(from as int, i + 1);
            assert(t.drop_last() =~= s@.subrange(from as int, i as int));
            assert(t.last() == s@[i as int]);
        }
        if s[i] == 0x0A {
            n = n + 1;
        }
        i = i + 1;
    }
    n
}

/// Reports what each match changes: the ranges `spans` of `hay` are replaced by
/// `with`, in order.
#[verifier::spinoff_prover]
#[verifier::rlimit(100)]
pub fn report_regions(
    hay: &[u8],
    spans: &Vec<(usize, usize)>,
    with: &Vec<Vec<u8>>,
    request: RegionsRequest,
) -> (r: Vec<ChangedRegion>)
    requires
        hay@.len() < usize::MAX,
        are_spans(span_views(spans@), hay@.len() as int),
        with@.len() == spans@.len(),
    ensures
        r@.len() == spans@.len(),
        forall|i: int|
            0 <= i < r@.len() ==> is_region(
                #[trigger] r@[i],
                hay@,
                span_views(spans@),
                with@.map_values(|v: Vec<u8>| v@),
                i,
                request.text_budget_lines,
            ),
{
    let mut out: Vec<ChangedRegion> = Vec::new();
    let ghost views = span_views(spans@);
    let ghost texts = with@.map_values(|v: Vec<u8>| v@);
    let mut line_no: usize = 1;
    let mut scanned_to: usize = 0;
    let mut materialized: usize = 0;
    let mut exhausted = false;
    let mut i: usize = 0;
    proof {
        assert(hay@.take(0) =~= seq![]);
    }
    while i < spans.len()
        invariant
            hay@.len() < usize::MAX,
            views == span_views(spans@),
            texts == with@.map_values(|v: Vec<u8>| v@),
            are_spans(views, hay@.len() as int),
            with@.len() == spans@.len(),
            i <= spans@.len(),
            out@.len() == i,
            scanned_to <= hay@.len(),
            i > 0 ==> scanned_to == views[i - 1].1,
            i == 0 ==> scanned_to == 0,
            line_no == 1 + lf_count(hay@.take(scanned_to as int)),
            request.text_budget_lines is Some ==> exhausted == (lines_before(texts, i as int)
                > request.text_budget_lines->0),
            request.text_budget_lines is Some && !exhausted ==> materialized == lines_before(
                texts,
                i as int,
            ),
            request.text_budget_lines is None ==> !exhausted,
            forall|k: int|
                0 <= k < i ==> is_region(
                    #[trigger] out@[k],
                    hay@,
                    views,
                    texts,
                    k,
                    request.text_budget_lines,
                ),
        decreases spans@.len() - i,
    {
        let start: usize = spans[i].0;
        let end: usize = spans[i].1;
        proof {
            assert(views[i as int] == (start as int, end as int));
            if i > 0 {
                assert(views[i - 1].1 <= views[i as int].0);
            }
            lemma_lf_count_add(
                hay@.take(scanned_to as int),
                hay@.subrange(scanned_to as int, start as int),
            );
            assert(hay@.take(scanned_to as int) + hay@.subrange(scanned_to as int, start as int)
                =~= hay@.take(start as int));
            lemma_lf_count_bound(hay@.take(start as int));
            lemma_lf_count_bound(hay@.take(end as int));
        }
        let start_line: usize = line_no + count_lf(hay, scanned_to, start);
        let ends_line = end > start && hay[end - 1] == 0x0A;
        let counted_end: usize = if ends_line {
            end - 1
        } else {
            end
        };
        let ghost m = hay@.subrange(start as int, end as int);
        proof {
            if end > start {
                assert(m.last() == hay@[end - 1]);
                assert(m.drop_last() =~= hay@.subrange(start as int, end - 1));
            }
            assert(counted_match(m) =~= hay@.subrange(start as int, counted_end as int));
            lemma_lf_count_add(hay@.take(start as int), m);
            assert(hay@.take(start as int) + m =~= hay@.take(end as int));
            assert(lf_count(m) == lf_count(counted_match(m)) + (if ends_line {
                1int
            } else {
                0int
            }));
        }
        let end_line: usize = start_line + count_lf(hay, start, counted_end);
        let text = with[i].as_slice();
        let ghost shown = texts[i as int];
        proof {
            assert(text@ == shown);
            assert(text@.subrange(0, text@.len() as int) =~= text@);
            lemma_lf_count_bound(shown);
        }
        let newlines: usize = count_lf(text, 0, text.len());
        let new_line_count: usize = if text.len() == 0 {
            0
        } else if text[text.len() - 1] == 0x0A {
            newlines
        } else {
            newlines + 1
        };
        match request.text_budget_lines {
            Some(budget) => {
                if !exhausted {
                    if new_line_count > budget - materialized {
                        exhausted = true;
                    } else {
                        materialized = materialized + new_line_count;
                    }
                }
            },
            None => {},
        }
        let new_text = if exhausted {
            String::new()
        } else {
            from_utf8_lossy(text)
        };
        out.push(ChangedRegion { start_line, end_line, new_line_count, new_text });
        line_no = if ends_line {
            end_line + 1
        } else {
            end_line
        };
        scanned_to = end;
        i = i + 1;
    }
    out
}

// ── Compiling ───────────────────────────────────────────────────────────────

/// The regular expression that a substitution looks for. Matching is done on
/// text normalised to LF, so the pattern is normalised too.
pub open spec fn effective_pattern(op: OpModel) -> Seq<char> {
    let pattern = text_to_lf(op.pattern);
    let core = if op.regex {
        pattern
    } else {
        escaped_pattern(pattern)
    };
    if op.multiline {
        "(?m)"@ + core
    } else {
        core
    }
}

/// The replacement of a substitution, normalised to LF.
pub open spec fn effective_replacement(op: OpModel) -> Seq<u8> {
    encode_utf8(text_to_lf(decode_utf8(op.replacement)))
}

/// The message for a substitution that cannot be made on the file called `label`.
pub open spec fn op_failure(label: Seq<char>, op: OpModel) -> Option<Seq<char>> {
    if op.pattern.len() == 0 && !op.regex {
        Some(
            "replace: "@ + label
                + ": 'pattern' is empty, which would match at every position and rewrite the whole file; pass regex:true if an empty pattern is genuinely intended"@,
        )
    } else if bytes_pattern_error(effective_pattern(op)) is Some {
        bytes_pattern_error(effective_pattern(op))
    } else if !valid_utf8(op.replacement) {
        Some(
            "replace: "@ + label + ": replacement is not valid UTF-8: "@ + utf8_error(
                op.replacement,
            ),
        )
    } else {
        None
    }
}

/// The message of the first substitution, from position `i` on, that cannot be
/// made.
pub open spec fn first_failure(label: Seq<char>, ops: Seq<OpModel>, i: int) -> Option<Seq<char>>
    decreases ops.len() - i,
{
    if i < 0 || i >= ops.len() {
        None
    } else {
        match op_failure(label, ops[i]) {
            Some(m) => Some(m),
            None => first_failure(label, ops, i + 1),
        }
    }
}

/// The message where the substitutions cannot be made.
pub open spec fn batch_failure(label: Seq<char>, ops: Seq<OpModel>) -> Option<Seq<char>> {
    if ops.len() == 0 {
        Some("replace: "@ + label + ": no operations supplied"@)
    } else {
        first_failure(label, ops, 0)
    }
}

/// The abstract values of substitutions.
pub open spec fn batch_models(ops: Seq<ReplaceOp<'_>>) -> Seq<OpModel> {
    ops.map_values(|op: ReplaceOp<'_>| op@)
}

/// A substitution that is ready to be made.
pub struct CompiledOp {
    re: regex::bytes::Regex,
    has_groups: bool,
    replacement: Vec<u8>,
}

impl CompiledOp {
    /// This is the given substitution, compiled.
    pub closed spec fn is_of(self, op: OpModel) -> bool {
        &&& bytes_pattern(self.re) == effective_pattern(op)
        &&& self.has_groups == (capture_count(effective_pattern(op)) > 1)
        &&& self.replacement@ == effective_replacement(op)
        &&& !op.regex ==> !self.has_groups
    }

    /// The expression that is looked for.
    pub closed spec fn expression(self) -> Seq<char> {
        bytes_pattern(self.re)
    }

    /// The bytes that are put in for a match.
    pub closed spec fn put_in(self) -> Seq<u8> {
        self.replacement@
    }
}

/// These are the given substitutions, compiled.
pub open spec fn compiled_from(v: Seq<CompiledOp>, ops: Seq<OpModel>) -> bool {
    &&& v.len() == ops.len()
    &&& forall|i: int| 0 <= i < v.len() ==> (#[trigger] v[i]).is_of(ops[i])
}

fn replace_message(label: &str, what: &str) -> (r: String)
    ensures
        r@ == "replace: "@ + label@ + what@,
{
    let mut m = "replace: ".to_owned();
    m.push_str(label);
    m.push_str(what);
    m
}

fn compile_op(label: &str, op: &ReplaceOp<'_>) -> (r: Result<CompiledOp, String>)
    ensures
        match r {
            Ok(c) => op_failure(label@, op@) is None && c.is_of(op@),
            Err(m) => op_failure(label@, op@) == Some(m@),
        },
{
    if op.pattern.is_empty() && !op.regex {
        return Err(
            replace_message(
                label,
                ": 'pattern' is empty, which would match at every position and rewrite the whole file; pass regex:true if an empty pattern is genuinely intended",
            ),
        );
    }
    let pattern = normalize_text_to_lf(op.pattern);
    let core = if op.regex {
        pattern
    } else {
        escape_pattern(pattern.as_str())
    };
    let effective = if op.multiline {
        let mut p = "(?m)".to_owned();
        p.push_str(core.as_str());
        p
    } else {
        core
    };
    let re = match compile_bytes(effective.as_str()) {
        Ok(re) => re,
        Err(m) => {
            return Err(m);
        },
    };
    let has_groups = captures_len(&re) > 1;
    proof {
        if !op.regex {
            assert(is_literal_pattern(bytes_pattern(re), text_to_lf(op.pattern@)));
        }
    }
    match from_utf8(op.replacement) {
        Ok(text) => {
            let mut replacement: Vec<u8> = Vec::new();
            replacement.extend_from_slice(normalize_text_to_lf(text.as_str()).as_str().as_bytes());
            proof {
                assert(replacement@ =~= effective_replacement(op@));
            }
            Ok(CompiledOp { re, has_groups, replacement })
        },
        Err(e) => {
            let mut m = replace_message(label, ": replacement is not valid UTF-8: ");
            m.push_str(e.as_str());
            Err(m)
        },
    }
}

/// Compile and validate every substitution before any file is touched.
pub fn compile(label: &str, ops: &[ReplaceOp<'_>]) -> (r: Result<Vec<CompiledOp>, String>)
    ensures
        match r {
            Ok(v) => batch_failure(label@, batch_models(ops@)) is None && compiled_from(
                v@,
                batch_models(ops@),
            ),
            Err(m) => batch_failure(label@, batch_models(ops@)) == Some(m@),
        },
{
    if ops.len() == 0 {
        return Err(replace_message(label, ": no operations supplied"));
    }
    let ghost models = batch_models(ops@);
    let mut v: Vec<CompiledOp> = Vec::new();
    let mut i: usize = 0;
    while i < ops.len()
        invariant
            i <= ops@.len(),
            ops@.len() > 0,
            models == batch_models(ops@),
            v@.len() == i,
            first_failure(label@, models, i as int) == first_failure(label@, models, 0),
            forall|k: int| 0 <= k < i ==> (#[trigger] v@[k]).is_of(models[k]),
        decreases ops@.len() - i,
    {
        match compile_op(label, &ops[i]) {
            Ok(c) => {
                v.push(c);
            },
            Err(m) => {
                return Err(m);
            },
        }
        i = i + 1;
    }
    Ok(v)
}

// ── Substituting ────────────────────────────────────────────────────────────

/// For each match of a substitution, what replaces it: the replacement with its
/// capture references expanded where the pattern has capture groups, the
/// replacement as it is where it has none.
pub open spec fn replacements(buf: Seq<u8>, op: OpModel) -> Seq<Seq<u8>> {
    let pattern = effective_pattern(op);
    if capture_count(pattern) > 1 {
        expanded(pattern, buf, effective_replacement(op))
    } else {
        Seq::new(bytes_spans(pattern, buf).len(), |i: int| effective_replacement(op))
    }
}

/// The bytes after one substitution.
pub open spec fn substituted(buf: Seq<u8>, op: OpModel) -> Seq<u8> {
    replaced(buf, bytes_spans(effective_pattern(op), buf), replacements(buf, op), 0)
}

/// The bytes after substitutions, each made on what the one before left.
pub open spec fn all_substituted(buf: Seq<u8>, ops: Seq<OpModel>) -> Seq<u8>
    decreases ops.len(),
{
    if ops.len() == 0 {
        buf
    } else {
        substituted(all_substituted(buf, ops.drop_last()), ops.last())
    }
}

/// The number of matches of the `i`-th substitution.
pub open spec fn match_count(buf: Seq<u8>, ops: Seq<OpModel>, i: int) -> nat {
    bytes_spans(effective_pattern(ops[i]), all_substituted(buf, ops.take(i))).len()
}

/// The counts are those of the substitutions.
pub open spec fn are_counts(counts: Seq<usize>, buf: Seq<u8>, ops: Seq<OpModel>) -> bool {
    &&& counts.len() == ops.len()
    &&& forall|i: int| 0 <= i < counts.len() ==> #[trigger] counts[i] == match_count(buf, ops, i)
}

/// The literal text that a substitution looks for.
pub open spec fn literal_bytes(op: OpModel) -> Seq<u8> {
    encode_utf8(text_to_lf(op.pattern))
}

/// A substitution that looks for a literal text finds the occurrences of that
/// text, from left to right, and replaces each by the replacement as it is.
#[verifier::opaque]
pub open spec fn literal_holds(buf: Seq<u8>, op: OpModel) -> bool {
    !op.regex && op.pattern.len() > 0 ==> {
        let found = occurrences(buf, literal_bytes(op), 0);
        &&& bytes_spans(effective_pattern(op), buf) == found
        &&& substituted(buf, op) == replaced(
            buf,
            found,
            Seq::new(found.len(), |i: int| effective_replacement(op)),
            0,
        )
    }
}

/// Each literal substitution finds the occurrences of its text.
pub open spec fn literals_hold(buf: Seq<u8>, ops: Seq<OpModel>) -> bool {
    forall|i: int|
        0 <= i < ops.len() ==> literal_holds(all_substituted(buf, ops.take(i)), #[trigger] ops[i])
}

/// A substitution that matches nothing changes nothing.
pub proof fn law_no_match_changes_nothing(buf: Seq<u8>, op: OpModel)
    requires
        bytes_spans(effective_pattern(op), buf).len() == 0,
    ensures
        substituted(buf, op) == buf,
{
    assert(buf.skip(0) =~= buf);
}

proof fn lemma_text_to_lf_nonempty(s: Seq<char>)
    requires
        s.len() > 0,
    ensures
        text_to_lf(s).len() > 0,
{
}

/// The result of making substitutions on a text.
struct Substituted {
    counts: Vec<usize>,
    bytes: Vec<u8>,
    regions: Vec<ChangedRegion>,
}

/// The regions reported of the first substitution, where they were asked for.
pub open spec fn are_regions(
    regions: Seq<ChangedRegion>,
    buf: Seq<u8>,
    ops: Seq<OpModel>,
    request: Option<RegionsRequest>,
) -> bool {
    match request {
        None => regions.len() == 0,
        Some(req) => {
            let spans = bytes_spans(effective_pattern(ops[0]), buf);
            &&& regions.len() == spans.len()
            &&& forall|i: int|
                0 <= i < regions.len() ==> is_region(
                    #[trigger] regions[i],
                    buf,
                    spans,
                    replacements(buf, ops[0]),
                    i,
                    req.text_budget_lines,
                )
        },
    }
}

/// Makes one substitution.
fn substitute_one(buf: &Vec<u8>, c: &CompiledOp, Ghost(op): Ghost<OpModel>) -> (r: (
    Vec<(usize, usize)>,
    Option<Vec<u8>>,
))
    requires
        c.is_of(op),
    ensures
        span_views(r.0@) == bytes_spans(effective_pattern(op), buf@),
        are_spans(span_views(r.0@), buf@.len() as int),
        match r.1 {
            Some(next) => r.0@.len() > 0 && next@ == substituted(buf@, op),
            None => r.0@.len() == 0 && buf@ == substituted(buf@, op),
        },
        literal_holds(buf@, op),
{
    let spans = find_spans(&c.re, buf.as_slice());
    proof {
        reveal(literal_holds);
        assert(span_views(spans@).len() == spans@.len());
        if !op.regex && op.pattern.len() > 0 {
            lemma_text_to_lf_nonempty(op.pattern);
            assert(is_literal_pattern(bytes_pattern(c.re), text_to_lf(op.pattern)));
            assert(capture_count(effective_pattern(op)) <= 1);
        }
    }
    if spans.len() == 0 {
        proof {
            law_no_match_changes_nothing(buf@, op);
        }
        return (spans, None);
    }
    let next = if c.has_groups {
        replace_expanding(&c.re, buf.as_slice(), c.replacement.as_slice())
    } else {
        replace_verbatim(&c.re, buf.as_slice(), c.replacement.as_slice())
    };
    (spans, Some(next))
}

/// Copies of a replacement.
fn copies(text: &Vec<u8>, n: usize) -> (r: Vec<Vec<u8>>)
    ensures
        r@.len() == n,
        r@.map_values(|v: Vec<u8>| v@) =~= Seq::new(n as nat, |i: int| text@),
{
    let mut out: Vec<Vec<u8>> = Vec::new();
    let mut i: usize = 0;
    while i < n
        invariant
            i <= n,
            out@.len() == i,
            forall|k: int| 0 <= k < i ==> (#[trigger] out@[k])@ == text@,
        decreases n - i,
    {
        let mut copy: Vec<u8> = Vec::new();
        copy.extend_from_slice(text.as_slice());
        proof {
            assert(copy@ =~= text@);
        }
        out.push(copy);
        i = i + 1;
    }
    out
}

/// Counts the matches of the first substitution, reporting what each changes.
fn collect_regions(
    hay: &[u8],
    c: &CompiledOp,
    request: RegionsRequest,
    Ghost(ops): Ghost<Seq<OpModel>>,
) -> (r: Vec<ChangedRegion>)
    requires
        ops.len() > 0,
        c.is_of(ops[0]),
        hay@.len() < usize::MAX,
    ensures
        are_regions(r@, hay@, ops, Some(request)),
{
    let spans = find_spans(&c.re, hay);
    proof {
        assert(span_views(spans@).len() == spans@.len());
    }
    let with = if c.has_groups {
        expand_all(&c.re, hay, c.replacement.as_slice())
    } else {
        copies(&c.replacement, spans.len())
    };
    proof {
        assert(with@.map_values(|v: Vec<u8>| v@) == replacements(hay@, ops[0]));
    }
    report_regions(hay, &spans, &with, request)
}

/// Makes substitutions on bytes.
#[verifier::spinoff_prover]
#[verifier::rlimit(100)]
fn substitute(
    start: &[u8],
    ops: &Vec<CompiledOp>,
    request: Option<RegionsRequest>,
    Ghost(models): Ghost<Seq<OpModel>>,
) -> (r: Substituted)
    requires
        compiled_from(ops@, models),
        models.len() > 0,
        start@.len() < usize::MAX,
    ensures
        are_counts(r.counts@, start@, models),
        r.bytes@ == all_substituted(start@, models),
        are_regions(r.regions@, start@, models, request),
        literals_hold(start@, models),
{
    let regions = match request {
        Some(req) => collect_regions(start, &ops[0], req, Ghost(models)),
        None => Vec::new(),
    };
    let mut buf: Vec<u8> = Vec::new();
    buf.extend_from_slice(start);
    let mut counts: Vec<usize> = Vec::new();
    let mut i: usize = 0;
    proof {
        assert(buf@ =~= start@);
        assert(models.take(0) =~= seq![]);
    }
    while i < ops.len()
        invariant
            i <= ops@.len(),
            compiled_from(ops@, models),
            counts@.len() == i,
            buf@ == all_substituted(start@, models.take(i as int)),
            forall|k: int|
                0 <= k < i ==> #[trigger] counts@[k] == match_count(start@, models, k),
            forall|k: int|
                0 <= k < i ==> literal_holds(
                    all_substituted(start@, models.take(k)),
                    #[trigger] models[k],
                ),
        decreases ops@.len() - i,
    {
        let ghost op = models[i as int];
        proof {
            assert(ops@[i as int].is_of(op));
            assert(models.take(i + 1).drop_last() =~= models.take(i as int));
            assert(models.take(i + 1).last() == op);
        }
        let (spans, next) = substitute_one(&buf, &ops[i], Ghost(op));
        proof {
            assert(span_views(spans@).len() == spans@.len());
        }
        counts.push(spans.len());
        match next {
            Some(n) => {
                buf = n;
            },
            None => {},
        }
        i = i + 1;
    }
    proof {
        assert(models.take(i as int) =~= models);
    }
    Substituted { counts, bytes: buf, regions }
}

// ── Options and outcome ─────────────────────────────────────────────────────

/// What is asked of a replacement.
#[derive(Debug, Clone, Copy)]
pub struct ReplaceOptions {
    /// Let `^` and `$` match at every line.
    pub multiline: bool,
    /// Interpret the pattern as a regular expression.
    pub regex: bool,
    /// The line ending to write; `None` for the one that policy or file gives.
    pub line_ending_override: Option<LineEnding>,
    /// Count matches without changing anything.
    pub count_only: bool,
    /// Compute the result without writing it.
    pub dry_run: bool,
    /// Collect every changed line, before and after.
    pub changed_lines: bool,
    /// Collect no more changed lines than this.
    pub changed_lines_max: Option<usize>,
}

impl Default for ReplaceOptions {
    fn default() -> (r: Self)
        ensures
            !r.multiline && !r.regex && r.line_ending_override is None && !r.count_only
                && !r.dry_run && !r.changed_lines && r.changed_lines_max is None,
    {
        ReplaceOptions {
            multiline: false,
            regex: false,
            line_ending_override: None,
            count_only: false,
            dry_run: false,
            changed_lines: false,
            changed_lines_max: None,
        }
    }
}

/// What a replacement came to.
#[derive(Debug, Clone)]
pub struct ReplaceOutcome {
    /// The number of matches of each substitution.
    pub counts: Vec<usize>,
    /// The line endings of the file as read.
    pub before: TextLayout,
    /// The line endings of the file as written, or as it would be.
    pub after: TextLayout,
    /// The changed lines, where they were asked for.
    pub changed_lines: Vec<ChangedLine>,
    /// Whether there are more changed lines than were collected.
    pub changed_lines_truncated: bool,
    /// Whether the file is written.
    pub wrote: bool,
    /// Whether the resulting bytes differ from those of the file.
    pub would_write: bool,
}

/// The sum of counts.
pub open spec fn sum(s: Seq<usize>) -> nat
    decreases s.len(),
{
    if s.len() == 0 {
        0
    } else {
        sum(s.drop_last()) + s.last() as nat
    }
}

proof fn lemma_sum_monotone(s: Seq<usize>, i: int)
    requires
        0 <= i <= s.len(),
    ensures
        sum(s.take(i)) <= sum(s),
    decreases s.len(),
{
    if i == s.len() {
        assert(s.take(i) =~= s);
    } else {
        assert(s.drop_last().take(i) =~= s.take(i));
        lemma_sum_monotone(s.drop_last(), i);
    }
}

impl ReplaceOutcome {
    /// The number of matches of all substitutions.
    pub fn total(&self) -> (r: usize)
        requires
            sum(self.counts@) <= usize::MAX,
        ensures
            r == sum(self.counts@),
    {
        let mut n: usize = 0;
        let mut i: usize = 0;
        proof {
            assert(self.counts@.take(0) =~= seq![]);
        }
        while i < self.counts.len()
            invariant
                i <= self.counts@.len(),
                sum(self.counts@) <= usize::MAX,
                n == sum(self.counts@.take(i as int)),
            decreases self.counts@.len() - i,
        {
            proof {
                let t = self.counts@.take(i + 1);
                assert(t.drop_last() =~= self.counts@.take(i as int));
                assert(t.last() == self.counts@[i as int]);
                lemma_sum_monotone(self.counts@, i + 1);
            }
            n = n + self.counts[i];
            i = i + 1;
        }
        proof {
            assert(self.counts@.take(i as int) =~= self.counts@);
        }
        n
    }

    /// Whether a file with several kinds of line ending came down to one.
    pub fn normalized_line_endings(&self) -> (r: bool)
        ensures
            r == (self.before.mixed() && self.after.uniformity_spec() == "uniform"@),
    {
        self.before.is_mixed() && same(self.after.uniformity(), "uniform")
    }
}

// ── Replacing in a file ─────────────────────────────────────────────────────

/// The new text and its bytes, ready to be written, with what was found on the
/// way.
#[derive(Debug)]
pub struct Prepared {
    /// The number of matches of each substitution.
    pub counts: Vec<usize>,
    /// The text after the substitutions.
    pub new_text: String,
    /// The text after the substitutions in the file's encoding.
    pub encoded: Vec<u8>,
    /// What each match of the first substitution changed, where asked for.
    pub regions: Vec<ChangedRegion>,
}

/// The message where the substitutions match too little, from position `i` on.
pub open spec fn refusal(
    label: Seq<char>,
    ops: Seq<OpModel>,
    buf: Seq<u8>,
    i: int,
) -> Option<Seq<char>>
    decreases ops.len() - i,
{
    if i < 0 || i >= ops.len() {
        None
    } else if match_count(buf, ops, i) == 0 && !ops[i].allow_no_match {
        Some(
            "replace: "@ + label + ": "@ + (match ops[i].label {
                Some(l) => l + ": "@,
                None => ""@,
            }) + "pattern "@ + str_debug(ops[i].pattern)
                + " matched 0 times; the whole batch was refused and the file was not modified. Set allow_no_match on this op if a zero match is the intended outcome."@,
        )
    } else {
        refusal(label, ops, buf, i + 1)
    }
}

/// The new text and its bytes in the given encoding, or the message of the error.
/// A preview is not refused where substitutions match too little.
pub open spec fn prepared(
    label: Seq<char>,
    text: Seq<char>,
    encoding: EncodingKind,
    ops: Seq<OpModel>,
    preview: bool,
) -> Result<(Seq<char>, Seq<u8>), Seq<char>> {
    let buf = encode_utf8(text);
    let bytes = all_substituted(buf, ops);
    if !preview && refusal(label, ops, buf, 0) is Some {
        Err(refusal(label, ops, buf, 0)->0)
    } else if !valid_utf8(bytes) {
        Err("replace: generated invalid UTF-8: "@ + utf8_error(bytes))
    } else {
        match encoded_strict(decode_utf8(bytes), encoding) {
            Ok(encoded) => Ok((decode_utf8(bytes), encoded)),
            Err(m) => Err("replace: "@ + label + ": "@ + m),
        }
    }
}

fn find_refusal(
    label: &str,
    ops: &[ReplaceOp<'_>],
    counts: &Vec<usize>,
    Ghost(buf): Ghost<Seq<u8>>,
) -> (r: Option<String>)
    requires
        are_counts(counts@, buf, batch_models(ops@)),
    ensures
        match r {
            Some(m) => refusal(label@, batch_models(ops@), buf, 0) == Some(m@),
            None => refusal(label@, batch_models(ops@), buf, 0) is None,
        },
{
    let ghost models = batch_models(ops@);
    let mut i: usize = 0;
    while i < ops.len()
        invariant
            i <= ops@.len(),
            models == batch_models(ops@),
            are_counts(counts@, buf, models),
            refusal(label@, models, buf, i as int) == refusal(label@, models, buf, 0),
        decreases ops@.len() - i,
    {
        proof {
            assert(counts@[i as int] == match_count(buf, models, i as int));
            assert(models[i as int] == ops@[i as int]@);
        }
        if counts[i] == 0 && !ops[i].allow_no_match {
            let mut m = "replace: ".to_owned();
            m.push_str(label);
            m.push_str(": ");
            let prefix = match ops[i].label {
                Some(l) => {
                    let mut p = l.to_owned();
                    p.push_str(": ");
                    p
                },
                None => "".to_owned(),
            };
            m.push_str(prefix.as_str());
            m.push_str("pattern ");
            m.push_str(format_str_debug(ops[i].pattern).as_str());
            m.push_str(
                " matched 0 times; the whole batch was refused and the file was not modified. Set allow_no_match on this op if a zero match is the intended outcome.",
            );
            return Some(m);
        }
        i = i + 1;
    }
    None
}

/// The result of making substitutions on a text.
pub open spec fn is_prepared(
    r: Result<Prepared, String>,
    label: Seq<char>,
    text: Seq<char>,
    encoding: EncodingKind,
    ops: Seq<OpModel>,
    request: Option<RegionsRequest>,
    preview: bool,
) -> bool {
    match r {
        Ok(p) => {
            &&& prepared(label, text, encoding, ops, preview) == Ok::<
                (Seq<char>, Seq<u8>),
                Seq<char>,
            >((p.new_text@, p.encoded@))
            &&& are_counts(p.counts@, encode_utf8(text), ops)
            &&& are_regions(p.regions@, encode_utf8(text), ops, request)
        },
        Err(m) => prepared(label, text, encoding, ops, preview) == Err::<
            (Seq<char>, Seq<u8>),
            Seq<char>,
        >(m@),
    }
}

/// Make compiled substitutions on a file's text. Previews (`count_only` and
/// `dry_run`) fail where writing would, but are not refused where substitutions
/// match nothing.
pub fn apply(
    label: &str,
    decoded: &DecodedText,
    ops: &[ReplaceOp<'_>],
    compiled: &Vec<CompiledOp>,
    request: Option<RegionsRequest>,
    opts: &ReplaceOptions,
) -> (r: Result<Prepared, String>)
    requires
        compiled_from(compiled@, batch_models(ops@)),
        ops@.len() > 0,
        encode_utf8(decoded.text@).len() < usize::MAX,
    ensures
        is_prepared(
            r,
            label@,
            decoded.text@,
            decoded.encoding@,
            batch_models(ops@),
            request,
            opts.count_only || opts.dry_run,
        ),
        literals_hold(encode_utf8(decoded.text@), batch_models(ops@)),
{
    let ghost models = batch_models(ops@);
    let done = substitute(decoded.text.as_str().as_bytes(), compiled, request, Ghost(models));
    if !opts.count_only && !opts.dry_run {
        match find_refusal(label, ops, &done.counts, Ghost(encode_utf8(decoded.text@))) {
            Some(m) => {
                return Err(m);
            },
            None => {},
        }
    }
    let new_text = match from_utf8(done.bytes.as_slice()) {
        Ok(t) => t,
        Err(e) => {
            let mut m = "replace: generated invalid UTF-8: ".to_owned();
            m.push_str(e.as_str());
            return Err(m);
        },
    };
    match encode_text_strict(new_text.as_str(), &decoded.encoding) {
        Ok(encoded) => Ok(
            Prepared { counts: done.counts, new_text, encoded, regions: done.regions },
        ),
        Err(e) => {
            let mut m = replace_message(label, ": ");
            m.push_str(e.as_str());
            Err(m)
        },
    }
}

/// Replace one pattern in a file's text. A pattern that matches nothing is no
/// error.
pub fn run(
    label: &str,
    decoded: &DecodedText,
    pattern: &str,
    replacement: &[u8],
    request: Option<RegionsRequest>,
    opts: &ReplaceOptions,
) -> (r: Result<Prepared, String>)
    requires
        encode_utf8(decoded.text@).len() < usize::MAX,
    ensures
        ({
            let op = OpModel {
                label: None,
                pattern: pattern@,
                replacement: replacement@,
                regex: opts.regex,
                multiline: opts.multiline,
                allow_no_match: true,
            };
            match batch_failure(label@, seq![op]) {
                Some(m) => r is Err && r->Err_0@ == m,
                None => {
                    &&& is_prepared(
                        r,
                        label@,
                        decoded.text@,
                        decoded.encoding@,
                        seq![op],
                        request,
                        opts.count_only || opts.dry_run,
                    )
                    &&& literal_holds(encode_utf8(decoded.text@), op)
                },
            }
        }),
{
    let op = ReplaceOp {
        label: None,
        pattern,
        replacement,
        regex: opts.regex,
        multiline: opts.multiline,
        allow_no_match: true,
    };
    let ghost model = op@;
    let ops = vec![op];
    proof {
        assert(batch_models(ops@) =~= seq![model]);
    }
    match compile(label, ops.as_slice()) {
        Ok(compiled) => {
            let r = apply(label, decoded, ops.as_slice(), &compiled, request, opts);
            proof {
                let models = batch_models(ops@);
                assert(models.take(0) =~= seq![]);
                assert(literal_holds(
                    all_substituted(encode_utf8(decoded.text@), models.take(0)),
                    models[0],
                ));
            }
            r
        },
        Err(m) => Err(m),
    }
}

/// Compile the substitutions of a batch, in which each substitution says for itself
/// whether its pattern is a regular expression.
pub fn compile_batch(label: &str, ops: &[ReplaceOp<'_>], opts: &ReplaceOptions) -> (r: Result<
    Vec<CompiledOp>,
    String,
>)
    ensures
        opts.regex || opts.multiline ==> r is Err && r->Err_0@ == "replace: "@ + label@
            + ": 'regex' and 'multiline' are per-op in batch mode; set them on each ops entry rather than on ReplaceOptions"@,
        !opts.regex && !opts.multiline ==> match r {
            Ok(v) => batch_failure(label@, batch_models(ops@)) is None && compiled_from(
                v@,
                batch_models(ops@),
            ),
            Err(m) => batch_failure(label@, batch_models(ops@)) == Some(m@),
        },
{
    if opts.regex || opts.multiline {
        return Err(
            replace_message(
                label,
                ": 'regex' and 'multiline' are per-op in batch mode; set them on each ops entry rather than on ReplaceOptions",
            ),
        );
    }
    compile(label, ops)
}

/// Make several substitutions on a file's text, each on what the one before
/// left; all of them or none.
pub fn run_batch(
    label: &str,
    decoded: &DecodedText,
    ops: &[ReplaceOp<'_>],
    opts: &ReplaceOptions,
) -> (r: Result<Prepared, String>)
    requires
        encode_utf8(decoded.text@).len() < usize::MAX,
    ensures
        opts.regex || opts.multiline ==> r is Err && r->Err_0@ == "replace: "@ + label@
            + ": 'regex' and 'multiline' are per-op in batch mode; set them on each ops entry rather than on ReplaceOptions"@,
        !opts.regex && !opts.multiline ==> match batch_failure(label@, batch_models(ops@)) {
            Some(m) => r is Err && r->Err_0@ == m,
            None => is_prepared(
                r,
                label@,
                decoded.text@,
                decoded.encoding@,
                batch_models(ops@),
                None,
                opts.count_only || opts.dry_run,
            ) && literals_hold(encode_utf8(decoded.text@), batch_models(ops@)),
        },
{
    match compile_batch(label, ops, opts) {
        Ok(compiled) => apply(label, decoded, ops, &compiled, None, opts),
        Err(m) => Err(m),
    }
}

// ── Writing ─────────────────────────────────────────────────────────────────

/// What to do with a file after a replacement.
#[derive(Debug)]
pub struct ReplacePlan {
    /// What the replacement came to.
    pub outcome: ReplaceOutcome,
    /// The content to write; `None` where nothing is to be written.
    pub bytes: Option<Vec<u8>>,
    /// The unified diff, where asked for.
    pub diff: Option<String>,
}

/// Something was found, or another line ending was asked for.
pub open spec fn rewrites(counts: Seq<usize>, opts: ReplaceOptions) -> bool {
    opts.line_ending_override is Some || exists|i: int| 0 <= i < counts.len() && counts[i] > 0
}

/// The line ending to write: the one asked for, else the one that policy gives,
/// else the file's own.
pub open spec fn target_ending(
    opts: ReplaceOptions,
    policy_ending: Option<LineEnding>,
    detected: LineEnding,
) -> LineEnding {
    match opts.line_ending_override {
        Some(e) => e,
        None => match policy_ending {
            Some(e) => e,
            None => detected,
        },
    }
}

/// The content after a replacement.
pub open spec fn final_bytes(
    encoded: Seq<u8>,
    encoding: EncodingKind,
    ending: LineEnding,
    write_bom: bool,
) -> Seq<u8> {
    (if write_bom {
        encoding.bom()
    } else {
        seq![]
    }) + native_lf_to(encoded, encoding, ending)
}

/// A plan that changes nothing.
pub open spec fn is_idle_plan(plan: ReplacePlan, counts: Seq<usize>, before: TextLayout) -> bool {
    let o = plan.outcome;
    &&& o.counts@ == counts
    &&& o.before == before
    &&& o.after == before
    &&& !o.wrote && !o.would_write
    &&& o.changed_lines@.len() == 0 && !o.changed_lines_truncated
    &&& plan.bytes is None
    &&& plan.diff is None
}

/// The plan for a file whose content is to become `bytes`.
pub open spec fn is_write_plan(
    plan: ReplacePlan,
    label: Seq<char>,
    file: Seq<u8>,
    old_text: Seq<char>,
    new_text: Seq<char>,
    counts: Seq<usize>,
    before: TextLayout,
    ending: LineEnding,
    bytes: Seq<u8>,
    opts: ReplaceOptions,
    want_diff: bool,
) -> bool {
    let o = plan.outcome;
    let pairs = line_pairs(similar_changes(old_text, new_text), seq![], seq![]);
    let preview = opts.count_only || opts.dry_run;
    &&& o.counts@ == counts
    &&& o.before == before
    &&& exists|l: TextLayout| l.describes(new_text) && o.after == #[trigger] l.projection(ending)
    &&& o.would_write == (file != bytes)
    &&& o.wrote == (!preview && file != bytes)
    &&& match plan.bytes {
        Some(b) => o.wrote && b@ == bytes,
        None => !o.wrote,
    }
    &&& if opts.changed_lines && !opts.count_only {
        pair_views(o.changed_lines@) == capped(pairs, opts.changed_lines_max)
            && o.changed_lines_truncated == exceeds(pairs, opts.changed_lines_max)
    } else {
        o.changed_lines@.len() == 0 && !o.changed_lines_truncated
    }
    &&& match plan.diff {
        Some(d) => want_diff && !opts.count_only && d@ == file_diff(label, old_text, new_text),
        None => !want_diff || opts.count_only,
    }
}

fn any_match(counts: &Vec<usize>) -> (r: bool)
    ensures
        r == exists|i: int| 0 <= i < counts@.len() && counts@[i] > 0,
{
    let mut i: usize = 0;
    while i < counts.len()
        invariant
            i <= counts@.len(),
            forall|k: int| 0 <= k < i ==> counts@[k] == 0,
        decreases counts@.len() - i,
    {
        if counts[i] > 0 {
            return true;
        }
        i = i + 1;
    }
    false
}

/// What is to be done with a file after a replacement.
pub open spec fn is_finished(
    plan: ReplacePlan,
    label: Seq<char>,
    file: Seq<u8>,
    decoded: DecodedText,
    prepared: Prepared,
    policy_ending: Option<LineEnding>,
    write_bom: bool,
    opts: ReplaceOptions,
    want_diff: bool,
) -> bool {
    if rewrites(prepared.counts@, opts) {
        let ending = target_ending(opts, policy_ending, decoded.line_ending);
        is_write_plan(
            plan,
            label,
            file,
            decoded.text@,
            prepared.new_text@,
            prepared.counts@,
            decoded.layout,
            ending,
            final_bytes(prepared.encoded@, decoded.encoding@, ending, write_bom),
            opts,
            want_diff,
        )
    } else {
        is_idle_plan(plan, prepared.counts@, decoded.layout)
    }
}

/// Decide what to do with a file after a replacement. `policy_ending` is the line
/// ending that repository policy gives the new text, and `write_bom` whether a
/// byte-order mark is to be written.
pub fn finish(
    label: &str,
    file: &[u8],
    decoded: &DecodedText,
    prepared: Prepared,
    policy_ending: Option<LineEnding>,
    write_bom: bool,
    opts: &ReplaceOptions,
    want_diff: bool,
) -> (r: ReplacePlan)
    ensures
        is_finished(
            r,
            label@,
            file@,
            *decoded,
            prepared,
            policy_ending,
            write_bom,
            *opts,
            want_diff,
        ),
{
    let ghost counts = prepared.counts@;
    let found = any_match(&prepared.counts);
    if !(found || opts.line_ending_override.is_some()) {
        return ReplacePlan {
            outcome: ReplaceOutcome {
                counts: prepared.counts,
                before: decoded.layout,
                after: decoded.layout,
                changed_lines: Vec::new(),
                changed_lines_truncated: false,
                wrote: false,
                would_write: false,
            },
            bytes: None,
            diff: None,
        };
    }
    proof {
        assert(rewrites(counts, *opts));
    }
    let ending = match opts.line_ending_override {
        Some(e) => e,
        None => match policy_ending {
            Some(e) => e,
            None => decoded.line_ending,
        },
    };
    let layout = TextLayout::analyze(prepared.new_text.as_str());
    let after = layout.projected_onto(ending);
    proof {
        assert(layout.describes(prepared.new_text@) && after == layout.projection(ending));
    }
    let ghost bytes = final_bytes(prepared.encoded@, decoded.encoding@, ending, write_bom);
    let body = denormalize_lf(prepared.encoded, &decoded.encoding, ending);
    let mut out: Vec<u8> = Vec::new();
    if write_bom {
        let bom = bom_bytes_for(&decoded.encoding);
        out.extend_from_slice(bom.as_slice());
    }
    out.extend_from_slice(body.as_slice());
    proof {
        assert(out@ =~= bytes);
    }
    let would_write = !same_bytes(file, out.as_slice());
    if opts.count_only {
        return ReplacePlan {
            outcome: ReplaceOutcome {
                counts: prepared.counts,
                before: decoded.layout,
                after,
                changed_lines: Vec::new(),
                changed_lines_truncated: false,
                wrote: false,
                would_write,
            },
            bytes: None,
            diff: None,
        };
    }
    let wrote = !opts.dry_run && would_write;
    let (changed_lines, changed_lines_truncated) = if opts.changed_lines {
        collect_changed_lines(
            decoded.text.as_str(),
            prepared.new_text.as_str(),
            opts.changed_lines_max,
        )
    } else {
        (Vec::new(), false)
    };
    let diff = if want_diff {
        Some(unified_diff(label, decoded.text.as_str(), prepared.new_text.as_str()))
    } else {
        None
    };
    ReplacePlan {
        outcome: ReplaceOutcome {
            counts: prepared.counts,
            before: decoded.layout,
            after,
            changed_lines,
            changed_lines_truncated,
            wrote,
            would_write,
        },
        bytes: if wrote {
            Some(out)
        } else {
            None
        },
        diff,
    }
}

// ── Laws ────────────────────────────────────────────────────────────────────

/// A decoded replacement holds no CR, so that no line ending doubles it.
pub proof fn law_replacement_lacks_cr(s: Seq<char>, literal: bool)
    requires
        replacement_bytes(s, literal) is Ok,
    ensures
        lacks(replacement_bytes(s, literal)->Ok_0, 0x0D),
{
    if literal {
        law_to_lf_lacks_cr(encode_utf8(s));
    } else {
        law_to_lf_lacks_cr(unescape_bytes(encode_utf8(s), 0)->Ok_0);
    }
}

/// A batch is a chain: its later substitutions are made on what its earlier ones
/// left.
pub proof fn law_batch_is_a_chain(buf: Seq<u8>, first: Seq<OpModel>, second: Seq<OpModel>)
    ensures
        all_substituted(buf, first + second) == all_substituted(
            all_substituted(buf, first),
            second,
        ),
    decreases second.len(),
{
    if second.len() == 0 {
        assert(first + second =~= first);
    } else {
        assert((first + second).drop_last() =~= first + second.drop_last());
        law_batch_is_a_chain(buf, first, second.drop_last());
    }
}

/// A preview predicts the write: counts, line endings and whether anything would
/// change are the same in every mode.
pub proof fn law_preview_predicts_the_write(
    preview: ReplacePlan,
    actual: ReplacePlan,
    label: Seq<char>,
    file: Seq<u8>,
    old_text: Seq<char>,
    new_text: Seq<char>,
    counts: Seq<usize>,
    before: TextLayout,
    ending: LineEnding,
    bytes: Seq<u8>,
    preview_opts: ReplaceOptions,
    actual_opts: ReplaceOptions,
    want_diff: bool,
)
    requires
        is_write_plan(
            preview,
            label,
            file,
            old_text,
            new_text,
            counts,
            before,
            ending,
            bytes,
            preview_opts,
            want_diff,
        ),
        is_write_plan(
            actual,
            label,
            file,
            old_text,
            new_text,
            counts,
            before,
            ending,
            bytes,
            actual_opts,
            want_diff,
        ),
        !actual_opts.count_only && !actual_opts.dry_run,
    ensures
        preview.outcome.counts@ == actual.outcome.counts@,
        preview.outcome.before == actual.outcome.before,
        preview.outcome.after == actual.outcome.after,
        preview.outcome.would_write == actual.outcome.wrote,
        preview_opts.count_only || preview_opts.dry_run ==> preview.bytes is None,
{
    let l = choose|l: TextLayout|
        l.describes(new_text) && preview.outcome.after == #[trigger] l.projection(ending);
    let m = choose|m: TextLayout|
        m.describes(new_text) && actual.outcome.after == #[trigger] m.projection(ending);
    assert(l == m);
}

/// The expression that a substitution looks for is the pattern as it was given, with line
/// endings normalised, where it is one, and its escaped form where it is literal text; `^`
/// and `$` match at every line where, and only where, that is asked for. Nothing else is
/// added, and nothing else counts.
pub proof fn law_patterns_are_taken_as_given(op: OpModel, other: OpModel)
    ensures
        op.regex && !op.multiline ==> effective_pattern(op) == text_to_lf(op.pattern),
        op.regex && op.multiline ==> effective_pattern(op) == "(?m)"@ + text_to_lf(op.pattern),
        !op.regex && !op.multiline ==> effective_pattern(op) == escaped_pattern(
            text_to_lf(op.pattern),
        ),
        !op.regex && op.multiline ==> effective_pattern(op) == "(?m)"@ + escaped_pattern(
            text_to_lf(op.pattern),
        ),
        lacks_cr(op.pattern) ==> text_to_lf(op.pattern) == op.pattern,
        op.pattern == other.pattern && op.regex == other.regex && op.multiline == other.multiline
            ==> effective_pattern(op) == effective_pattern(other),
{
    if lacks_cr(op.pattern) {
        lemma_lf_text(op.pattern);
    }
}

/// A replacement is put in as it was given, with line endings normalised.
pub proof fn law_replacements_are_taken_as_given(op: OpModel)
    requires
        valid_utf8(op.replacement),
    ensures
        effective_replacement(op) == to_lf(op.replacement),
        lacks(op.replacement, 0x0D) ==> effective_replacement(op) == op.replacement,
{
    let text = decode_utf8(op.replacement);
    decode_utf8_encode_utf8(op.replacement);
    lemma_utf8_to_lf(text);
    if lacks(op.replacement, 0x0D) {
        law_to_lf_keeps_lf_only(op.replacement);
    }
}

/// A single substitution with a regular expression finds the matches of the expression given
/// in the text given, and replaces each of them, and nothing else, by the replacement given:
/// as it is where the expression has no capture groups, with its references expanded where
/// it has.
pub proof fn law_a_regex_replaces_its_matches(
    p: Prepared,
    label: Seq<char>,
    text: Seq<char>,
    encoding: EncodingKind,
    op: OpModel,
    request: Option<RegionsRequest>,
    preview: bool,
)
    requires
        is_prepared(Ok(p), label, text, encoding, seq![op], request, preview),
        op.regex,
        valid_utf8(op.replacement),
    ensures
        ({
            let pattern = if op.multiline {
                "(?m)"@ + text_to_lf(op.pattern)
            } else {
                text_to_lf(op.pattern)
            };
            let buf = encode_utf8(text);
            let spans = bytes_spans(pattern, buf);
            let with = if capture_count(pattern) > 1 {
                expanded(pattern, buf, to_lf(op.replacement))
            } else {
                Seq::new(spans.len(), |i: int| to_lf(op.replacement))
            };
            &&& p.counts@.len() == 1
            &&& p.counts@[0] == spans.len()
            &&& encode_utf8(p.new_text@) == replaced(buf, spans, with, 0)
            &&& encoded_strict(p.new_text@, encoding) == Ok::<Seq<u8>, Seq<char>>(p.encoded@)
        }),
{
    let ops = seq![op];
    let buf = encode_utf8(text);
    law_patterns_are_taken_as_given(op, op);
    law_replacements_are_taken_as_given(op);
    assert(ops.take(0) =~= seq![]);
    assert(ops.drop_last() =~= seq![]);
    assert(all_substituted(buf, ops.drop_last()) == buf);
    assert(all_substituted(buf, ops.take(0)) == buf);
    assert(p.counts@[0] == match_count(buf, ops, 0));
    decode_utf8_encode_utf8(all_substituted(buf, ops));
}

/// A single substitution of literal text finds the occurrences of the text given, and
/// replaces each of them, and nothing else, by the replacement as it is.
pub proof fn law_literal_text_replaces_its_occurrences(
    p: Prepared,
    label: Seq<char>,
    text: Seq<char>,
    encoding: EncodingKind,
    op: OpModel,
    request: Option<RegionsRequest>,
    preview: bool,
)
    requires
        is_prepared(Ok(p), label, text, encoding, seq![op], request, preview),
        literal_holds(encode_utf8(text), op),
        !op.regex,
        op.pattern.len() > 0,
        valid_utf8(op.replacement),
    ensures
        ({
            let buf = encode_utf8(text);
            let found = occurrences(buf, encode_utf8(text_to_lf(op.pattern)), 0);
            &&& p.counts@.len() == 1
            &&& p.counts@[0] == found.len()
            &&& encode_utf8(p.new_text@) == replaced(
                buf,
                found,
                Seq::new(found.len(), |i: int| to_lf(op.replacement)),
                0,
            )
            &&& encoded_strict(p.new_text@, encoding) == Ok::<Seq<u8>, Seq<char>>(p.encoded@)
        }),
{
    reveal(literal_holds);
    let ops = seq![op];
    let buf = encode_utf8(text);
    law_replacements_are_taken_as_given(op);
    assert(ops.take(0) =~= seq![]);
    assert(ops.drop_last() =~= seq![]);
    assert(all_substituted(buf, ops.drop_last()) == buf);
    assert(all_substituted(buf, ops.take(0)) == buf);
    assert(p.counts@[0] == match_count(buf, ops, 0));
    decode_utf8_encode_utf8(all_substituted(buf, ops));
}

/// A batch does what its parts do one after the other: the counts are those of its first
/// part on the text, and then those of its second part on what the first left; and the text
/// is what the second part leaves.
pub proof fn law_a_batch_does_what_its_parts_do(
    whole: Prepared,
    one: Prepared,
    two: Prepared,
    label: Seq<char>,
    text: Seq<char>,
    encoding: EncodingKind,
    first: Seq<OpModel>,
    second: Seq<OpModel>,
    preview: bool,
)
    requires
        is_prepared(Ok(whole), label, text, encoding, first + second, None, preview),
        is_prepared(Ok(one), label, text, encoding, first, None, preview),
        is_prepared(Ok(two), label, one.new_text@, encoding, second, None, preview),
    ensures
        whole.counts@ == one.counts@ + two.counts@,
        whole.new_text@ == two.new_text@,
        whole.encoded@ == two.encoded@,
{
    let buf = encode_utf8(text);
    let ops = first + second;
    let mid = all_substituted(buf, first);
    law_batch_is_a_chain(buf, first, second);
    decode_utf8_encode_utf8(mid);
    let n = first.len() as int;
    assert forall|i: int| 0 <= i < ops.len() implies whole.counts@[i] == (one.counts@
        + two.counts@)[i] by {
        assert(whole.counts@[i] == match_count(buf, ops, i));
        if i < n {
            assert(ops.take(i) =~= first.take(i));
            assert(one.counts@[i] == match_count(buf, first, i));
        } else {
            assert(ops.take(i) =~= first + second.take(i - n));
            law_batch_is_a_chain(buf, first, second.take(i - n));
            assert(two.counts@[i - n] == match_count(mid, second, i - n));
        }
    }
    assert(whole.counts@ =~= one.counts@ + two.counts@);
}

/// A batch is all or nothing: outside of a preview it is refused where a substitution finds
/// nothing that has to find something, and where it is not refused every such substitution
/// has found something. A preview is refused for no such reason.
pub proof fn law_a_batch_is_all_or_nothing(
    r: Result<Prepared, String>,
    label: Seq<char>,
    text: Seq<char>,
    encoding: EncodingKind,
    ops: Seq<OpModel>,
    request: Option<RegionsRequest>,
    preview: bool,
    i: int,
)
    requires
        is_prepared(r, label, text, encoding, ops, request, preview),
        0 <= i < ops.len(),
    ensures
        !preview && r is Ok ==> r->Ok_0.counts@[i] > 0 || ops[i].allow_no_match,
        !preview && match_count(encode_utf8(text), ops, i) == 0 && !ops[i].allow_no_match ==> r
            is Err,
        preview ==> prepared(label, text, encoding, ops, true) == (if valid_utf8(
            all_substituted(encode_utf8(text), ops),
        ) {
            match encoded_strict(
                decode_utf8(all_substituted(encode_utf8(text), ops)),
                encoding,
            ) {
                Ok(b) => Ok((decode_utf8(all_substituted(encode_utf8(text), ops)), b)),
                Err(m) => Err("replace: "@ + label + ": "@ + m),
            }
        } else {
            Err(
                "replace: generated invalid UTF-8: "@ + utf8_error(
                    all_substituted(encode_utf8(text), ops),
                ),
            )
        }),
{
    if match_count(encode_utf8(text), ops, i) == 0 && !ops[i].allow_no_match {
        lemma_refusal(label, ops, encode_utf8(text), 0, i);
    }
    if r is Ok {
        assert(r->Ok_0.counts@[i] == match_count(encode_utf8(text), ops, i));
    }
}

proof fn lemma_refusal(label: Seq<char>, ops: Seq<OpModel>, buf: Seq<u8>, from: int, i: int)
    requires
        0 <= from <= i < ops.len(),
        match_count(buf, ops, i) == 0,
        !ops[i].allow_no_match,
    ensures
        refusal(label, ops, buf, from) is Some,
    decreases i - from,
{
    if from < i {
        lemma_refusal(label, ops, buf, from + 1, i);
    }
}

/// Substitutions can be made where, and only where, there are any, and each has a pattern,
/// or a regular expression that may be empty, that compiles, and a replacement that is text.
pub proof fn law_substitutions_are_checked_first(label: Seq<char>, ops: Seq<OpModel>)
    ensures
        batch_failure(label, ops) is None <==> ops.len() > 0 && forall|k: int|
            0 <= k < ops.len() ==> {
                let op = #[trigger] ops[k];
                &&& op.regex || op.pattern.len() > 0
                &&& bytes_pattern_error(effective_pattern(op)) is None
                &&& valid_utf8(op.replacement)
            },
{
    lemma_first_failure(label, ops, 0);
}

proof fn lemma_first_failure(label: Seq<char>, ops: Seq<OpModel>, i: int)
    requires
        0 <= i,
    ensures
        first_failure(label, ops, i) is None <==> forall|k: int|
            i <= k < ops.len() ==> {
                let op = #[trigger] ops[k];
                &&& op.regex || op.pattern.len() > 0
                &&& bytes_pattern_error(effective_pattern(op)) is None
                &&& valid_utf8(op.replacement)
            },
    decreases ops.len() - i,
{
    if i < ops.len() {
        lemma_first_failure(label, ops, i + 1);
    }
}

proof fn lemma_lf_count(s: Seq<u8>)
    ensures
        lf_count(s) == s.to_multiset().count(0x0A),
    decreases s.len(),
{
    broadcast use vstd::seq_lib::group_to_multiset_ensures;

    if s.len() > 0 {
        lemma_lf_count(s.drop_last());
        assert(s =~= s.drop_last().push(s.last()));
        assert(s.to_multiset() =~= s.drop_last().to_multiset().insert(s.last()));
    }
}

/// What is reported of a match says where it stands: the line that it begins in is one more
/// than the LF before it, it ends as many lines further as it holds LF, not counting one at
/// its end, and the replacement has as many lines as LF, and one more where it does not end
/// in one.
pub proof fn law_regions_tell_the_lines(
    r: ChangedRegion,
    hay: Seq<u8>,
    spans: Seq<(int, int)>,
    with: Seq<Seq<u8>>,
    i: int,
    budget: Option<usize>,
)
    requires
        0 <= i < spans.len(),
        0 <= spans[i].0 <= spans[i].1 <= hay.len(),
        is_region(r, hay, spans, with, i, budget),
    ensures
        ({
            let m = hay.subrange(spans[i].0, spans[i].1);
            let n = with[i];
            &&& r.start_line == 1 + hay.take(spans[i].0).to_multiset().count(0x0A)
            &&& r.end_line == r.start_line + m.to_multiset().count(0x0A) - (if m.len() > 0
                && m.last() == 0x0A {
                1int
            } else {
                0
            })
            &&& r.new_line_count == n.to_multiset().count(0x0A) + (if n.len() > 0 && n.last()
                != 0x0A {
                1int
            } else {
                0
            })
            &&& budget is None ==> r.new_text@ == utf8_lossy(n)
            &&& budget matches Some(m) ==> r.new_text@ == (if lines_before(with, i + 1) <= m {
                utf8_lossy(n)
            } else {
                seq![]
            })
        }),
{
    broadcast use vstd::seq_lib::group_to_multiset_ensures;

    let m = hay.subrange(spans[i].0, spans[i].1);
    lemma_lf_count(hay.take(spans[i].0));
    lemma_lf_count(m);
    lemma_lf_count(with[i]);
    if with[i].len() == 0 {
        assert(with[i] =~= Seq::<u8>::empty());
    }
    if m.len() > 0 && m.last() == 0x0A {
        lemma_lf_count(m.drop_last());
        assert(m =~= m.drop_last().push(m.last()));
        assert(m.to_multiset() =~= m.drop_last().to_multiset().insert(m.last()));
    }
}

/// The replacements that are reported in full have no more lines than the budget allows, all
/// together, and once one is left out all later ones are.
pub proof fn law_the_budget_bounds_what_is_reported(
    with: Seq<Seq<u8>>,
    budget: usize,
    i: int,
    j: int,
)
    requires
        0 <= i <= j < with.len(),
    ensures
        lines_before(with, i + 1) <= lines_before(with, j + 1),
        lines_before(with, j + 1) <= budget ==> lines_before(with, i + 1) <= budget,
        lines_before(with, i + 1) == lines_before(with, i) + replacement_lines(with[i]),
        lines_before(with, 0) == 0,
    decreases j - i,
{
    if i < j {
        law_the_budget_bounds_what_is_reported(with, budget, i, j - 1);
    }
}

proof fn lemma_paired_sides(deleted: Seq<(int, Seq<char>)>, inserted: Seq<(int, Seq<char>)>)
    ensures
        ({
            let v = paired(deleted, inserted);
            &&& v.filter(|p: LinePair| p.old_side is Some).map_values(
                |p: LinePair| p.old_side->0,
            ) == deleted
            &&& v.filter(|p: LinePair| p.new_side is Some).map_values(
                |p: LinePair| p.new_side->0,
            ) == inserted
            &&& forall|i: int|
                0 <= i < v.len() ==> (#[trigger] v[i]).old_side is Some || v[i].new_side is Some
        }),
{
    let v = paired(deleted, inserted);
    lemma_paired_take(deleted, inserted, v.len() as int);
    assert(v.take(v.len() as int) =~= v);
}

proof fn lemma_paired_take(
    deleted: Seq<(int, Seq<char>)>,
    inserted: Seq<(int, Seq<char>)>,
    n: int,
)
    requires
        0 <= n <= paired(deleted, inserted).len(),
    ensures
        ({
            let v = paired(deleted, inserted).take(n);
            let (a, b) = (deleted.len() as int, inserted.len() as int);
            &&& v.filter(|p: LinePair| p.old_side is Some).map_values(
                |p: LinePair| p.old_side->0,
            ) == deleted.take(
                if n < a {
                    n
                } else {
                    a
                },
            )
            &&& v.filter(|p: LinePair| p.new_side is Some).map_values(
                |p: LinePair| p.new_side->0,
            ) == inserted.take(
                if n < b {
                    n
                } else {
                    b
                },
            )
        }),
    decreases n,
{
    reveal(Seq::filter);
    let all = paired(deleted, inserted);
    let v = all.take(n);
    let old_some = |p: LinePair| p.old_side is Some;
    let new_some = |p: LinePair| p.new_side is Some;
    let (a, b) = (deleted.len() as int, inserted.len() as int);
    let (x, y) = (
        if n < a {
            n
        } else {
            a
        },
        if n < b {
            n
        } else {
            b
        },
    );
    if n > 0 {
        lemma_paired_take(deleted, inserted, n - 1);
        assert(v.drop_last() =~= all.take(n - 1));
        assert(v.last() == all[n - 1]);
        let o = v.drop_last().filter(old_some).map_values(|p: LinePair| p.old_side->0);
        let w = v.drop_last().filter(new_some).map_values(|p: LinePair| p.new_side->0);
        assert(v.filter(old_some).map_values(|p: LinePair| p.old_side->0) =~= (if n <= a {
            o.push(deleted[n - 1])
        } else {
            o
        }));
        assert(v.filter(new_some).map_values(|p: LinePair| p.new_side->0) =~= (if n <= b {
            w.push(inserted[n - 1])
        } else {
            w
        }));
        assert(n <= a ==> deleted.take(n) =~= deleted.take(n - 1).push(deleted[n - 1]));
        assert(n <= b ==> inserted.take(n) =~= inserted.take(n - 1).push(inserted[n - 1]));
    } else {
        assert(v =~= seq![]);
        assert(deleted.take(0) =~= seq![]);
        assert(inserted.take(0) =~= seq![]);
        assert(v.filter(old_some).map_values(|p: LinePair| p.old_side->0) =~= seq![]);
        assert(v.filter(new_some).map_values(|p: LinePair| p.new_side->0) =~= seq![]);
    }
}

/// The changed lines are those that the diff deletes and those that it inserts: on the old
/// side every deleted line stands once, in order, with its number, and on the new side every
/// inserted one; no changed line has neither.
pub proof fn law_every_changed_line_is_listed(
    changes: Seq<ChangeModel>,
    deleted: Seq<(int, Seq<char>)>,
    inserted: Seq<(int, Seq<char>)>,
)
    ensures
        ({
            let v = line_pairs(changes, deleted, inserted);
            &&& v.filter(|p: LinePair| p.old_side is Some).map_values(
                |p: LinePair| p.old_side->0,
            ) == deleted + changes.filter(|c: ChangeModel| c.tag == LineTag::Delete).map_values(
                |c: ChangeModel| change_side(c.old_index, c.text),
            )
            &&& v.filter(|p: LinePair| p.new_side is Some).map_values(
                |p: LinePair| p.new_side->0,
            ) == inserted + changes.filter(|c: ChangeModel| c.tag == LineTag::Insert).map_values(
                |c: ChangeModel| change_side(c.new_index, c.text),
            )
            &&& forall|i: int|
                0 <= i < v.len() ==> (#[trigger] v[i]).old_side is Some || v[i].new_side is Some
        }),
    decreases changes.len(),
{
    let v = line_pairs(changes, deleted, inserted);
    let old_some = |p: LinePair| p.old_side is Some;
    let new_some = |p: LinePair| p.new_side is Some;
    let is_del = |c: ChangeModel| c.tag == LineTag::Delete;
    let is_ins = |c: ChangeModel| c.tag == LineTag::Insert;
    let old_of = |p: LinePair| p.old_side->0;
    let new_of = |p: LinePair| p.new_side->0;
    let del_of = |c: ChangeModel| change_side(c.old_index, c.text);
    let ins_of = |c: ChangeModel| change_side(c.new_index, c.text);
    lemma_paired_sides(deleted, inserted);
    if changes.len() == 0 {
        reveal(Seq::filter);
        assert(changes.filter(is_del).map_values(del_of) =~= seq![]);
        assert(changes.filter(is_ins).map_values(ins_of) =~= seq![]);
        assert(deleted + Seq::<(int, Seq<char>)>::empty() =~= deleted);
        assert(inserted + Seq::<(int, Seq<char>)>::empty() =~= inserted);
    } else {
        let c = changes[0];
        let rest = changes.drop_first();
        assert(changes =~= seq![c] + rest);
        Seq::filter_distributes_over_add(seq![c], rest, is_del);
        Seq::filter_distributes_over_add(seq![c], rest, is_ins);
        lemma_filter_one(c, is_del);
        lemma_filter_one(c, is_ins);
        let rest_del = rest.filter(is_del).map_values(del_of);
        let rest_ins = rest.filter(is_ins).map_values(ins_of);
        assert(changes.filter(is_del).map_values(del_of) =~= (if is_del(c) {
            seq![del_of(c)]
        } else {
            seq![]
        }) + rest_del);
        assert(changes.filter(is_ins).map_values(ins_of) =~= (if is_ins(c) {
            seq![ins_of(c)]
        } else {
            seq![]
        }) + rest_ins);
        match c.tag {
            LineTag::Equal => {
                law_every_changed_line_is_listed(rest, seq![], seq![]);
                let head = paired(deleted, inserted);
                let tail = line_pairs(rest, seq![], seq![]);
                Seq::filter_distributes_over_add(head, tail, old_some);
                Seq::filter_distributes_over_add(head, tail, new_some);
                assert(v.filter(old_some).map_values(old_of) =~= head.filter(old_some).map_values(
                    old_of,
                ) + tail.filter(old_some).map_values(old_of));
                assert(v.filter(new_some).map_values(new_of) =~= head.filter(new_some).map_values(
                    new_of,
                ) + tail.filter(new_some).map_values(new_of));
                assert(Seq::<(int, Seq<char>)>::empty() + rest_del =~= rest_del);
                assert(Seq::<(int, Seq<char>)>::empty() + rest_ins =~= rest_ins);
                assert forall|i: int| 0 <= i < v.len() implies (#[trigger] v[i]).old_side is Some
                    || v[i].new_side is Some by {
                    if i < head.len() {
                        assert(v[i] == head[i]);
                    } else {
                        assert(v[i] == tail[i - head.len()]);
                    }
                }
            },
            LineTag::Delete => {
                law_every_changed_line_is_listed(rest, deleted.push(del_of(c)), inserted);
                assert(deleted.push(del_of(c)) + rest_del =~= deleted + (seq![del_of(c)]
                    + rest_del));
                assert(inserted + (Seq::<(int, Seq<char>)>::empty() + rest_ins) =~= inserted
                    + rest_ins);
            },
            LineTag::Insert => {
                law_every_changed_line_is_listed(rest, deleted, inserted.push(ins_of(c)));
                assert(inserted.push(ins_of(c)) + rest_ins =~= inserted + (seq![ins_of(c)]
                    + rest_ins));
                assert(deleted + (Seq::<(int, Seq<char>)>::empty() + rest_del) =~= deleted
                    + rest_del);
            },
        }
    }
}

proof fn lemma_filter_one(c: ChangeModel, pred: spec_fn(ChangeModel) -> bool)
    ensures
        seq![c].filter(pred) == (if pred(c) {
            seq![c]
        } else {
            seq![]
        }),
{
    reveal_with_fuel(Seq::filter, 2);
    let one = seq![c];
    assert(one.drop_last() =~= seq![]);
    assert(one.filter(pred) =~= (if pred(c) {
        seq![c]
    } else {
        seq![]
    }));
}

/// Of more items than allowed the first ones are kept, as many as allowed, and only then are
/// there more.
pub proof fn law_a_cap_keeps_the_first(s: Seq<LinePair>, max: Option<usize>)
    ensures
        capped(s, max) == s.take(capped(s, max).len() as int),
        max is None ==> capped(s, max) == s && !exceeds(s, max),
        max matches Some(m) ==> capped(s, max).len() <= m && exceeds(s, max) == (capped(
            s,
            max,
        ).len() < s.len()) && (capped(s, max).len() < s.len() ==> capped(s, max).len() == m),
{
    assert(s.take(s.len() as int) =~= s);
}

/// A replacement is written in the line ending asked for, else in the one that policy gives,
/// else in the file's own; the file is left alone where nothing was found and no line ending
/// is asked for, and in a preview; it is written exactly where its content would change; and
/// behind the byte-order mark, normalised, it is the new text in the file's encoding.
pub proof fn law_a_replacement_is_written(
    plan: ReplacePlan,
    label: Seq<char>,
    file: Seq<u8>,
    decoded: DecodedText,
    prepared: Prepared,
    policy_ending: Option<LineEnding>,
    write_bom: bool,
    opts: ReplaceOptions,
    want_diff: bool,
)
    requires
        is_finished(
            plan,
            label,
            file,
            decoded,
            prepared,
            policy_ending,
            write_bom,
            opts,
            want_diff,
        ),
        is_lf_only(prepared.encoded@, decoded.encoding@),
    ensures
        ({
            let o = plan.outcome;
            let kind = decoded.encoding@;
            let found = exists|i: int|
                0 <= i < prepared.counts@.len() && prepared.counts@[i] > 0;
            let bom = if write_bom {
                kind.bom()
            } else {
                seq![]
            };
            let ending = match (opts.line_ending_override, policy_ending) {
                (Some(e), _) => e,
                (None, Some(e)) => e,
                (None, None) => decoded.line_ending,
            };
            &&& o.counts@ == prepared.counts@
            &&& o.before == decoded.layout
            &&& opts.count_only || opts.dry_run ==> plan.bytes is None && !o.wrote
            &&& !found && opts.line_ending_override is None ==> plan.bytes is None && !o.would_write
                && o.after == decoded.layout
            &&& (plan.bytes is Some) == o.wrote
            &&& o.wrote ==> o.would_write
            &&& found || opts.line_ending_override is Some ==> (o.would_write <==> file != bom
                + native_lf_to(prepared.encoded@, kind, ending))
            &&& !opts.count_only && !opts.dry_run ==> o.wrote == o.would_write
            &&& plan.bytes matches Some(b) ==> {
                &&& b@ != file
                &&& b@.len() >= bom.len()
                &&& b@.take(bom.len() as int) == bom
                &&& native_to_lf(b@.skip(bom.len() as int), kind) == prepared.encoded@
                &&& !(kind is Utf16Le) && !(kind is Utf16Be) ==> only_ending(
                    b@.skip(bom.len() as int),
                    ending,
                )
            }
            &&& plan.diff is Some ==> want_diff && !opts.count_only
        }),
{
    let kind = decoded.encoding@;
    let bom = if write_bom {
        kind.bom()
    } else {
        seq![]
    };
    let ending = target_ending(opts, policy_ending, decoded.line_ending);
    match plan.bytes {
        Some(b) => {
            law_normalize_undoes_denormalize(prepared.encoded@, kind, ending);
            assert(b@.take(bom.len() as int) =~= bom);
            assert(b@.skip(bom.len() as int) =~= native_lf_to(prepared.encoded@, kind, ending));
            if !(kind is Utf16Le) && !(kind is Utf16Be) {
                law_converted_bytes_have_one_ending(prepared.encoded@, ending);
            }
        },
        None => {},
    }
}

/// A substitution that changes nothing writes nothing: where the new text is the old one and
/// the file, in UTF-8, has one kind of line ending, the content is the one that is there.
pub proof fn law_an_identity_writes_nothing(file: Seq<u8>, ending: LineEnding)
    requires
        valid_utf8(file),
        only_ending(file.skip(bom_length(file) as int), ending),
    ensures
        ({
            let body = file.skip(bom_length(file) as int);
            let text = text_to_lf(decode_utf8(body));
            final_bytes(encode_utf8(text), EncodingKind::Utf8, ending, bom_length(file) > 0) == file
        }),
{
    lemma_utf8_behind_bom(file);
    let n = bom_length(file) as int;
    let body = file.skip(n);
    decode_utf8_encode_utf8(body);
    lemma_utf8_to_lf(decode_utf8(body));
    law_one_ending_comes_back(body, ending);
    assert(file =~= file.take(n) + body);
    if n > 0 {
        assert(file.take(3) =~= EncodingKind::Utf8.bom());
    } else {
        assert(file.take(0) =~= seq![]);
    }
}

/// Expanding escapes in a replacement: `\\n`, `\\r`, `\\t` and `\\\\` stand for LF, CR, tab and
/// a backslash; any other character behind a backslash, and every character elsewhere, stands
/// for itself.
pub proof fn law_escapes_are_expanded(c: char, rest: Seq<char>)
    ensures
        unescaped(seq!['\\', 'n'] + rest) == seq!['\n'] + unescaped(rest),
        unescaped(seq!['\\', 'r'] + rest) == seq!['\r'] + unescaped(rest),
        unescaped(seq!['\\', 't'] + rest) == seq!['\t'] + unescaped(rest),
        unescaped(seq!['\\', '\\'] + rest) == seq!['\\'] + unescaped(rest),
        c != 'n' && c != 'r' && c != 't' && c != '\\' ==> unescaped(seq!['\\', c] + rest) == seq![
            '\\',
            c,
        ] + unescaped(rest),
        c != '\\' ==> unescaped(seq![c] + rest) == seq![c] + unescaped(rest),
        unescaped(seq!['\\']) == seq!['\\'],
        unescaped(seq![]) == Seq::<char>::empty(),
{
    assert((seq!['\\', 'n'] + rest).skip(2) =~= rest);
    assert((seq!['\\', 'r'] + rest).skip(2) =~= rest);
    assert((seq!['\\', 't'] + rest).skip(2) =~= rest);
    assert((seq!['\\', '\\'] + rest).skip(2) =~= rest);
    assert((seq!['\\', c] + rest).skip(2) =~= rest);
    assert((seq![c] + rest).skip(1) =~= rest);
    assert(seq!['\\'].skip(1) =~= seq![]);
    assert(unescaped(seq!['\\'].skip(1)) =~= seq![]);
    assert(unescaped(seq!['\\']) =~= seq!['\\']);
}

/// A replacement given as text is taken as it is where it is literal, and with its escapes
/// decoded where it is not; either way with line endings normalised.
pub proof fn law_replacements_are_decoded(s: Seq<char>)
    ensures
        replacement_bytes(s, true) == Ok::<Seq<u8>, Seq<char>>(to_lf(encode_utf8(s))),
        lacks(encode_utf8(s), 0x0D) ==> replacement_bytes(s, true) == Ok::<Seq<u8>, Seq<char>>(
            encode_utf8(s),
        ),
        match unescape_bytes(encode_utf8(s), 0) {
            Ok(b) => replacement_bytes(s, false) == Ok::<Seq<u8>, Seq<char>>(to_lf(b)),
            Err(_) => replacement_bytes(s, false) is Err,
        },
{
    if lacks(encode_utf8(s), 0x0D) {
        law_to_lf_keeps_lf_only(encode_utf8(s));
    }
}

/// A substitution object says what its fields say: the pattern and the replacement are the
/// texts given, the replacement with line endings normalised and with escapes expanded only
/// where that is asked for; a flag is off where it is not given; and a field that is none is
/// refused.
pub proof fn law_an_object_says_what_its_fields_say(
    fields: Seq<(String, Json)>,
    pattern: String,
    replacement: String,
)
    requires
        field(fields, "pattern"@) matches Some(j) && j.value == JsonValue::Text(pattern),
        field(fields, "replacement"@) matches Some(j) && j.value == JsonValue::Text(replacement),
        field(fields, "pattern_format"@) is None,
        field(fields, "replacement_format"@) is None,
        forall|k: int| 0 <= k < fields.len() ==> is_op_key((#[trigger] fields[k]).0@),
    ensures
        op_of_fields(fields) matches Ok(op) ==> {
            let on = |key: Seq<char>|
                field(fields, key) matches Some(j) && j.value == JsonValue::Bool(true);
            &&& op.pattern == pattern@
            &&& op.replacement == encode_utf8(
                text_to_lf(
                    if on("expand_escapes"@) {
                        unescaped(replacement@)
                    } else {
                        replacement@
                    },
                ),
            )
            &&& op.regex == on("regex"@)
            &&& op.multiline == on("multiline"@)
            &&& op.allow_no_match == on("allow_no_match"@)
            &&& match op.label {
                Some(l) => field(fields, "label"@) matches Some(j) && j.value matches JsonValue::Text(
                    t,
                ) && t@ == l,
                None => field(fields, "label"@) is None || field(fields, "label"@)->0.value is Null,
            }
        },
        ({
            let good = |key: Seq<char>|
                match field(fields, key) {
                    None => true,
                    Some(j) => j.value is Null || j.value is Bool,
                };
            (pattern@.len() > 0 && good("expand_escapes"@) && good("regex"@) && good("multiline"@)
                && good("allow_no_match"@) && (field(fields, "label"@) matches Some(j) ==> j.value
                is Null || j.value is Text)) ==> op_of_fields(fields) is Ok
        }),
{
    lemma_unknown_key(fields, 0);
}

/// A field that a substitution object may not have is refused, whatever the others say.
pub proof fn law_unknown_fields_are_refused(fields: Seq<(String, Json)>, k: int)
    requires
        0 <= k < fields.len(),
        !is_op_key(fields[k].0@),
    ensures
        op_of_fields(fields) is Err,
{
    lemma_unknown_key(fields, 0);
    assert(!is_op_key(fields[k].0@));
}

proof fn lemma_unknown_key(fields: Seq<(String, Json)>, i: int)
    requires
        0 <= i,
    ensures
        unknown_key(fields, i) is None <==> forall|k: int|
            i <= k < fields.len() ==> is_op_key((#[trigger] fields[k]).0@),
    decreases fields.len() - i,
{
    if i < fields.len() {
        lemma_unknown_key(fields, i + 1);
    }
}

/// An array of substitutions stands for each of its entries, in order; it is refused where one
/// of them is, where it is empty, and where it is none.
pub proof fn law_every_entry_is_a_substitution(value: Json)
    ensures
        match ops_of(value) {
            Ok(ops) => value.value matches JsonValue::Array(entries) && entries@.len() > 0
                && ops.len() == entries@.len() && forall|i: int|
                0 <= i < ops.len() ==> op_of(entries@[i]) == Ok::<OpModel, Seq<char>>(
                    #[trigger] ops[i],
                ),
            Err(_) => value.value matches JsonValue::Array(entries) ==> entries@.len() == 0
                || exists|i: int| 0 <= i < entries@.len() && op_of(#[trigger] entries@[i]) is Err,
        },
{
    match value.value {
        JsonValue::Array(entries) => {
            lemma_op_error(entries@, 0);
            match ops_of(value) {
                Ok(ops) => {
                    assert forall|i: int| 0 <= i < ops.len() implies op_of(entries@[i]) == Ok::<
                        OpModel,
                        Seq<char>,
                    >(#[trigger] ops[i]) by {
                        assert(op_of(entries@[i]) is Ok);
                    }
                },
                Err(_) => {},
            }
        },
        _ => {},
    }
}

proof fn lemma_op_error(entries: Seq<Json>, i: int)
    requires
        0 <= i,
    ensures
        first_op_error(entries, i) is None <==> forall|k: int|
            i <= k < entries.len() ==> op_of(#[trigger] entries[k]) is Ok,
    decreases entries.len() - i,
{
    if i < entries.len() {
        lemma_op_error(entries, i + 1);
    }
}

/// A pattern or a replacement that is given in a data format is the text that was encoded in it.
pub proof fn law_payloads_are_decoded(format: DataFormat, text: Seq<char>, what: Seq<char>)
    ensures
        payload_text(format, encoded(format, encode_utf8(text)), what) == Ok::<
            Seq<char>,
            Seq<char>,
        >(text),
{
    law_round_trip(format, encode_utf8(text));
    encode_utf8_valid_utf8(text);
    encode_utf8_decode_utf8(text);
}

/// An object with formats says what they decode to: the pattern as it is, and the replacement
/// with line endings normalised.
pub proof fn law_formats_are_decoded(
    fields: Seq<(String, Json)>,
    format: DataFormat,
    pattern: Seq<char>,
    replacement: Seq<char>,
)
    requires
        op_of_fields(fields) is Ok,
        field(fields, "pattern_format"@) matches Some(j) && j.value matches JsonValue::Text(s)
            && DataFormat::named(s@) == Ok::<DataFormat, Seq<char>>(format),
        field(fields, "replacement_format"@) matches Some(j) && j.value matches JsonValue::Text(s)
            && DataFormat::named(s@) == Ok::<DataFormat, Seq<char>>(format),
        field(fields, "pattern"@) matches Some(j) && j.value matches JsonValue::Text(s) && s@
            == encoded(format, encode_utf8(pattern)),
        field(fields, "replacement"@) matches Some(j) && j.value matches JsonValue::Text(s) && s@
            == encoded(format, encode_utf8(replacement)),
    ensures
        op_of_fields(fields)->Ok_0.pattern == pattern,
        op_of_fields(fields)->Ok_0.replacement == encode_utf8(text_to_lf(replacement)),
{
    law_payloads_are_decoded(format, pattern, "pattern_format"@);
    law_payloads_are_decoded(format, replacement, "replacement_format"@);
}

/// What a replacement changes is told as it was asked for: the diff is that of the old text and
/// the new one, under the file's name on both sides; the changed lines are those of their diff,
/// cut off only where a limit says so; and the line endings told of are those of the file as it
/// was and as it is written.
pub proof fn law_a_replacement_is_told(
    plan: ReplacePlan,
    label: Seq<char>,
    file: Seq<u8>,
    decoded: DecodedText,
    prepared: Prepared,
    policy_ending: Option<LineEnding>,
    write_bom: bool,
    opts: ReplaceOptions,
    want_diff: bool,
)
    requires
        is_finished(
            plan,
            label,
            file,
            decoded,
            prepared,
            policy_ending,
            write_bom,
            opts,
            want_diff,
        ),
        exists|i: int| 0 <= i < prepared.counts@.len() && prepared.counts@[i] > 0,
    ensures
        ({
            let (old_text, new_text) = (decoded.text@, prepared.new_text@);
            let o = plan.outcome;
            let all = line_pairs(similar_changes(old_text, new_text), seq![], seq![]);
            let ending = match (opts.line_ending_override, policy_ending) {
                (Some(e), _) => e,
                (None, Some(e)) => e,
                (None, None) => decoded.line_ending,
            };
            &&& want_diff && !opts.count_only ==> (plan.diff matches Some(d) && d@ == similar_unified(
                old_text,
                new_text,
                "a/"@ + label,
                "b/"@ + label,
            ))
            &&& !want_diff || opts.count_only ==> plan.diff is None
            &&& opts.changed_lines && !opts.count_only ==> pair_views(o.changed_lines@) == all.take(
                o.changed_lines@.len() as int,
            ) && o.changed_lines@.len() <= all.len() && (o.changed_lines_truncated
                <==> o.changed_lines@.len() < all.len())
            &&& opts.changed_lines && !opts.count_only && opts.changed_lines_max is None
                ==> !o.changed_lines_truncated
            &&& !opts.changed_lines || opts.count_only ==> o.changed_lines@.len() == 0
            &&& forall|l: TextLayout| #[trigger]
                l.describes(new_text) ==> o.after == l.projection(ending)
        }),
{
    let all = line_pairs(
        similar_changes(decoded.text@, prepared.new_text@),
        seq![],
        seq![],
    );
    let o = plan.outcome;
    assert(all.take(all.len() as int) =~= all);
    assert(pair_views(o.changed_lines@).len() == o.changed_lines@.len());
    let ending = target_ending(opts, policy_ending, decoded.line_ending);
    assert forall|l: TextLayout| #[trigger] l.describes(prepared.new_text@) implies o.after
        == l.projection(ending) by {
        let m = choose|m: TextLayout|
            m.describes(prepared.new_text@) && o.after == #[trigger] m.projection(ending);
        assert(l == m);
    }
}

/// A changed line is told of by its number in its text, from one on, and without its line
/// ending.
pub proof fn law_changed_lines_have_their_number(i: nat, line: Seq<char>)
    requires
        line.len() > 0 ==> line.last() != '\n' && line.last() != '\r',
    ensures
        change_side(Some(i), line) == (i as int + 1, line),
        change_side(Some(i), line.push('\n')) == (i as int + 1, line),
        change_side(Some(i), line.push('\r').push('\n')) == (i as int + 1, line),
{
    let (a, b) = (line.push('\n'), line.push('\r'));
    assert(a.drop_last() =~= line);
    assert(b.drop_last() =~= line);
    assert(b.push('\n').drop_last() =~= b);
    assert(without_newlines(line) == line);
    assert(without_newlines(b) == line);
}

/// The expression that is compiled for a substitution is the one given, with line endings
/// normalised, and where it is multi-line with just that flag before it; what is put in for a
/// match is the replacement given.
pub proof fn law_the_given_expression_is_compiled(c: CompiledOp, op: OpModel)
    requires
        c.is_of(op),
    ensures
        op.regex && !op.multiline ==> c.expression() == text_to_lf(op.pattern),
        op.regex && op.multiline ==> c.expression() == "(?m)"@ + text_to_lf(op.pattern),
        op.regex && !op.multiline && lacks_cr(op.pattern) ==> c.expression() == op.pattern,
        valid_utf8(op.replacement) && lacks(op.replacement, 0x0D) ==> c.put_in() == op.replacement,
{
    law_patterns_are_taken_as_given(op, op);
    if valid_utf8(op.replacement) {
        law_replacements_are_taken_as_given(op);
    }
}

} // verus!
