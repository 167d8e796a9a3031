//! Diagnosing files: bytes that are invalid in the encoding of a file, text that was
//! misread before, lost characters and line endings that disagree with git.
//!
//! What looks like misread text is found elsewhere; here it is placed, reported and
//! counted.

use vstd::prelude::*;
use vstd::string::*;
use vstd::utf8::*;

use crate::cmd::copy::OnError;
use crate::cmd::write::{is_write_plan, target_of, WritePlan};
use crate::encoding::{
    decode_text_checked, insert_cr_before_lf, lf_to_cr, lf_to_crlf, normalize_bytes_to_lf,
    only_ending, replace_lf_by_cr, to_lf, unknown_encoding_message, whatwg_sniffing, BomPolicy,
    EncodingKind, LineEnding, OutputEncoding,
};
use crate::encoding_laws::{
    law_converted_bytes_have_one_ending, law_cr_undone, law_crlf_undone,
    law_normalize_undoes_denormalize, law_to_lf_keeps_lf_only, law_to_lf_lacks_cr, lemma_utf8_add,
};
use crate::lines::texts;
use crate::num::{
    dec, hex_fixed, law_hex_digits_stand_for_their_number, number, push_dec, push_hex, NumError,
};
use crate::source::{bom_length, lacks_nul, lemma_utf8_behind_bom, open_source, source_of};
use crate::text::{chars_of, from_utf8, has_prefix, opt_string, same, same_bytes, strip_prefix};

verus! {

// ── Options and records ─────────────────────────────────────────────────────

/// How a report is shown.
#[derive(Debug, Clone, Copy, PartialEq, Eq, Structural)]
pub enum DoctorFormat {
    /// Lines to read (default).
    Human,
    /// One JSON document.
    Json,
}

impl Default for DoctorFormat {
    fn default() -> (r: Self)
        ensures
            r == DoctorFormat::Human,
    {
        DoctorFormat::Human
    }
}

/// What to repair.
#[derive(Debug, Clone, Copy, PartialEq, Eq, Structural)]
pub enum DoctorFix {
    /// Nothing (default).
    Off,
    /// Misread text, where undoing one misreading makes it better.
    Peel,
}

impl Default for DoctorFix {
    fn default() -> (r: Self)
        ensures
            r == DoctorFix::Off,
    {
        DoctorFix::Off
    }
}

/// Options of a diagnosis.
#[derive(Debug, Clone, Copy, PartialEq, Eq, Structural)]
pub struct DoctorOptions {
    /// How the report is shown.
    pub format: DoctorFormat,
    /// What to repair.
    pub fix: DoctorFix,
    /// Leave out the lines on single files.
    pub quiet: bool,
    /// Suggest what lost characters may have been.
    pub guess: bool,
}

impl Default for DoctorOptions {
    fn default() -> (r: Self)
        ensures
            r.format == DoctorFormat::Human,
            r.fix == DoctorFix::Off,
            !r.quiet,
            !r.guess,
    {
        DoctorOptions {
            format: DoctorFormat::Human,
            fix: DoctorFix::Off,
            quiet: false,
            guess: false,
        }
    }
}

/// A kind of misread text.
#[derive(Debug, PartialEq, Eq)]
pub enum Pattern {
    /// UTF-8 that was read as Latin-1.
    Latin1,
    /// Any other, by its name.
    Named(String),
}

impl View for Pattern {
    type V = Seq<char>;

    open spec fn view(&self) -> Seq<char> {
        match self {
            Pattern::Latin1 => "latin1"@,
            Pattern::Named(s) => s@,
        }
    }
}

impl Pattern {
    /// The name of the kind.
    pub fn name(&self) -> (r: &str)
        ensures
            r@ == self@,
    {
        match self {
            Pattern::Latin1 => "latin1",
            Pattern::Named(s) => s.as_str(),
        }
    }
}

impl Clone for Pattern {
    fn clone(&self) -> (r: Self)
        ensures
            r@ == self@,
    {
        match self {
            Pattern::Latin1 => Pattern::Latin1,
            Pattern::Named(s) => Pattern::Named(s.clone()),
        }
    }
}

/// A place in a text that looks misread.
#[derive(Debug, Clone, PartialEq, Eq)]
pub struct RawMatch {
    /// Where it begins, in bytes of UTF-8.
    pub byte_offset: usize,
    /// What it looks like.
    pub pattern: Pattern,
}

/// A lost character in a text.
#[derive(Debug, Clone, PartialEq, Eq)]
pub struct RawReplacement {
    /// Where it stands, in bytes of UTF-8.
    pub byte_offset: usize,
    /// What stands around it.
    pub context: String,
    /// What it may have been.
    pub suggested: Option<char>,
}

/// A place in a file that looks misread.
#[derive(Debug, Clone, PartialEq, Eq)]
pub struct DoctorMatch {
    /// Where it begins, in bytes of UTF-8.
    pub byte_offset: usize,
    /// The line, from one on.
    pub line: usize,
    /// The column in characters, from one on.
    pub col: usize,
    /// What it looks like.
    pub pattern: Pattern,
}

/// A lost character in a file. It cannot be repaired.
#[derive(Debug, Clone, PartialEq, Eq)]
pub struct DoctorReplacementCharMatch {
    /// Where it stands, in bytes of UTF-8.
    pub byte_offset: usize,
    /// The line, from one on.
    pub line: usize,
    /// The column in characters, from one on.
    pub col: usize,
    /// What stands around it.
    pub context: String,
    /// What it may have been.
    pub suggested: Option<char>,
}

/// Line endings that are not those that git expects.
#[derive(Debug, Clone, Copy, PartialEq, Eq, Structural)]
pub struct EolMismatch {
    /// What git expects.
    pub expected: LineEnding,
    /// What the file has.
    pub actual: LineEnding,
}

/// What is wrong with a file.
#[derive(Debug, Clone, PartialEq, Eq)]
pub struct DoctorIssue {
    /// The file.
    pub path: String,
    /// The name of its encoding.
    pub encoding_detected: String,
    /// Its bytes are valid in that encoding.
    pub valid_in_detected_encoding: bool,
    /// What looks misread.
    pub mojibake_matches: Vec<DoctorMatch>,
    /// The lost characters.
    pub replacement_char_matches: Vec<DoctorReplacementCharMatch>,
    /// The text with one misreading undone, where that makes it better.
    pub peel_suggested: Option<String>,
    /// That text has been written.
    pub repaired: bool,
    /// The line endings disagree with git.
    pub eol_mismatch: Option<EolMismatch>,
    /// The line endings have been changed to what git expects.
    pub eol_repaired: bool,
}

impl DoctorIssue {
    /// There is something to report: invalid bytes, text that looks misread, lost
    /// characters or line endings that disagree with git.
    pub open spec fn problem(self) -> bool {
        ||| !self.valid_in_detected_encoding
        ||| self.mojibake_matches@.len() > 0
        ||| self.replacement_char_matches@.len() > 0
        ||| self.eol_mismatch is Some
    }

    /// Whether there is something to report.
    pub fn is_problem(&self) -> (r: bool)
        ensures
            r == self.problem(),
    {
        !self.valid_in_detected_encoding || self.mojibake_matches.len() > 0
            || self.replacement_char_matches.len() > 0 || self.eol_mismatch.is_some()
    }
}

/// The result of a diagnosis.
#[derive(Debug, Clone, PartialEq, Eq)]
pub struct DoctorReport {
    /// The files with something to report.
    pub issues: Vec<DoctorIssue>,
    /// The number of files looked at.
    pub total_files_scanned: usize,
    /// The number of files repaired.
    pub total_repaired: usize,
    /// Line endings were to be repaired.
    pub eol_fix_requested: bool,
}

impl Default for DoctorReport {
    fn default() -> (r: Self)
        ensures
            r.issues@.len() == 0,
            r.total_files_scanned == 0,
            r.total_repaired == 0,
            !r.eol_fix_requested,
    {
        DoctorReport {
            issues: Vec::new(),
            total_files_scanned: 0,
            total_repaired: 0,
            eol_fix_requested: false,
        }
    }
}

/// The number of files with something to report.
pub open spec fn problem_count(issues: Seq<DoctorIssue>) -> nat {
    issues.filter(|i: DoctorIssue| i.problem()).len()
}

impl DoctorReport {
    /// The number of files with something to report.
    pub fn total_issues(&self) -> (r: usize)
        ensures
            r == problem_count(self.issues@),
    {
        let ghost f = |i: DoctorIssue| i.problem();
        let mut n: usize = 0;
        let mut k: usize = 0;
        proof {
            reveal(Seq::filter);
            assert(self.issues@.take(0) =~= seq![]);
        }
        while k < self.issues.len()
            invariant
                k <= self.issues@.len(),
                f == (|i: DoctorIssue| i.problem()),
                n == self.issues@.take(k as int).filter(f).len(),
                n <= k,
            decreases self.issues@.len() - k,
        {
            proof {
                reveal(Seq::filter);
                let t = self.issues@.take(k + 1);
                assert(t.drop_last() =~= self.issues@.take(k as int));
                assert(t.last() == self.issues@[k as int]);
            }
            if self.issues[k].is_problem() {
                n = n + 1;
            }
            k = k + 1;
        }
        proof {
            assert(self.issues@.take(k as int) =~= self.issues@);
        }
        n
    }
}

// ── Decoding ────────────────────────────────────────────────────────────────

/// A file decoded for a diagnosis.
#[derive(Debug)]
pub struct DecodedBody {
    /// The name of the encoding.
    pub encoding: String,
    /// The text, with invalid bytes replaced.
    pub text: String,
    /// There were invalid bytes.
    pub malformed: bool,
}

/// The abstract value of a [`DecodedBody`].
pub struct BodyModel {
    /// The name of the encoding.
    pub encoding: Seq<char>,
    /// The text.
    pub text: Seq<char>,
    /// There were invalid bytes.
    pub malformed: bool,
}

impl View for DecodedBody {
    type V = BodyModel;

    open spec fn view(&self) -> BodyModel {
        BodyModel { encoding: self.encoding@, text: self.text@, malformed: self.malformed }
    }
}

/// The encoding of the given name is a variant of UTF-16.
pub open spec fn names_utf16(name: Seq<char>) -> bool {
    has_prefix(name, "UTF-16"@)
}

/// Whether the encoding of the given name is a variant of UTF-16.
pub fn is_utf16(encoding_name: &str) -> (r: bool)
    ensures
        r == names_utf16(encoding_name@),
{
    strip_prefix(encoding_name, "UTF-16").is_some()
}

/// A file's content is taken for UTF-8 whatever was detected: it is valid UTF-8 without
/// NUL, and UTF-16 was not detected.
pub open spec fn prefers_utf8(name: Seq<char>, body: Seq<u8>) -> bool {
    name != "UTF-8"@ && !names_utf16(name) && lacks_nul(body) && valid_utf8(body)
}

/// What a file is decoded to for a diagnosis, or the message of the error.
pub open spec fn body_of(bytes: Seq<u8>) -> Result<BodyModel, Seq<char>> {
    match source_of(bytes) {
        Err(m) => Err(m),
        Ok(info) => {
            let body = bytes.skip(info.bom_len as int);
            let name = info.encoding.name();
            if prefers_utf8(name, body) {
                Ok(BodyModel { encoding: "UTF-8"@, text: decode_utf8(body), malformed: false })
            } else {
                match whatwg_sniffing(name, body) {
                    Some((text, malformed)) => Ok(BodyModel { encoding: name, text, malformed }),
                    None => Err(unknown_encoding_message(name)),
                }
            }
        },
    }
}

fn has_nul(bytes: &[u8]) -> (r: bool)
    ensures
        r == !lacks_nul(bytes@),
{
    let mut i: usize = 0;
    while i < bytes.len()
        invariant
            i <= bytes@.len(),
            forall|k: int| 0 <= k < i ==> #[trigger] bytes@[k] != 0,
        decreases bytes@.len() - i,
    {
        if bytes[i] == 0 {
            return true;
        }
        i = i + 1;
    }
    false
}

/// Decode a file for a diagnosis. Valid UTF-8 without NUL is never taken for anything
/// else, unless UTF-16 was detected.
pub fn decode_body(bytes: &[u8]) -> (r: Result<DecodedBody, String>)
    ensures
        match r {
            Ok(b) => body_of(bytes@) == Ok::<BodyModel, Seq<char>>(b@),
            Err(m) => body_of(bytes@) == Err::<BodyModel, Seq<char>>(m@),
        },
        ({
            let body = bytes@.skip(bom_length(bytes@) as int);
            r matches Ok(b) ==> (valid_utf8(body) && lacks_nul(body) && !names_utf16(b.encoding@)
                ==> b.encoding@ == "UTF-8"@ && !b.malformed && (bom_length(body) == 0 ==> b.text@
                == decode_utf8(body)))
        }),
        valid_utf8(bytes@) && lacks_nul(bytes@) ==> r is Ok && r->Ok_0.encoding@ == "UTF-8"@
            && !r->Ok_0.malformed,
{
    let info = match open_source(bytes) {
        Ok(info) => info,
        Err(m) => {
            return Err(m);
        },
    };
    let body = vstd::slice::slice_subrange(bytes, info.bom_len, bytes.len());
    proof {
        assert(body@ =~= bytes@.skip(info.bom_len as int));
        if valid_utf8(bytes@) && lacks_nul(bytes@) {
            lemma_utf8_behind_bom(bytes@);
            lemma_utf8_behind_bom(body@);
            assert forall|i: int| 0 <= i < body@.len() implies #[trigger] body@[i] != 0 by {
                assert(body@[i] == bytes@[i + info.bom_len]);
            }
            reveal_strlit("UTF-8");
            reveal_strlit("UTF-16");
        }
    }
    if !same(info.encoding.name(), "UTF-8") && !is_utf16(info.encoding.name()) && !has_nul(body) {
        match from_utf8(body) {
            Ok(text) => {
                return Ok(DecodedBody { encoding: "UTF-8".to_owned(), text, malformed: false });
            },
            Err(_) => {},
        }
    }
    match decode_text_checked(body, &info.encoding) {
        Ok((text, malformed)) => {
            proof {
                if valid_utf8(body@) && lacks_nul(body@) && !names_utf16(info.encoding@.name()) {
                    assert(info.encoding@.name() == "UTF-8"@);
                    assert(info.encoding@ is Utf8);
                    lemma_utf8_behind_bom(body@);
                }
            }
            Ok(DecodedBody { encoding: info.encoding.name().to_owned(), text, malformed })
        },
        Err(m) => Err(m),
    }
}

// ── Places in a text ────────────────────────────────────────────────────────

/// The line that follows a text, from one on.
pub open spec fn line_behind(s: Seq<char>) -> nat
    decreases s.len(),
{
    if s.len() == 0 {
        1
    } else if s.last() == '\n' {
        line_behind(s.drop_last()) + 1
    } else {
        line_behind(s.drop_last())
    }
}

/// The column that follows a text, from one on.
pub open spec fn col_behind(s: Seq<char>) -> nat
    decreases s.len(),
{
    if s.len() == 0 || s.last() == '\n' {
        1
    } else {
        col_behind(s.drop_last()) + 1
    }
}

/// The byte offset of a character in a text.
pub open spec fn offset_of(text: Seq<char>, k: int) -> nat {
    encode_utf8(text.take(k)).len()
}

/// A byte offset is that of a character or of the end of the text.
pub open spec fn is_offset(text: Seq<char>, offset: nat) -> bool {
    exists|k: int| 0 <= k <= text.len() && #[trigger] offset_of(text, k) == offset
}

/// The line and column of a byte offset.
pub open spec fn is_place(text: Seq<char>, offset: nat, line: nat, col: nat) -> bool {
    exists|k: int|
        {
            &&& 0 <= k <= text.len()
            &&& #[trigger] offset_of(text, k) == offset
            &&& line == line_behind(text.take(k))
            &&& col == col_behind(text.take(k))
        }
}

/// An offset can be placed: it and all smaller ones among `offsets` are those of characters.
pub open spec fn is_placed(text: Seq<char>, offsets: Seq<nat>, i: int) -> bool {
    forall|j: int|
        0 <= j < offsets.len() && #[trigger] offsets[j] <= offsets[i] ==> is_offset(
            text,
            offsets[j],
        )
}

/// Where the characters of a text stand.
struct Places {
    offsets: Vec<usize>,
    lines: Vec<usize>,
    cols: Vec<usize>,
}

impl Places {
    spec fn of(self, text: Seq<char>) -> bool {
        &&& self.offsets@.len() == text.len() + 1
        &&& self.lines@.len() == text.len() + 1
        &&& self.cols@.len() == text.len() + 1
        &&& forall|k: int|
            0 <= k <= text.len() ==> {
                &&& #[trigger] self.offsets@[k] == offset_of(text, k)
                &&& self.lines@[k] == line_behind(text.take(k))
                &&& self.cols@[k] == col_behind(text.take(k))
            }
    }
}

proof fn lemma_offset_step(text: Seq<char>, k: int)
    requires
        0 <= k < text.len(),
    ensures
        offset_of(text, k + 1) == offset_of(text, k) + encode_scalar(text[k] as u32).len(),
        offset_of(text, k + 1) > offset_of(text, k),
        offset_of(text, k + 1) <= encode_utf8(text).len(),
        text.take(k + 1).drop_last() == text.take(k),
        text.take(k + 1).last() == text[k],
{
    let a = text.take(k);
    let one = seq![text[k]];
    assert(text.take(k + 1) =~= a + one);
    lemma_utf8_add(a, one);
    assert(one.drop_first() =~= seq![]);
    assert(encode_utf8(one.drop_first()).len() == 0);
    assert(encode_utf8(one) == encode_scalar(one[0] as u32) + encode_utf8(one.drop_first()));
    char_is_scalar(text[k]);
    assert(encode_scalar(text[k] as u32).len() > 0);
    assert(text =~= text.take(k + 1) + text.skip(k + 1));
    lemma_utf8_add(text.take(k + 1), text.skip(k + 1));
    assert(text.take(k + 1).drop_last() =~= a);
}

proof fn lemma_offsets_increase(text: Seq<char>, i: int, j: int)
    requires
        0 <= i < j <= text.len(),
    ensures
        offset_of(text, i) < offset_of(text, j),
    decreases j - i,
{
    lemma_offset_step(text, j - 1);
    if i < j - 1 {
        lemma_offsets_increase(text, i, j - 1);
    }
}

/// The number of bytes of a character in UTF-8.
fn utf8_width(c: char) -> (r: usize)
    ensures
        r == encode_scalar(c as u32).len(),
{
    let u: u32 = c as u32;
    proof {
        char_is_scalar(c);
    }
    if u <= 0x7F {
        1
    } else if u <= 0x7FF {
        2
    } else if u <= 0xFFFF {
        3
    } else {
        4
    }
}

fn places_of(text: &str) -> (r: Places)
    ensures
        r.of(text@),
{
    let total: usize = text.as_bytes().len();
    let v = chars_of(text);
    let mut offsets: Vec<usize> = Vec::new();
    let mut lines: Vec<usize> = Vec::new();
    let mut cols: Vec<usize> = Vec::new();
    let mut offset: usize = 0;
    let mut line: usize = 1;
    let mut col: usize = 1;
    offsets.push(offset);
    lines.push(line);
    cols.push(col);
    let mut i: usize = 0;
    proof {
        assert(text@.take(0) =~= seq![]);
    }
    while i < v.len()
        invariant
            i <= v@.len(),
            v@ == text@,
            total == encode_utf8(text@).len(),
            offsets@.len() == i + 1,
            lines@.len() == i + 1,
            cols@.len() == i + 1,
            i <= offset,
            line <= i + 1,
            col <= i + 1,
            offset == offset_of(text@, i as int),
            offset <= total,
            line == line_behind(text@.take(i as int)),
            col == col_behind(text@.take(i as int)),
            forall|k: int|
                0 <= k <= i ==> {
                    &&& #[trigger] offsets@[k] == offset_of(text@, k)
                    &&& lines@[k] == line_behind(text@.take(k))
                    &&& cols@[k] == col_behind(text@.take(k))
                },
        decreases v@.len() - i,
    {
        proof {
            lemma_offset_step(text@, i as int);
        }
        offset = offset + utf8_width(v[i]);
        offsets.push(offset);
        let next: usize = offsets.len();
        assert(next == i + 2);
        if v[i] == '\n' {
            line = line + 1;
            col = 1;
        } else {
            col = col + 1;
        }
        lines.push(line);
        cols.push(col);
        i = i + 1;
    }
    let p = Places { offsets, lines, cols };
    proof {
        assert forall|k: int| 0 <= k <= text@.len() implies {
            &&& #[trigger] p.offsets@[k] == offset_of(text@, k)
            &&& p.lines@[k] == line_behind(text@.take(k))
            &&& p.cols@[k] == col_behind(text@.take(k))
        } by {
            assert(offsets@[k] == offset_of(text@, k));
        }
        assert(p.of(text@));
    }
    p
}

/// The character at a byte offset, by its index.
fn find_place(p: &Places, offset: usize, text: &str) -> (r: Option<usize>)
    requires
        p.of(text@),
    ensures
        match r {
            Some(k) => k <= text@.len() && k < p.lines@.len() && offset_of(text@, k as int)
                == offset,
            None => !is_offset(text@, offset as nat),
        },
{
    let mut a: usize = 0;
    let mut b: usize = p.offsets.len();
    while a < b
        invariant
            p.of(text@),
            a <= b <= p.offsets@.len(),
            forall|k: int| 0 <= k < a ==> #[trigger] p.offsets@[k] < offset,
            forall|k: int| b <= k < p.offsets@.len() ==> #[trigger] p.offsets@[k] > offset,
        decreases b - a,
    {
        let m: usize = a + (b - a) / 2;
        let at: usize = p.offsets[m];
        if at == offset {
            return Some(m);
        }
        if at < offset {
            proof {
                assert forall|k: int| 0 <= k < m + 1 implies #[trigger] p.offsets@[k] < offset by {
                    if k < m {
                        lemma_offsets_increase(text@, k, m as int);
                        assert(p.offsets@[k] < p.offsets@[m as int]);
                    }
                }
            }
            a = m + 1;
        } else {
            proof {
                assert forall|k: int| m <= k < p.offsets@.len() implies #[trigger] p.offsets@[k]
                    > offset by {
                    if m < k {
                        lemma_offsets_increase(text@, m as int, k);
                        assert(p.offsets@[k] > p.offsets@[m as int]);
                    }
                }
            }
            b = m;
        }
    }
    proof {
        if is_offset(text@, offset as nat) {
            let k = choose|k: int| 0 <= k <= text@.len() && #[trigger] offset_of(text@, k) == offset;
            assert(p.offsets@[k] == offset_of(text@, k));
        }
    }
    None
}

/// The smallest of the offsets that is none of a character; `None` where there is none.
fn first_unplaced(p: &Places, offsets: &Vec<usize>, text: &str) -> (r: Option<usize>)
    requires
        p.of(text@),
    ensures
        match r {
            Some(o) => {
                &&& exists|j: int|
                    0 <= j < offsets@.len() && #[trigger] offsets@[j] == o
                &&& !is_offset(text@, o as nat)
                &&& forall|j: int|
                    0 <= j < offsets@.len() && #[trigger] offsets@[j] < o ==> is_offset(
                        text@,
                        offsets@[j] as nat,
                    )
            },
            None => forall|j: int|
                0 <= j < offsets@.len() ==> is_offset(text@, (#[trigger] offsets@[j]) as nat),
        },
{
    let mut found: Option<usize> = None;
    let mut i: usize = 0;
    while i < offsets.len()
        invariant
            p.of(text@),
            i <= offsets@.len(),
            match found {
                Some(o) => {
                    &&& exists|j: int|
                        0 <= j < offsets@.len() && #[trigger] offsets@[j] == o
                    &&& !is_offset(text@, o as nat)
                    &&& forall|j: int|
                        0 <= j < i && #[trigger] offsets@[j] < o ==> is_offset(
                            text@,
                            offsets@[j] as nat,
                        )
                },
                None => forall|j: int|
                    0 <= j < i ==> is_offset(text@, (#[trigger] offsets@[j]) as nat),
            },
        decreases offsets@.len() - i,
    {
        let o: usize = offsets[i];
        if find_place(p, o, text).is_none() {
            found =
            match found {
                Some(f) => if o < f {
                    Some(o)
                } else {
                    Some(f)
                },
                None => Some(o),
            };
        } else {
            proof {
                assert(is_offset(text@, o as nat));
            }
        }
        i = i + 1;
    }
    found
}

/// The line and column of each offset; `None` for one that cannot be placed.
fn place_all(text: &str, offsets: &Vec<usize>) -> (r: Vec<Option<(usize, usize)>>)
    ensures
        r@.len() == offsets@.len(),
        forall|i: int|
            0 <= i < r@.len() ==> match #[trigger] r@[i] {
                Some((line, col)) => is_placed(text@, offset_views(offsets@), i) && is_place(
                    text@,
                    offsets@[i] as nat,
                    line as nat,
                    col as nat,
                ),
                None => !is_placed(text@, offset_views(offsets@), i),
            },
{
    let p = places_of(text);
    let bad = first_unplaced(&p, offsets, text);
    let ghost views = offset_views(offsets@);
    let mut out: Vec<Option<(usize, usize)>> = Vec::new();
    let mut i: usize = 0;
    while i < offsets.len()
        invariant
            p.of(text@),
            i <= offsets@.len(),
            out@.len() == i,
            views == offset_views(offsets@),
            match bad {
                Some(o) => {
                    &&& exists|j: int|
                        0 <= j < offsets@.len() && #[trigger] offsets@[j] == o
                    &&& !is_offset(text@, o as nat)
                    &&& forall|j: int|
                        0 <= j < offsets@.len() && #[trigger] offsets@[j] < o ==> is_offset(
                            text@,
                            offsets@[j] as nat,
                        )
                },
                None => forall|j: int|
                    0 <= j < offsets@.len() ==> is_offset(text@, (#[trigger] offsets@[j]) as nat),
            },
            forall|k: int|
                0 <= k < i ==> match #[trigger] out@[k] {
                    Some((line, col)) => is_placed(text@, views, k) && is_place(
                        text@,
                        offsets@[k] as nat,
                        line as nat,
                        col as nat,
                    ),
                    None => !is_placed(text@, views, k),
                },
        decreases offsets@.len() - i,
    {
        let o: usize = offsets[i];
        let early = match bad {
            Some(b) => o < b,
            None => true,
        };
        proof {
            if early {
                assert forall|j: int|
                    0 <= j < views.len() && #[trigger] views[j] <= views[i as int] implies is_offset(
                    text@,
                    views[j],
                ) by {
                    assert(views[j] == offsets@[j]);
                }
                assert(is_placed(text@, views, i as int));
                assert(views[i as int] == offsets@[i as int]);
                assert(is_offset(text@, o as nat));
            } else {
                let b = bad->0;
                let j = choose|j: int| 0 <= j < offsets@.len() && #[trigger] offsets@[j] == b;
                assert(views[j] == b);
                assert(!is_placed(text@, views, i as int));
            }
        }
        if early {
            match find_place(&p, o, text) {
                Some(k) => {
                    proof {
                        assert(p.offsets@[k as int] == offset_of(text@, k as int));
                        assert(is_place(
                            text@,
                            o as nat,
                            p.lines@[k as int] as nat,
                            p.cols@[k as int] as nat,
                        ));
                    }
                    out.push(Some((p.lines[k], p.cols[k])));
                },
                None => {
                    out.push(None);
                },
            }
        } else {
            out.push(None);
        }
        i = i + 1;
    }
    out
}

/// Offsets as numbers.
pub open spec fn offset_views(v: Seq<usize>) -> Seq<nat> {
    v.map_values(|o: usize| o as nat)
}

/// The offsets of what looks misread.
pub open spec fn match_offsets(raw: Seq<RawMatch>) -> Seq<nat> {
    raw.map_values(|m: RawMatch| m.byte_offset as nat)
}

/// The offsets of lost characters.
pub open spec fn replacement_offsets(raw: Seq<RawReplacement>) -> Seq<nat> {
    raw.map_values(|m: RawReplacement| m.byte_offset as nat)
}

/// What looks misread, with its line and column. What cannot be placed counts as
/// unknown.
pub open spec fn is_match_at(text: Seq<char>, raw: Seq<RawMatch>, i: int, m: DoctorMatch) -> bool {
    if is_placed(text, match_offsets(raw), i) {
        &&& m.byte_offset == raw[i].byte_offset
        &&& is_place(text, m.byte_offset as nat, m.line as nat, m.col as nat)
        &&& m.pattern@ == raw[i].pattern@
    } else {
        m.byte_offset == 0 && m.line == 0 && m.col == 0 && m.pattern@ == "latin1"@
    }
}

/// All that looks misread, with lines and columns.
pub open spec fn are_matches(text: Seq<char>, raw: Seq<RawMatch>, v: Seq<DoctorMatch>) -> bool {
    &&& v.len() == raw.len()
    &&& forall|i: int| 0 <= i < v.len() ==> is_match_at(text, raw, i, #[trigger] v[i])
}

/// Give what looks misread its line and column.
pub fn annotate_matches(text: &str, raw: &Vec<RawMatch>) -> (r: Vec<DoctorMatch>)
    ensures
        are_matches(text@, raw@, r@),
{
    let mut offsets: Vec<usize> = Vec::new();
    let mut i: usize = 0;
    while i < raw.len()
        invariant
            i <= raw@.len(),
            offsets@.len() == i,
            forall|k: int| 0 <= k < i ==> #[trigger] offsets@[k] == raw@[k].byte_offset,
        decreases raw@.len() - i,
    {
        offsets.push(raw[i].byte_offset);
        i = i + 1;
    }
    proof {
        assert(offset_views(offsets@) =~= match_offsets(raw@));
    }
    let places = place_all(text, &offsets);
    let mut out: Vec<DoctorMatch> = Vec::new();
    let mut j: usize = 0;
    while j < raw.len()
        invariant
            j <= raw@.len(),
            out@.len() == j,
            offsets@.len() == raw@.len(),
            places@.len() == raw@.len(),
            offset_views(offsets@) == match_offsets(raw@),
            forall|k: int| 0 <= k < raw@.len() ==> #[trigger] offsets@[k] == raw@[k].byte_offset,
            forall|k: int|
                0 <= k < places@.len() ==> match #[trigger] places@[k] {
                    Some((line, col)) => is_placed(text@, offset_views(offsets@), k) && is_place(
                        text@,
                        offsets@[k] as nat,
                        line as nat,
                        col as nat,
                    ),
                    None => !is_placed(text@, offset_views(offsets@), k),
                },
            forall|k: int| 0 <= k < j ==> is_match_at(text@, raw@, k, #[trigger] out@[k]),
        decreases raw@.len() - j,
    {
        let m = match places[j] {
            Some((line, col)) => DoctorMatch {
                byte_offset: raw[j].byte_offset,
                line,
                col,
                pattern: raw[j].pattern.clone(),
            },
            None => DoctorMatch { byte_offset: 0, line: 0, col: 0, pattern: Pattern::Latin1 },
        };
        proof {
            assert(offsets@[j as int] == raw@[j as int].byte_offset);
            assert(is_match_at(text@, raw@, j as int, m));
        }
        out.push(m);
        j = j + 1;
    }
    out
}

/// A lost character with its line and column; these are zero where it cannot be
/// placed.
pub open spec fn is_replacement_at(
    text: Seq<char>,
    raw: Seq<RawReplacement>,
    i: int,
    m: DoctorReplacementCharMatch,
) -> bool {
    &&& m.byte_offset == raw[i].byte_offset
    &&& m.context@ == raw[i].context@
    &&& m.suggested == raw[i].suggested
    &&& if is_placed(text, replacement_offsets(raw), i) {
        is_place(text, m.byte_offset as nat, m.line as nat, m.col as nat)
    } else {
        m.line == 0 && m.col == 0
    }
}

/// All lost characters, with lines and columns.
pub open spec fn are_replacements(
    text: Seq<char>,
    raw: Seq<RawReplacement>,
    v: Seq<DoctorReplacementCharMatch>,
) -> bool {
    &&& v.len() == raw.len()
    &&& forall|i: int| 0 <= i < v.len() ==> is_replacement_at(text, raw, i, #[trigger] v[i])
}

/// Give lost characters their line and column.
pub fn annotate_replacement_char_matches(text: &str, raw: &Vec<RawReplacement>) -> (r: Vec<
    DoctorReplacementCharMatch,
>)
    ensures
        are_replacements(text@, raw@, r@),
{
    let mut offsets: Vec<usize> = Vec::new();
    let mut i: usize = 0;
    while i < raw.len()
        invariant
            i <= raw@.len(),
            offsets@.len() == i,
            forall|k: int| 0 <= k < i ==> #[trigger] offsets@[k] == raw@[k].byte_offset,
        decreases raw@.len() - i,
    {
        offsets.push(raw[i].byte_offset);
        i = i + 1;
    }
    proof {
        assert(offset_views(offsets@) =~= replacement_offsets(raw@));
    }
    let places = place_all(text, &offsets);
    let mut out: Vec<DoctorReplacementCharMatch> = Vec::new();
    let mut j: usize = 0;
    while j < raw.len()
        invariant
            j <= raw@.len(),
            out@.len() == j,
            offsets@.len() == raw@.len(),
            places@.len() == raw@.len(),
            offset_views(offsets@) == replacement_offsets(raw@),
            forall|k: int| 0 <= k < raw@.len() ==> #[trigger] offsets@[k] == raw@[k].byte_offset,
            forall|k: int|
                0 <= k < places@.len() ==> match #[trigger] places@[k] {
                    Some((line, col)) => is_placed(text@, offset_views(offsets@), k) && is_place(
                        text@,
                        offsets@[k] as nat,
                        line as nat,
                        col as nat,
                    ),
                    None => !is_placed(text@, offset_views(offsets@), k),
                },
            forall|k: int| 0 <= k < j ==> is_replacement_at(text@, raw@, k, #[trigger] out@[k]),
        decreases raw@.len() - j,
    {
        let (line, col) = match places[j] {
            Some(place) => place,
            None => (0usize, 0usize),
        };
        let m = DoctorReplacementCharMatch {
            byte_offset: raw[j].byte_offset,
            line,
            col,
            context: raw[j].context.clone(),
            suggested: raw[j].suggested,
        };
        proof {
            assert(offsets@[j as int] == raw@[j as int].byte_offset);
            assert(is_replacement_at(text@, raw@, j as int, m));
        }
        out.push(m);
        j = j + 1;
    }
    out
}

// ── Diagnosis ───────────────────────────────────────────────────────────────

/// What was found in the text of a file.
#[derive(Debug)]
pub struct Findings {
    /// The text asks not to be looked at.
    pub allowed: bool,
    /// What looks misread.
    pub matches: Vec<RawMatch>,
    /// The text asks that lost characters be passed over.
    pub replacements_allowed: bool,
    /// The lost characters.
    pub replacements: Vec<RawReplacement>,
    /// The text with one misreading undone, where that makes it better.
    pub peeled: Option<String>,
}

/// The disagreement of line endings that is reported: UTF-16 is passed over, as its
/// line endings cannot be told by single bytes.
pub open spec fn reported_eol(name: Seq<char>, eol: Option<EolMismatch>) -> Option<EolMismatch> {
    if names_utf16(name) {
        None
    } else {
        eol
    }
}

/// The lost characters that are reported.
pub open spec fn reported_replacements(f: Findings) -> Seq<RawReplacement> {
    if f.replacements_allowed {
        seq![]
    } else {
        f.replacements@
    }
}

/// What an issue says of a file before any repair.
pub open spec fn is_diagnosis(
    issue: DoctorIssue,
    path: Seq<char>,
    body: BodyModel,
    matches: Seq<RawMatch>,
    replacements: Seq<RawReplacement>,
    peeled: Option<Seq<char>>,
    eol: Option<EolMismatch>,
) -> bool {
    &&& issue.path@ == path
    &&& issue.encoding_detected@ == body.encoding
    &&& issue.valid_in_detected_encoding == !body.malformed
    &&& are_matches(body.text, matches, issue.mojibake_matches@)
    &&& are_replacements(body.text, replacements, issue.replacement_char_matches@)
    &&& match issue.peel_suggested {
        Some(t) => peeled == Some(t@),
        None => peeled is None,
    }
    &&& !issue.repaired
    &&& issue.eol_mismatch == reported_eol(body.encoding, eol)
    &&& !issue.eol_repaired
}

/// A file is free of anything to report.
pub open spec fn is_clean(body: BodyModel, f: Findings, eol: Option<EolMismatch>) -> bool {
    &&& !body.malformed
    &&& f.allowed || (f.matches@.len() == 0 && reported_replacements(f).len() == 0)
    &&& reported_eol(body.encoding, eol) is None
}

/// The issue of a file with something to report. Where its bytes are invalid, or it
/// asks not to be looked at, nothing is reported of its text.
pub open spec fn is_issue(
    issue: DoctorIssue,
    path: Seq<char>,
    body: BodyModel,
    f: Findings,
    eol: Option<EolMismatch>,
) -> bool {
    if body.malformed || f.allowed {
        is_diagnosis(issue, path, body, seq![], seq![], None, eol)
    } else {
        is_diagnosis(
            issue,
            path,
            body,
            f.matches@,
            reported_replacements(f),
            if f.matches@.len() == 0 {
                None
            } else {
                opt_string(f.peeled)
            },
            eol,
        )
    }
}

/// An issue that tells of nothing but the bytes and line endings of a file.
fn bare_issue(path: &str, body: &DecodedBody, eol: Option<EolMismatch>) -> (r: DoctorIssue)
    ensures
        is_diagnosis(r, path@, body@, seq![], seq![], None, eol),
{
    let eol_mismatch = if is_utf16(body.encoding.as_str()) {
        None
    } else {
        eol
    };
    DoctorIssue {
        path: path.to_owned(),
        encoding_detected: body.encoding.clone(),
        valid_in_detected_encoding: !body.malformed,
        mojibake_matches: Vec::new(),
        replacement_char_matches: Vec::new(),
        peel_suggested: None,
        repaired: false,
        eol_mismatch,
        eol_repaired: false,
    }
}

/// The issue of a file of which only the line endings are to be reported; `None` where
/// they are as expected.
pub fn eol_only_issue(path: &str, body: &DecodedBody, eol: Option<EolMismatch>) -> (r: Option<
    DoctorIssue,
>)
    ensures
        match r {
            Some(issue) => reported_eol(body.encoding@, eol) is Some && is_diagnosis(
                issue,
                path@,
                body@,
                seq![],
                seq![],
                None,
                eol,
            ),
            None => reported_eol(body.encoding@, eol) is None,
        },
{
    let issue = bare_issue(path, body, eol);
    if issue.eol_mismatch.is_some() {
        Some(issue)
    } else {
        None
    }
}

/// Diagnose a file from its decoded content, what was found in the text, and what git
/// has against its line endings. `None` where there is nothing to report.
pub fn diagnose_file(path: &str, body: &DecodedBody, f: &Findings, eol: Option<EolMismatch>) -> (r:
    Option<DoctorIssue>)
    ensures
        match r {
            Some(issue) => !is_clean(body@, *f, eol) && is_issue(issue, path@, body@, *f, eol)
                && issue.problem(),
            None => is_clean(body@, *f, eol),
        },
{
    if body.malformed {
        return Some(bare_issue(path, body, eol));
    }
    if f.allowed {
        return eol_only_issue(path, body, eol);
    }
    let replacements = if f.replacements_allowed {
        let none: Vec<RawReplacement> = Vec::new();
        annotate_replacement_char_matches(body.text.as_str(), &none)
    } else {
        annotate_replacement_char_matches(body.text.as_str(), &f.replacements)
    };
    if f.matches.len() == 0 && replacements.len() == 0 {
        let r = eol_only_issue(path, body, eol);
        proof {
            assert(f.matches@ =~= seq![]);
            assert(reported_replacements(*f) =~= seq![]);
        }
        return r;
    }
    let matches = annotate_matches(body.text.as_str(), &f.matches);
    let peel_suggested = if f.matches.len() == 0 {
        None
    } else {
        match &f.peeled {
            Some(t) => Some(t.clone()),
            None => None,
        }
    };
    let eol_mismatch = if is_utf16(body.encoding.as_str()) {
        None
    } else {
        eol
    };
    let issue = DoctorIssue {
        path: path.to_owned(),
        encoding_detected: body.encoding.clone(),
        valid_in_detected_encoding: true,
        mojibake_matches: matches,
        replacement_char_matches: replacements,
        peel_suggested,
        repaired: false,
        eol_mismatch,
        eol_repaired: false,
    };
    Some(issue)
}

// ── Repair ──────────────────────────────────────────────────────────────────

/// Bytes with every line ending replaced by `target`.
pub open spec fn with_endings(bytes: Seq<u8>, target: LineEnding) -> Seq<u8> {
    match target {
        LineEnding::Lf => to_lf(bytes),
        LineEnding::CrLf => lf_to_crlf(to_lf(bytes)),
        LineEnding::Cr => lf_to_cr(to_lf(bytes)),
    }
}

/// Replace every line ending in bytes by `target`: CR LF, a CR alone and an LF alone.
pub fn normalize_eol_bytes(bytes: &[u8], target: LineEnding) -> (r: Vec<u8>)
    ensures
        r@ == with_endings(bytes@, target),
{
    let lf = normalize_bytes_to_lf(bytes);
    match target {
        LineEnding::Lf => lf,
        LineEnding::CrLf => insert_cr_before_lf(lf.as_slice()),
        LineEnding::Cr => replace_lf_by_cr(lf.as_slice()),
    }
}

/// Line endings are to be repaired.
pub open spec fn eol_fixable(issue: DoctorIssue) -> bool {
    issue.eol_mismatch is Some && !names_utf16(issue.encoding_detected@)
}

/// What to write to a file to repair its line endings; `None` where nothing changes.
pub fn plan_eol_fix(issue: &DoctorIssue, raw: &[u8]) -> (r: Option<Vec<u8>>)
    ensures
        match r {
            Some(bytes) => eol_fixable(*issue) && bytes@ == with_endings(
                raw@,
                issue.eol_mismatch->0.expected,
            ) && bytes@ != raw@,
            None => eol_fixable(*issue) ==> with_endings(raw@, issue.eol_mismatch->0.expected)
                == raw@,
        },
{
    let mismatch = match issue.eol_mismatch {
        Some(m) => m,
        None => {
            return None;
        },
    };
    if is_utf16(issue.encoding_detected.as_str()) {
        return None;
    }
    let converted = normalize_eol_bytes(raw, mismatch.expected);
    if same_bytes(converted.as_slice(), raw) {
        None
    } else {
        Some(converted)
    }
}

/// Misread text is to be repaired.
pub open spec fn peelable(issue: DoctorIssue) -> bool {
    issue.mojibake_matches@.len() > 0 && issue.peel_suggested is Some
}

/// What to write to a file to repair misread text: the suggested text in UTF-8. `None`
/// where there is no suggestion.
pub fn plan_peel(issue: &DoctorIssue, old: &[u8]) -> (r: Result<Option<WritePlan>, String>)
    ensures
        if !peelable(*issue) {
            r is Ok && r->Ok_0 is None
        } else {
            match target_of(Some(old@)) {
                Err(m) => r is Err && r->Err_0@ == m,
                Ok(target) => {
                    r matches Ok(p) && p is Some && is_write_plan(
                        p->0,
                        issue.path@,
                        Some(old@),
                        issue.peel_suggested->0@,
                        target,
                        OutputEncoding::Utf8,
                        BomPolicy::Strip,
                        None,
                        false,
                        false,
                    )
                },
            }
        },
{
    if issue.mojibake_matches.len() == 0 {
        return Ok(None);
    }
    let peeled = match &issue.peel_suggested {
        Some(t) => t,
        None => {
            return Ok(None);
        },
    };
    match crate::cmd::write::run(
        issue.path.as_str(),
        Some(old),
        peeled.as_str(),
        OutputEncoding::Utf8,
        BomPolicy::Strip,
        None,
        false,
        false,
    ) {
        Ok(plan) => Ok(Some(plan)),
        Err(m) => Err(m),
    }
}

/// A repair.
#[derive(Debug, Clone, Copy, PartialEq, Eq, Structural)]
pub enum Repair {
    /// Of misread text.
    Peel,
    /// Of line endings.
    Eol,
}

/// The line that tells of a repair that failed.
pub open spec fn failure_line(repair: Repair, path: Seq<char>, message: Seq<char>) -> Seq<char> {
    (match repair {
        Repair::Peel => "doctor: peel-fix failed for "@,
        Repair::Eol => "doctor: eol-fix failed for "@,
    }) + path + ": "@ + message + "\n"@
}

/// Two issues tell the same, but for what was repaired.
pub open spec fn same_findings(a: DoctorIssue, b: DoctorIssue) -> bool {
    &&& a.path == b.path
    &&& a.encoding_detected == b.encoding_detected
    &&& a.valid_in_detected_encoding == b.valid_in_detected_encoding
    &&& a.mojibake_matches == b.mojibake_matches
    &&& a.replacement_char_matches == b.replacement_char_matches
    &&& a.peel_suggested == b.peel_suggested
    &&& a.eol_mismatch == b.eol_mismatch
}

/// Note what came of a repair: whether the file was rewritten, or why it could not be.
pub fn note_repair(
    issue: &mut DoctorIssue,
    repair: Repair,
    outcome: Result<bool, String>,
    format: DoctorFormat,
    out: &mut String,
)
    ensures
        same_findings(*final(issue), *old(issue)),
        final(issue).repaired == (old(issue).repaired || (repair == Repair::Peel && outcome == Ok::<
            bool,
            String,
        >(true))),
        final(issue).eol_repaired == (old(issue).eol_repaired || (repair == Repair::Eol && outcome
            == Ok::<bool, String>(true))),
        final(out)@ == (match outcome {
            Err(m) => if format == DoctorFormat::Human {
                old(out)@ + failure_line(repair, old(issue).path@, m@)
            } else {
                old(out)@
            },
            Ok(_) => old(out)@,
        }),
{
    match outcome {
        Ok(rewritten) => {
            if rewritten {
                match repair {
                    Repair::Peel => {
                        issue.repaired = true;
                    },
                    Repair::Eol => {
                        issue.eol_repaired = true;
                    },
                }
            }
        },
        Err(m) => {
            if matches!(format, DoctorFormat::Human) {
                match repair {
                    Repair::Peel => {
                        out.push_str("doctor: peel-fix failed for ");
                    },
                    Repair::Eol => {
                        out.push_str("doctor: eol-fix failed for ");
                    },
                }
                out.push_str(issue.path.as_str());
                out.push_str(": ");
                out.push_str(m.as_str());
                out.push_str("\n");
                proof {
                    assert(out@ =~= old(out)@ + failure_line(repair, old(issue).path@, m@));
                }
            }
        },
    }
}

// ── Report ──────────────────────────────────────────────────────────────────

/// A file that was to be diagnosed: its path, and what came of it.
#[derive(Debug)]
pub struct FileOutcome {
    /// The file.
    pub path: String,
    /// What there is to report, or why the file could not be looked at.
    pub result: Result<Option<DoctorIssue>, String>,
}

/// The warning for a file that could not be looked at.
pub open spec fn outcome_message(path: Seq<char>, message: Seq<char>) -> Seq<char> {
    "doctor: "@ + path + ": "@ + message
}

/// How far a diagnosis has come after the first `n` files: the issues, the number of
/// files looked at and the warnings; or the message of the error.
pub open spec fn gathered(files: Seq<FileOutcome>, on_error: OnError, n: int) -> Result<
    (Seq<DoctorIssue>, nat, Seq<Seq<char>>),
    Seq<char>,
>
    decreases n,
{
    if n <= 0 {
        Ok((seq![], 0, seq![]))
    } else {
        match gathered(files, on_error, n - 1) {
            Err(m) => Err(m),
            Ok((issues, scanned, warnings)) => match files[n - 1].result {
                Ok(Some(issue)) => Ok((issues.push(issue), scanned + 1, warnings)),
                Ok(None) => Ok((issues, scanned + 1, warnings)),
                Err(e) => {
                    let m = outcome_message(files[n - 1].path@, e@);
                    if on_error == OnError::Fail || files.len() == 1 {
                        Err(m)
                    } else {
                        Ok((issues, scanned, warnings.push(m)))
                    }
                },
            },
        }
    }
}

/// The message where no file could be looked at.
pub open spec fn nothing_scanned() -> Seq<char> {
    "doctor: no files could be scanned; all selected files were missing or unreadable"@
}

/// Gather what came of each file. A file that could not be looked at is an error, or a
/// warning where the policy says so and there are others. That none could be looked
/// at is an error.
pub fn run_with_policy(files: Vec<FileOutcome>, on_error: OnError, warnings: &mut Vec<String>) -> (r:
    Result<DoctorReport, String>)
    ensures
        match gathered(files@, on_error, files@.len() as int) {
            Err(m) => r is Err && r->Err_0@ == m && texts(final(warnings)@) == texts(
                old(warnings)@,
            ),
            Ok((issues, scanned, w)) => {
                &&& texts(final(warnings)@) == texts(old(warnings)@) + w
                &&& if scanned == 0 && files@.len() > 0 {
                    r is Err && r->Err_0@ == nothing_scanned()
                } else {
                    r matches Ok(report) && {
                        &&& report.issues@ == issues
                        &&& report.total_files_scanned == scanned
                        &&& report.total_repaired == 0
                        &&& !report.eol_fix_requested
                    }
                }
            },
        },
{
    let count: usize = files.len();
    let ghost all = files@;
    let ghost w0 = texts(warnings@);
    let mut issues: Vec<DoctorIssue> = Vec::new();
    let mut scanned: usize = 0;
    let ghost mut noted: Seq<Seq<char>> = seq![];
    proof {
        assert(w0 + noted =~= w0);
    }
    for file in it: files
        invariant
            it.seq() == all,
            count == all.len(),
            w0 == texts(old(warnings)@),
            scanned <= it.index(),
            gathered(all, on_error, it.index() as int) == Ok::<
                (Seq<DoctorIssue>, nat, Seq<Seq<char>>),
                Seq<char>,
            >((issues@, scanned as nat, noted)),
            texts(warnings@) == w0 + noted,
            on_error == OnError::Fail || count == 1 ==> noted.len() == 0 || it.index() == count,
    {
        let ghost i = it.index() as int;
        proof {
            assert(file == all[i]);
        }
        match file.result {
            Ok(Some(issue)) => {
                scanned = scanned + 1;
                issues.push(issue);
            },
            Ok(None) => {
                scanned = scanned + 1;
            },
            Err(e) => {
                let mut m = "doctor: ".to_owned();
                m.push_str(file.path.as_str());
                m.push_str(": ");
                m.push_str(e.as_str());
                if matches!(on_error, OnError::Fail) || count == 1 {
                    proof {
                        assert(w0 + noted =~= w0);
                        lemma_gathering_stops(all, on_error, i + 1, all.len() as int);
                    }
                    return Err(m);
                }
                let ghost shown = m@;
                let ghost had = texts(warnings@);
                warnings.push(m);
                proof {
                    assert(texts(warnings@) =~= had.push(shown));
                    assert(texts(warnings@) =~= w0 + noted.push(shown));
                    noted = noted.push(shown);
                }
            },
        }
    }
    if scanned == 0 && count > 0 {
        return Err(
            "doctor: no files could be scanned; all selected files were missing or unreadable".to_owned(),
        );
    }
    Ok(
        DoctorReport {
            issues,
            total_files_scanned: scanned,
            total_repaired: 0,
            eol_fix_requested: false,
        },
    )
}

proof fn lemma_gathering_stops(files: Seq<FileOutcome>, on_error: OnError, i: int, n: int)
    requires
        0 <= i <= n,
        gathered(files, on_error, i) is Err,
    ensures
        gathered(files, on_error, n) == gathered(files, on_error, i),
    decreases n - i,
{
    if i < n {
        lemma_gathering_stops(files, on_error, i, n - 1);
    }
}

/// Gather what came of each file. A file that could not be looked at is an error.
pub fn run(files: Vec<FileOutcome>) -> (r: Result<DoctorReport, String>)
    ensures
        match gathered(files@, OnError::Fail, files@.len() as int) {
            Err(m) => r is Err && r->Err_0@ == m,
            Ok((issues, scanned, _)) => if scanned == 0 && files@.len() > 0 {
                r is Err && r->Err_0@ == nothing_scanned()
            } else {
                r matches Ok(report) && {
                    &&& report.issues@ == issues
                    &&& report.total_files_scanned == scanned
                    &&& report.total_repaired == 0
                    &&& !report.eol_fix_requested
                }
            },
        },
{
    let mut warnings: Vec<String> = Vec::new();
    run_with_policy(files, OnError::Fail, &mut warnings)
}

/// The number of files repaired.
pub open spec fn repaired_count(issues: Seq<DoctorIssue>) -> nat {
    issues.filter(|i: DoctorIssue| i.repaired || i.eol_repaired).len()
}

fn count_repaired(issues: &Vec<DoctorIssue>) -> (r: usize)
    ensures
        r == repaired_count(issues@),
{
    let ghost f = |i: DoctorIssue| i.repaired || i.eol_repaired;
    let mut n: usize = 0;
    let mut k: usize = 0;
    proof {
        reveal(Seq::filter);
        assert(issues@.take(0) =~= seq![]);
    }
    while k < issues.len()
        invariant
            k <= issues@.len(),
            f == (|i: DoctorIssue| i.repaired || i.eol_repaired),
            n == issues@.take(k as int).filter(f).len(),
            n <= k,
        decreases issues@.len() - k,
    {
        proof {
            reveal(Seq::filter);
            let t = issues@.take(k + 1);
            assert(t.drop_last() =~= issues@.take(k as int));
            assert(t.last() == issues@[k as int]);
        }
        if issues[k].repaired || issues[k].eol_repaired {
            n = n + 1;
        }
        k = k + 1;
    }
    proof {
        assert(issues@.take(k as int) =~= issues@);
    }
    n
}

/// Finish a report once the repairs are done: count them where there were to be any, and
/// show the report where it is shown in lines.
pub fn finish(report: DoctorReport, options: DoctorOptions, fix_eol: bool, out: &mut String) -> (r:
    DoctorReport)
    ensures
        r.issues == report.issues,
        r.total_files_scanned == report.total_files_scanned,
        r.total_repaired == (if options.fix == DoctorFix::Peel || fix_eol {
            repaired_count(report.issues@)
        } else {
            report.total_repaired as nat
        }),
        r.eol_fix_requested == fix_eol,
        final(out)@ == old(out)@ + (match options.format {
            DoctorFormat::Human => human_report(r, options.quiet),
            DoctorFormat::Json => seq![],
        }),
{
    let mut r = report;
    if fix_eol || matches!(options.fix, DoctorFix::Peel) {
        r.total_repaired = count_repaired(&r.issues);
    }
    r.eol_fix_requested = fix_eol;
    match options.format {
        DoctorFormat::Human => {
            emit_human(out, &r, options.quiet);
        },
        DoctorFormat::Json => {
            proof {
                assert(out@ + Seq::<char>::empty() =~= out@);
            }
        },
    }
    r
}

// ── Output ──────────────────────────────────────────────────────────────────

/// A text comes before another in the order of their characters.
pub open spec fn comes_before(a: Seq<char>, b: Seq<char>) -> bool
    decreases a.len(),
{
    if b.len() == 0 {
        false
    } else if a.len() == 0 {
        true
    } else if a[0] != b[0] {
        a[0] < b[0]
    } else {
        comes_before(a.drop_first(), b.drop_first())
    }
}

fn is_before(a: &Vec<char>, b: &Vec<char>) -> (r: bool)
    ensures
        r == comes_before(a@, b@),
{
    let mut i: usize = 0;
    proof {
        assert(a@.skip(0) =~= a@);
        assert(b@.skip(0) =~= b@);
    }
    while i < a.len() && i < b.len()
        invariant
            i <= a@.len(),
            i <= b@.len(),
            comes_before(a@.skip(i as int), b@.skip(i as int)) == comes_before(a@, b@),
        decreases a@.len() - i,
    {
        proof {
            assert(a@.skip(i as int).drop_first() =~= a@.skip(i + 1));
            assert(b@.skip(i as int).drop_first() =~= b@.skip(i + 1));
        }
        if a[i] != b[i] {
            return a[i] < b[i];
        }
        i = i + 1;
    }
    i < b.len()
}

/// A name put into a sorted list of names, where it does not occur yet.
pub open spec fn with_name(v: Seq<Seq<char>>, name: Seq<char>) -> Seq<Seq<char>>
    decreases v.len(),
{
    if v.len() == 0 {
        seq![name]
    } else if v[0] == name {
        v
    } else if comes_before(name, v[0]) {
        seq![name] + v
    } else {
        seq![v[0]] + with_name(v.drop_first(), name)
    }
}

/// The names of the kinds that occur, in order.
pub open spec fn kind_names(v: Seq<DoctorMatch>) -> Seq<Seq<char>>
    decreases v.len(),
{
    if v.len() == 0 {
        seq![]
    } else {
        with_name(kind_names(v.drop_last()), v.last().pattern@)
    }
}

/// How often a kind occurs.
pub open spec fn kind_count(v: Seq<DoctorMatch>, name: Seq<char>) -> nat
    decreases v.len(),
{
    if v.len() == 0 {
        0
    } else {
        kind_count(v.drop_last(), name) + (if v.last().pattern@ == name {
            1nat
        } else {
            0
        })
    }
}

/// How often each kind occurs, as text.
pub open spec fn kind_summary(v: Seq<DoctorMatch>, names: Seq<Seq<char>>) -> Seq<char>
    decreases names.len(),
{
    if names.len() == 0 {
        seq![]
    } else {
        kind_summary(v, names.drop_last()) + (if names.len() > 1 {
            " "@
        } else {
            ""@
        }) + names.last() + "="@ + dec(kind_count(v, names.last()))
    }
}

/// The lines on what looks misread.
pub open spec fn match_lines(v: Seq<DoctorMatch>) -> Seq<char>
    decreases v.len(),
{
    if v.len() == 0 {
        seq![]
    } else {
        let m = v.last();
        match_lines(v.drop_last()) + ("  "@ + dec(m.line as nat) + ":"@ + dec(m.col as nat) + ": ["@
            + m.pattern@ + "] (byte offset "@ + dec(m.byte_offset as nat) + ")\n"@)
    }
}

/// What is shown of text that looks misread.
pub open spec fn match_text(issue: DoctorIssue) -> Seq<char> {
    let v = issue.mojibake_matches@;
    if v.len() == 0 {
        seq![]
    } else {
        issue.path@ + ": "@ + dec(v.len()) + " ("@ + kind_summary(v, kind_names(v)) + ") ["@
            + issue.encoding_detected@ + "]"@ + (if issue.repaired {
            " [REPAIRED]"@
        } else {
            ""@
        }) + "\n"@ + match_lines(v)
    }
}

/// The number of hexadecimal digits that a character is shown with.
pub open spec fn code_width(c: char) -> nat {
    if c as u32 <= 0xFFFF {
        4
    } else if c as u32 <= 0xFFFFF {
        5
    } else {
        6
    }
}

/// What is shown of a suggestion.
pub open spec fn suggestion_text(suggested: Option<char>) -> Seq<char> {
    match suggested {
        Some(c) => " (suggest: U+"@ + hex_fixed(c as u32 as nat, code_width(c), true) + " '"@
            + seq![c] + "')"@,
        None => seq![],
    }
}

/// The lines on lost characters.
pub open spec fn replacement_lines(v: Seq<DoctorReplacementCharMatch>) -> Seq<char>
    decreases v.len(),
{
    if v.len() == 0 {
        seq![]
    } else {
        let m = v.last();
        replacement_lines(v.drop_last()) + ("  "@ + dec(m.line as nat) + ":"@ + dec(m.col as nat)
            + ": [lossy-replacement] (byte offset "@ + dec(m.byte_offset as nat) + ")"@
            + suggestion_text(m.suggested) + "\n"@)
    }
}

/// What is shown of lost characters.
pub open spec fn replacement_text(issue: DoctorIssue) -> Seq<char> {
    let v = issue.replacement_char_matches@;
    if v.len() == 0 {
        seq![]
    } else {
        issue.path@ + ": "@ + dec(v.len()) + " lossy-replacement char"@ + (if v.len() == 1 {
            ""@
        } else {
            "s"@
        }) + " (U+FFFD residue; manual repair only) ["@ + issue.encoding_detected@ + "]\n"@
            + replacement_lines(v)
    }
}

/// The name of a line ending.
pub open spec fn ending_name(e: LineEnding) -> Seq<char> {
    match e {
        LineEnding::Lf => "LF"@,
        LineEnding::CrLf => "CRLF"@,
        LineEnding::Cr => "CR"@,
    }
}

/// The name of a line ending.
pub fn line_ending_name(e: LineEnding) -> (r: &'static str)
    ensures
        r@ == ending_name(e),
{
    match e {
        LineEnding::Lf => "LF",
        LineEnding::CrLf => "CRLF",
        LineEnding::Cr => "CR",
    }
}

/// What is shown of line endings: whether they were repaired, could not be, or were
/// not to be.
pub open spec fn eol_text(issue: DoctorIssue, fix_requested: bool) -> Seq<char> {
    match issue.eol_mismatch {
        None => seq![],
        Some(m) => issue.path@ + ": line endings ("@ + ending_name(m.actual)
            + ") differ from git's expected "@ + ending_name(m.expected)
            + " (per .gitattributes / core.autocrlf / core.eol)"@ + (if issue.eol_repaired {
            " [NORMALIZED]"@
        } else if fix_requested {
            " [NOT NORMALIZED]"@
        } else {
            ""@
        }) + "\n"@,
    }
}

/// What is shown of an issue.
pub open spec fn issue_text(issue: DoctorIssue, fix_requested: bool) -> Seq<char> {
    if !issue.valid_in_detected_encoding {
        issue.path@ + ": invalid bytes in detected encoding ("@ + issue.encoding_detected@ + ")\n"@
    } else {
        match_text(issue) + replacement_text(issue) + eol_text(issue, fix_requested)
    }
}

/// What is shown of the issues.
pub open spec fn issues_text(v: Seq<DoctorIssue>, fix_requested: bool) -> Seq<char>
    decreases v.len(),
{
    if v.len() == 0 {
        seq![]
    } else {
        issues_text(v.drop_last(), fix_requested) + issue_text(v.last(), fix_requested)
    }
}

/// The last line of a report.
pub open spec fn summary_line(report: DoctorReport) -> Seq<char> {
    "doctor: scanned "@ + dec(report.total_files_scanned as nat) + " file(s), "@ + dec(
        problem_count(report.issues@),
    ) + " flagged, "@ + dec(report.total_repaired as nat) + " repaired\n"@
}

/// A report in lines; where it is to be quiet, the last alone.
pub open spec fn human_report(report: DoctorReport, quiet: bool) -> Seq<char> {
    (if quiet {
        seq![]
    } else {
        issues_text(report.issues@, report.eol_fix_requested)
    }) + summary_line(report)
}

/// The names of the kinds that occur, in order.
fn find_names(v: &Vec<DoctorMatch>) -> (r: Vec<String>)
    ensures
        texts(r@) == kind_names(v@),
{
    let mut names: Vec<String> = Vec::new();
    let mut i: usize = 0;
    proof {
        assert(v@.take(0) =~= seq![]);
        assert(texts(names@) =~= seq![]);
    }
    while i < v.len()
        invariant
            i <= v@.len(),
            texts(names@) == kind_names(v@.take(i as int)),
        decreases v@.len() - i,
    {
        proof {
            assert(v@.take(i + 1).drop_last() =~= v@.take(i as int));
            assert(v@.take(i + 1).last() == v@[i as int]);
        }
        names = put_name(names, v[i].pattern.name());
        i = i + 1;
    }
    proof {
        assert(v@.take(i as int) =~= v@);
    }
    names
}

fn put_name(v: Vec<String>, name: &str) -> (r: Vec<String>)
    ensures
        texts(r@) == with_name(texts(v@), name@),
{
    let ghost views = texts(v@);
    let key = chars_of(name);
    let mut out: Vec<String> = Vec::new();
    let mut i: usize = 0;
    proof {
        assert(views.skip(0) =~= views);
        assert(texts(out@) + with_name(views, name@) =~= with_name(views, name@));
    }
    while i < v.len() && !same(v[i].as_str(), name) && !is_before(
        &key,
        &chars_of(v[i].as_str()),
    )
        invariant
            i <= v@.len(),
            views == texts(v@),
            key@ == name@,
            texts(out@) + with_name(views.skip(i as int), name@) == with_name(views, name@),
            texts(out@) == views.take(i as int),
        decreases v@.len() - i,
    {
        let ghost rest = views.skip(i as int);
        let ghost had = texts(out@);
        proof {
            assert(rest[0] == v@[i as int]@);
            assert(rest.drop_first() =~= views.skip(i + 1));
        }
        out.push(v[i].clone());
        proof {
            assert(texts(out@) =~= had.push(rest[0]));
            assert(texts(out@) + with_name(views.skip(i + 1), name@) =~= had + with_name(
                rest,
                name@,
            ));
            assert(texts(out@) =~= views.take(i + 1));
        }
        i = i + 1;
    }
    let ghost rest = views.skip(i as int);
    proof {
        if i < v@.len() {
            assert(rest[0] == v@[i as int]@);
        }
    }
    if i < v.len() && same(v[i].as_str(), name) {
        proof {
            assert(views.take(i as int) + rest =~= views);
        }
        return v;
    }
    let ghost had = texts(out@);
    out.push(name.to_owned());
    proof {
        assert(texts(out@) =~= had.push(name@));
        assert(had + with_name(rest, name@) =~= texts(out@) + rest);
    }
    let from: usize = i;
    while i < v.len()
        invariant
            from <= i <= v@.len(),
            views == texts(v@),
            texts(out@) + views.skip(i as int) == with_name(views, name@),
        decreases v@.len() - i,
    {
        let ghost had = texts(out@);
        out.push(v[i].clone());
        proof {
            assert(texts(out@) =~= had.push(views[i as int]));
            assert(texts(out@) + views.skip(i + 1) =~= had + views.skip(i as int));
        }
        i = i + 1;
    }
    proof {
        assert(texts(out@) + views.skip(i as int) =~= texts(out@));
    }
    out
}

fn count_kind(v: &Vec<DoctorMatch>, name: &str) -> (r: usize)
    ensures
        r == kind_count(v@, name@),
{
    let mut n: usize = 0;
    let mut i: usize = 0;
    proof {
        assert(v@.take(0) =~= seq![]);
    }
    while i < v.len()
        invariant
            i <= v@.len(),
            n <= i,
            n == kind_count(v@.take(i as int), name@),
        decreases v@.len() - i,
    {
        proof {
            assert(v@.take(i + 1).drop_last() =~= v@.take(i as int));
            assert(v@.take(i + 1).last() == v@[i as int]);
        }
        if same(v[i].pattern.name(), name) {
            n = n + 1;
        }
        i = i + 1;
    }
    proof {
        assert(v@.take(i as int) =~= v@);
    }
    n
}

fn summarize(v: &Vec<DoctorMatch>) -> (r: String)
    ensures
        r@ == kind_summary(v@, kind_names(v@)),
{
    let names = find_names(v);
    let ghost views = texts(names@);
    let mut out = String::new();
    let mut i: usize = 0;
    proof {
        assert(views.take(0) =~= seq![]);
        assert(out@ =~= kind_summary(v@, views.take(0)));
    }
    while i < names.len()
        invariant
            i <= names@.len(),
            views == texts(names@),
            out@ == kind_summary(v@, views.take(i as int)),
        decreases names@.len() - i,
    {
        proof {
            assert(views.take(i + 1).drop_last() =~= views.take(i as int));
            assert(views.take(i + 1).last() == names@[i as int]@);
        }
        out.push_str(
            if i > 0 {
                " "
            } else {
                ""
            },
        );
        out.push_str(names[i].as_str());
        out.push_str("=");
        push_dec(&mut out, count_kind(v, names[i].as_str()) as u64);
        i = i + 1;
    }
    proof {
        assert(views.take(i as int) =~= views);
    }
    out
}

fn push_matches(out: &mut String, v: &Vec<DoctorMatch>)
    ensures
        final(out)@ == old(out)@ + match_lines(v@),
{
    let ghost start = out@;
    let mut i: usize = 0;
    proof {
        assert(v@.take(0) =~= seq![]);
        assert(start + match_lines(v@.take(0)) =~= start);
    }
    while i < v.len()
        invariant
            i <= v@.len(),
            out@ == start + match_lines(v@.take(i as int)),
        decreases v@.len() - i,
    {
        proof {
            assert(v@.take(i + 1).drop_last() =~= v@.take(i as int));
            assert(v@.take(i + 1).last() == v@[i as int]);
        }
        let mut m = "  ".to_owned();
        push_dec(&mut m, v[i].line as u64);
        m.push_str(":");
        push_dec(&mut m, v[i].col as u64);
        m.push_str(": [");
        m.push_str(v[i].pattern.name());
        m.push_str("] (byte offset ");
        push_dec(&mut m, v[i].byte_offset as u64);
        m.push_str(")\n");
        out.push_str(m.as_str());
        proof {
            assert(out@ =~= start + match_lines(v@.take(i + 1)));
        }
        i = i + 1;
    }
    proof {
        assert(v@.take(i as int) =~= v@);
    }
}

fn push_suggestion(out: &mut String, suggested: Option<char>)
    ensures
        final(out)@ == old(out)@ + suggestion_text(suggested),
{
    match suggested {
        Some(c) => {
            let u: u32 = c as u32;
            let width: usize = if u <= 0xFFFF {
                4
            } else if u <= 0xFFFFF {
                5
            } else {
                6
            };
            let mut m = " (suggest: U+".to_owned();
            push_hex(&mut m, u, width, true);
            m.push_str(" '");
            m.push(c);
            m.push_str("')");
            proof {
                assert(m@ =~= suggestion_text(suggested));
            }
            out.push_str(m.as_str());
        },
        None => {
            proof {
                assert(out@ + suggestion_text(suggested) =~= out@);
            }
        },
    }
}

fn push_replacements(out: &mut String, v: &Vec<DoctorReplacementCharMatch>)
    ensures
        final(out)@ == old(out)@ + replacement_lines(v@),
{
    let ghost start = out@;
    let mut i: usize = 0;
    proof {
        assert(v@.take(0) =~= seq![]);
        assert(start + replacement_lines(v@.take(0)) =~= start);
    }
    while i < v.len()
        invariant
            i <= v@.len(),
            out@ == start + replacement_lines(v@.take(i as int)),
        decreases v@.len() - i,
    {
        proof {
            assert(v@.take(i + 1).drop_last() =~= v@.take(i as int));
            assert(v@.take(i + 1).last() == v@[i as int]);
        }
        let mut m = "  ".to_owned();
        push_dec(&mut m, v[i].line as u64);
        m.push_str(":");
        push_dec(&mut m, v[i].col as u64);
        m.push_str(": [lossy-replacement] (byte offset ");
        push_dec(&mut m, v[i].byte_offset as u64);
        m.push_str(")");
        push_suggestion(&mut m, v[i].suggested);
        m.push_str("\n");
        out.push_str(m.as_str());
        proof {
            assert(out@ =~= start + replacement_lines(v@.take(i + 1)));
        }
        i = i + 1;
    }
    proof {
        assert(v@.take(i as int) =~= v@);
    }
}

fn show_matches(issue: &DoctorIssue) -> (r: String)
    ensures
        r@ == match_text(*issue),
{
    let v = &issue.mojibake_matches;
    if v.len() == 0 {
        return String::new();
    }
    let mut m = issue.path.clone();
    m.push_str(": ");
    push_dec(&mut m, v.len() as u64);
    m.push_str(" (");
    m.push_str(summarize(v).as_str());
    m.push_str(") [");
    m.push_str(issue.encoding_detected.as_str());
    m.push_str("]");
    m.push_str(
        if issue.repaired {
            " [REPAIRED]"
        } else {
            ""
        },
    );
    m.push_str("\n");
    push_matches(&mut m, v);
    m
}

fn show_replacements(issue: &DoctorIssue) -> (r: String)
    ensures
        r@ == replacement_text(*issue),
{
    let v = &issue.replacement_char_matches;
    if v.len() == 0 {
        return String::new();
    }
    let mut m = issue.path.clone();
    m.push_str(": ");
    push_dec(&mut m, v.len() as u64);
    m.push_str(" lossy-replacement char");
    m.push_str(
        if v.len() == 1 {
            ""
        } else {
            "s"
        },
    );
    m.push_str(" (U+FFFD residue; manual repair only) [");
    m.push_str(issue.encoding_detected.as_str());
    m.push_str("]\n");
    push_replacements(&mut m, v);
    m
}

fn show_eol(issue: &DoctorIssue, fix_requested: bool) -> (r: String)
    ensures
        r@ == eol_text(*issue, fix_requested),
{
    let mismatch = match issue.eol_mismatch {
        Some(m) => m,
        None => {
            return String::new();
        },
    };
    let mut m = issue.path.clone();
    m.push_str(": line endings (");
    m.push_str(line_ending_name(mismatch.actual));
    m.push_str(") differ from git's expected ");
    m.push_str(line_ending_name(mismatch.expected));
    m.push_str(" (per .gitattributes / core.autocrlf / core.eol)");
    m.push_str(
        if issue.eol_repaired {
            " [NORMALIZED]"
        } else if fix_requested {
            " [NOT NORMALIZED]"
        } else {
            ""
        },
    );
    m.push_str("\n");
    m
}

fn show_issue(issue: &DoctorIssue, fix_requested: bool) -> (r: String)
    ensures
        r@ == issue_text(*issue, fix_requested),
{
    if !issue.valid_in_detected_encoding {
        let mut m = issue.path.clone();
        m.push_str(": invalid bytes in detected encoding (");
        m.push_str(issue.encoding_detected.as_str());
        m.push_str(")\n");
        return m;
    }
    let mut m = show_matches(issue);
    m.push_str(show_replacements(issue).as_str());
    m.push_str(show_eol(issue, fix_requested).as_str());
    m
}

/// Show a report in lines; where it is to be quiet, the last alone.
pub fn emit_human(out: &mut String, report: &DoctorReport, quiet: bool)
    ensures
        final(out)@ == old(out)@ + human_report(*report, quiet),
{
    let mut m = String::new();
    if !quiet {
        let issues = &report.issues;
        let mut i: usize = 0;
        proof {
            assert(issues@.take(0) =~= seq![]);
            assert(m@ =~= issues_text(issues@.take(0), report.eol_fix_requested));
        }
        while i < issues.len()
            invariant
                i <= issues@.len(),
                m@ == issues_text(issues@.take(i as int), report.eol_fix_requested),
            decreases issues@.len() - i,
        {
            proof {
                assert(issues@.take(i + 1).drop_last() =~= issues@.take(i as int));
                assert(issues@.take(i + 1).last() == issues@[i as int]);
            }
            m.push_str(show_issue(&issues[i], report.eol_fix_requested).as_str());
            i = i + 1;
        }
        proof {
            assert(issues@.take(i as int) =~= issues@);
        }
    } else {
        proof {
            assert(m@ =~= seq![]);
        }
    }
    let mut line = "doctor: scanned ".to_owned();
    push_dec(&mut line, report.total_files_scanned as u64);
    line.push_str(" file(s), ");
    push_dec(&mut line, report.total_issues() as u64);
    line.push_str(" flagged, ");
    push_dec(&mut line, report.total_repaired as u64);
    line.push_str(" repaired\n");
    m.push_str(line.as_str());
    out.push_str(m.as_str());
}

// ── Laws ────────────────────────────────────────────────────────────────────

/// Repairing line endings twice is repairing them once.
pub proof fn law_eol_repair_is_idempotent(bytes: Seq<u8>, target: LineEnding)
    ensures
        with_endings(with_endings(bytes, target), target) == with_endings(bytes, target),
{
    law_last_eol_repair_wins(bytes, target, target);
}

/// Of two repairs of line endings the last one counts.
pub proof fn law_last_eol_repair_wins(bytes: Seq<u8>, first: LineEnding, last: LineEnding)
    ensures
        with_endings(with_endings(bytes, first), last) == with_endings(bytes, last),
{
    let lf = to_lf(bytes);
    law_to_lf_lacks_cr(bytes);
    match first {
        LineEnding::Lf => {
            law_to_lf_keeps_lf_only(lf);
        },
        LineEnding::CrLf => {
            law_crlf_undone(lf);
        },
        LineEnding::Cr => {
            law_cr_undone(lf);
        },
    }
}

/// A report counts each of its issues, where all come from a diagnosis: only files with
/// something to report are listed.
pub proof fn law_all_issues_count(issues: Seq<DoctorIssue>)
    requires
        forall|i: int| 0 <= i < issues.len() ==> (#[trigger] issues[i]).problem(),
    ensures
        problem_count(issues) == issues.len(),
    decreases issues.len(),
{
    reveal(Seq::filter);
    if issues.len() > 0 {
        law_all_issues_count(issues.drop_last());
    }
}

proof fn lemma_line_behind(s: Seq<char>)
    ensures
        line_behind(s) == 1 + s.to_multiset().count('\n'),
    decreases s.len(),
{
    broadcast use vstd::seq_lib::group_to_multiset_ensures;

    if s.len() > 0 {
        lemma_line_behind(s.drop_last());
        assert(s =~= s.drop_last().push(s.last()));
        assert(s.to_multiset() =~= s.drop_last().to_multiset().insert(s.last()));
    } else {
        assert(s =~= Seq::<char>::empty());
    }
}

proof fn lemma_col_behind(a: Seq<char>, line: Seq<char>)
    requires
        a.len() == 0 || a.last() == '\n',
        !line.contains('\n'),
    ensures
        col_behind(a + line) == line.len() + 1,
    decreases line.len(),
{
    let s = a + line;
    if line.len() == 0 {
        assert(s =~= a);
    } else {
        let rest = line.drop_last();
        assert(s.last() == line.last());
        assert(line.contains(line.last()));
        assert forall|i: int| 0 <= i < rest.len() implies rest[i] != '\n' by {
            assert(line.contains(line[i]));
        }
        lemma_col_behind(a, rest);
        assert(s.drop_last() =~= a + rest);
    }
}

/// What is found is told of by the place where it stands: behind lines that end in LF, and
/// behind the beginning of its own, the line is one more than those lines, and the column one
/// more than the characters of that beginning.
pub proof fn law_places_are_lines_and_columns(
    text: Seq<char>,
    above: Seq<char>,
    begun: Seq<char>,
    rest: Seq<char>,
    line: nat,
    col: nat,
)
    requires
        text == above + begun + rest,
        above.len() == 0 || above.last() == '\n',
        !begun.contains('\n'),
        is_place(text, encode_utf8(above + begun).len(), line, col),
    ensures
        line == 1 + above.to_multiset().count('\n'),
        col == 1 + begun.len(),
{
    broadcast use vstd::seq_lib::group_to_multiset_ensures;

    let n = (above + begun).len() as int;
    let k = choose|k: int|
        {
            &&& 0 <= k <= text.len()
            &&& #[trigger] offset_of(text, k) == encode_utf8(above + begun).len()
            &&& line == line_behind(text.take(k))
            &&& col == col_behind(text.take(k))
        };
    assert(text.take(n) =~= above + begun);
    if k < n {
        lemma_offsets_grow(text, k, n);
    } else if n < k {
        lemma_offsets_grow(text, n, k);
    }
    lemma_line_behind(above + begun);
    lemma_col_behind(above, begun);
    vstd::seq_lib::lemma_multiset_commutative(above, begun);
    if begun.to_multiset().count('\n') > 0 {
        assert(begun.contains('\n'));
    }
}

proof fn lemma_offsets_grow(text: Seq<char>, j: int, k: int)
    requires
        0 <= j < k <= text.len(),
    ensures
        offset_of(text, j) < offset_of(text, k),
{
    assert(text.take(k) =~= text.take(j) + text.subrange(j, k));
    lemma_utf8_add(text.take(j), text.subrange(j, k));
    let part = text.subrange(j, k);
    if encode_utf8(part).len() == 0 {
        encode_utf8_decode_utf8(part);
        encode_utf8_decode_utf8(Seq::<char>::empty());
        assert(encode_utf8(part) =~= encode_utf8(Seq::<char>::empty())) by {
            assert(encode_utf8(Seq::<char>::empty()).len() == 0);
        }
    }
}

proof fn lemma_gathered(files: Seq<FileOutcome>, on_error: OnError, n: int)
    requires
        0 <= n <= files.len(),
    ensures
        match gathered(files, on_error, n) {
            Ok((issues, scanned, warnings)) => {
                &&& issues == files.take(n).filter(
                    |f: FileOutcome| f.result is Ok && f.result->Ok_0 is Some,
                ).map_values(|f: FileOutcome| f.result->Ok_0->0)
                &&& scanned == files.take(n).filter(|f: FileOutcome| f.result is Ok).len()
                &&& warnings == files.take(n).filter(
                    |f: FileOutcome| f.result is Err,
                ).map_values(
                    |f: FileOutcome| "doctor: "@ + f.path@ + ": "@ + f.result->Err_0@,
                )
                &&& on_error == OnError::Fail || files.len() == 1 ==> warnings.len() == 0
            },
            Err(m) => (on_error == OnError::Fail || files.len() == 1) && exists|i: int|
                0 <= i < n && (#[trigger] files[i]).result is Err && m == "doctor: "@ + files[i].path@
                    + ": "@ + files[i].result->Err_0@ && forall|j: int|
                    0 <= j < i ==> (#[trigger] files[j]).result is Ok,
        },
        gathered(files, on_error, n) is Ok && (on_error == OnError::Fail || files.len() == 1)
            ==> forall|j: int| 0 <= j < n ==> (#[trigger] files[j]).result is Ok,
    decreases n,
{
    reveal(Seq::filter);
    let with_issue = |f: FileOutcome| f.result is Ok && f.result->Ok_0 is Some;
    let is_ok = |f: FileOutcome| f.result is Ok;
    let is_err = |f: FileOutcome| f.result is Err;
    let issue_of = |f: FileOutcome| f.result->Ok_0->0;
    let warning_of = |f: FileOutcome| "doctor: "@ + f.path@ + ": "@ + f.result->Err_0@;
    let t = files.take(n);
    if n == 0 {
        assert(t =~= seq![]);
        assert(t.filter(with_issue).map_values(issue_of) =~= seq![]);
        assert(t.filter(is_err).map_values(warning_of) =~= seq![]);
    } else {
        lemma_gathered(files, on_error, n - 1);
        let f = files[n - 1];
        assert(t.drop_last() =~= files.take(n - 1));
        assert(t.last() == f);
        let issues = t.drop_last().filter(with_issue).map_values(issue_of);
        let warnings = t.drop_last().filter(is_err).map_values(warning_of);
        assert(t.filter(with_issue).map_values(issue_of) =~= (if with_issue(f) {
            issues.push(issue_of(f))
        } else {
            issues
        }));
        assert(t.filter(is_err).map_values(warning_of) =~= (if is_err(f) {
            warnings.push(warning_of(f))
        } else {
            warnings
        }));
        match gathered(files, on_error, n - 1) {
            Ok(_) => {
                if is_err(f) {
                    assert(files[n - 1].result is Err);
                }
            },
            Err(m) => {
                let i = choose|i: int|
                    0 <= i < n - 1 && (#[trigger] files[i]).result is Err && m == "doctor: "@
                        + files[i].path@ + ": "@ + files[i].result->Err_0@ && forall|j: int|
                        0 <= j < i ==> (#[trigger] files[j]).result is Ok;
                assert(files[i].result is Err);
            },
        }
    }
}

/// Every file is accounted for: the issues are those of the files that have one, in order; the
/// files looked at are those that could be; and there is a warning for each of the others. The
/// first of these is the error where errors are not to be passed over, or there is no other
/// file.
pub proof fn law_every_file_is_accounted_for(files: Seq<FileOutcome>, on_error: OnError)
    ensures
        match gathered(files, on_error, files.len() as int) {
            Ok((issues, scanned, warnings)) => {
                &&& issues == files.filter(
                    |f: FileOutcome| f.result is Ok && f.result->Ok_0 is Some,
                ).map_values(|f: FileOutcome| f.result->Ok_0->0)
                &&& scanned == files.filter(|f: FileOutcome| f.result is Ok).len()
                &&& warnings == files.filter(|f: FileOutcome| f.result is Err).map_values(
                    |f: FileOutcome| "doctor: "@ + f.path@ + ": "@ + f.result->Err_0@,
                )
                &&& on_error == OnError::Fail || files.len() == 1 ==> forall|j: int|
                    0 <= j < files.len() ==> (#[trigger] files[j]).result is Ok
            },
            Err(m) => (on_error == OnError::Fail || files.len() == 1) && exists|i: int|
                0 <= i < files.len() && (#[trigger] files[i]).result is Err && m == "doctor: "@
                    + files[i].path@ + ": "@ + files[i].result->Err_0@ && forall|j: int|
                    0 <= j < i ==> (#[trigger] files[j]).result is Ok,
        },
{
    lemma_gathered(files, on_error, files.len() as int);
    assert(files.take(files.len() as int) =~= files);
}

/// Texts are ordered as a dictionary orders them: at the first character where they differ, or
/// the shorter first where it is the beginning of the other.
pub proof fn law_names_are_ordered(a: Seq<char>, b: Seq<char>, c: Seq<char>, x: char, y: char)
    ensures
        comes_before(a, a + seq![x] + c),
        x < y ==> comes_before(a + seq![x] + b, a + seq![y] + c),
        x < y ==> !comes_before(a + seq![y] + c, a + seq![x] + b),
        !comes_before(a, a),
        !comes_before(a + seq![x] + c, a),
    decreases a.len(),
{
    let (p, q, r) = (a + seq![x] + c, a + seq![x] + b, a + seq![y] + c);
    if a.len() == 0 {
        assert(p[0] == x && q[0] == x && r[0] == y);
    } else {
        let t = a.drop_first();
        law_names_are_ordered(t, b, c, x, y);
        assert(p.drop_first() =~= t + seq![x] + c);
        assert(q.drop_first() =~= t + seq![x] + b);
        assert(r.drop_first() =~= t + seq![y] + c);
        assert(p[0] == a[0] && q[0] == a[0] && r[0] == a[0]);
    }
}

proof fn lemma_before_or_after(a: Seq<char>, b: Seq<char>)
    ensures
        a != b ==> comes_before(a, b) || comes_before(b, a),
    decreases a.len(),
{
    if a.len() > 0 && b.len() > 0 && a[0] == b[0] {
        lemma_before_or_after(a.drop_first(), b.drop_first());
        if a.drop_first() == b.drop_first() {
            assert(a =~= seq![a[0]] + a.drop_first());
            assert(b =~= seq![b[0]] + b.drop_first());
        }
    } else if a.len() == 0 && b.len() == 0 {
        assert(a =~= b);
    }
}

proof fn lemma_before_is_transitive(a: Seq<char>, b: Seq<char>, c: Seq<char>)
    requires
        comes_before(a, b),
        comes_before(b, c),
    ensures
        comes_before(a, c),
    decreases a.len(),
{
    if a.len() > 0 && a[0] == b[0] && b[0] == c[0] {
        lemma_before_is_transitive(a.drop_first(), b.drop_first(), c.drop_first());
    }
}

/// Names in order, each before all that follow.
pub open spec fn are_ordered(v: Seq<Seq<char>>) -> bool {
    forall|i: int, j: int| 0 <= i < j < v.len() ==> comes_before(#[trigger] v[i], #[trigger] v[j])
}

proof fn lemma_with_name(v: Seq<Seq<char>>, name: Seq<char>)
    requires
        are_ordered(v),
    ensures
        are_ordered(with_name(v, name)),
        forall|n: Seq<char>| #[trigger]
            with_name(v, name).contains(n) <==> v.contains(n) || n == name,
    decreases v.len(),
{
    let w = with_name(v, name);
    if v.len() == 0 {
        assert(w[0] == name);
    } else if v[0] == name {
        assert(v.contains(v[0]));
    } else if comes_before(name, v[0]) {
        assert(w =~= seq![name] + v);
        assert forall|i: int, j: int| 0 <= i < j < w.len() implies comes_before(
            #[trigger] w[i],
            #[trigger] w[j],
        ) by {
            assert(w[j] == v[j - 1]);
            if i > 0 {
                assert(w[i] == v[i - 1]);
            } else if j > 1 {
                lemma_before_is_transitive(name, v[0], v[j - 1]);
            }
        }
        assert forall|n: Seq<char>| #[trigger] w.contains(n) <==> v.contains(n) || n == name by {
            if v.contains(n) {
                let i = choose|i: int| 0 <= i < v.len() && v[i] == n;
                assert(w[i + 1] == n);
            }
            if n == name {
                assert(w[0] == n);
            }
            if w.contains(n) && n != name {
                let i = choose|i: int| 0 <= i < w.len() && w[i] == n;
                assert(v[i - 1] == n);
            }
        }
    } else {
        let rest = v.drop_first();
        let more = with_name(rest, name);
        assert forall|i: int, j: int| 0 <= i < j < rest.len() implies comes_before(
            #[trigger] rest[i],
            #[trigger] rest[j],
        ) by {
            assert(rest[i] == v[i + 1] && rest[j] == v[j + 1]);
        }
        lemma_with_name(rest, name);
        lemma_before_or_after(name, v[0]);
        assert(w =~= seq![v[0]] + more);
        assert forall|i: int, j: int| 0 <= i < j < w.len() implies comes_before(
            #[trigger] w[i],
            #[trigger] w[j],
        ) by {
            assert(w[j] == more[j - 1]);
            if i > 0 {
                assert(w[i] == more[i - 1]);
            } else {
                assert(more.contains(more[j - 1]));
                if more[j - 1] != name {
                    let k = choose|k: int| 0 <= k < rest.len() && rest[k] == more[j - 1];
                    assert(rest[k] == v[k + 1]);
                }
            }
        }
        assert forall|n: Seq<char>| #[trigger] w.contains(n) <==> v.contains(n) || n == name by {
            if v.contains(n) {
                let i = choose|i: int| 0 <= i < v.len() && v[i] == n;
                if i == 0 {
                    assert(w[0] == n);
                } else {
                    assert(rest[i - 1] == n);
                    assert(more.contains(n));
                    let k = choose|k: int| 0 <= k < more.len() && more[k] == n;
                    assert(w[k + 1] == n);
                }
            }
            if n == name {
                assert(more.contains(n));
                let k = choose|k: int| 0 <= k < more.len() && more[k] == n;
                assert(w[k + 1] == n);
            }
            if w.contains(n) {
                let i = choose|i: int| 0 <= i < w.len() && w[i] == n;
                if i == 0 {
                    assert(v[0] == n);
                } else {
                    assert(more[i - 1] == n);
                    assert(more.contains(n));
                    if n != name {
                        let k = choose|k: int| 0 <= k < rest.len() && rest[k] == n;
                        assert(v[k + 1] == n);
                    }
                }
            }
        }
    }
}

/// The kinds that are told of are those that occur, each once and in order, and each is told of
/// with as many as are of it.
pub proof fn law_kinds_are_told_once_and_in_order(v: Seq<DoctorMatch>, name: Seq<char>)
    ensures
        are_ordered(kind_names(v)),
        kind_names(v).contains(name) <==> exists|i: int|
            0 <= i < v.len() && (#[trigger] v[i]).pattern@ == name,
        kind_count(v, name) == v.filter(|m: DoctorMatch| m.pattern@ == name).len(),
    decreases v.len(),
{
    reveal(Seq::filter);
    if v.len() > 0 {
        let rest = v.drop_last();
        law_kinds_are_told_once_and_in_order(rest, name);
        lemma_with_name(kind_names(rest), v.last().pattern@);
        if exists|i: int| 0 <= i < v.len() && (#[trigger] v[i]).pattern@ == name {
            let i = choose|i: int| 0 <= i < v.len() && (#[trigger] v[i]).pattern@ == name;
            if i < rest.len() {
                assert(rest[i] == v[i]);
            }
        }
        if kind_names(v).contains(name) {
            if name == v.last().pattern@ {
                assert(v[v.len() - 1].pattern@ == name);
            } else {
                let i = choose|i: int| 0 <= i < rest.len() && (#[trigger] rest[i]).pattern@ == name;
                assert(v[i].pattern@ == name);
            }
        }
    }
}

proof fn lemma_match_lines_add(a: Seq<DoctorMatch>, b: Seq<DoctorMatch>)
    ensures
        match_lines(a + b) == match_lines(a) + match_lines(b),
    decreases b.len(),
{
    if b.len() == 0 {
        assert(a + b =~= a);
        assert(match_lines(a) + match_lines(b) =~= match_lines(a));
    } else {
        lemma_match_lines_add(a, b.drop_last());
        assert((a + b).drop_last() =~= a + b.drop_last());
        assert((a + b).last() == b.last());
        assert(match_lines(a + b) =~= match_lines(a) + match_lines(b));
    }
}

/// Each thing that looks misread has a line of its own, with its line, column, kind and byte
/// offset; in order, and none is left out.
pub proof fn law_each_match_has_a_line(a: Seq<DoctorMatch>, m: DoctorMatch, b: Seq<DoctorMatch>)
    ensures
        match_lines(a + seq![m] + b) == match_lines(a) + ("  "@ + dec(m.line as nat) + ":"@ + dec(
            m.col as nat,
        ) + ": ["@ + m.pattern@ + "] (byte offset "@ + dec(m.byte_offset as nat) + ")\n"@)
            + match_lines(b),
        match_lines(seq![]).len() == 0,
{
    lemma_match_lines_add(a + seq![m], b);
    lemma_match_lines_add(a, seq![m]);
    assert(seq![m].drop_last() =~= seq![]);
    assert(match_lines(seq![]) =~= seq![]);
    let line = "  "@ + dec(m.line as nat) + ":"@ + dec(m.col as nat) + ": ["@ + m.pattern@
        + "] (byte offset "@ + dec(m.byte_offset as nat) + ")\n"@;
    assert(match_lines(seq![m]) =~= line);
}

proof fn lemma_replacement_lines_add(
    a: Seq<DoctorReplacementCharMatch>,
    b: Seq<DoctorReplacementCharMatch>,
)
    ensures
        replacement_lines(a + b) == replacement_lines(a) + replacement_lines(b),
    decreases b.len(),
{
    if b.len() == 0 {
        assert(a + b =~= a);
        assert(replacement_lines(a) + replacement_lines(b) =~= replacement_lines(a));
    } else {
        lemma_replacement_lines_add(a, b.drop_last());
        assert((a + b).drop_last() =~= a + b.drop_last());
        assert((a + b).last() == b.last());
        assert(replacement_lines(a + b) =~= replacement_lines(a) + replacement_lines(b));
    }
}

/// Each lost character has a line of its own, with its line, column and byte offset, and what
/// it may have been where that is known; in order, and none is left out.
pub proof fn law_each_lost_character_has_a_line(
    a: Seq<DoctorReplacementCharMatch>,
    m: DoctorReplacementCharMatch,
    b: Seq<DoctorReplacementCharMatch>,
)
    ensures
        replacement_lines(a + seq![m] + b) == replacement_lines(a) + ("  "@ + dec(m.line as nat)
            + ":"@ + dec(m.col as nat) + ": [lossy-replacement] (byte offset "@ + dec(
            m.byte_offset as nat,
        ) + ")"@ + suggestion_text(m.suggested) + "\n"@) + replacement_lines(b),
        suggestion_text(None).len() == 0,
{
    lemma_replacement_lines_add(a + seq![m], b);
    lemma_replacement_lines_add(a, seq![m]);
    assert(seq![m].drop_last() =~= seq![]);
    assert(replacement_lines(seq![]) =~= seq![]);
    let line = "  "@ + dec(m.line as nat) + ":"@ + dec(m.col as nat)
        + ": [lossy-replacement] (byte offset "@ + dec(m.byte_offset as nat) + ")"@
        + suggestion_text(m.suggested) + "\n"@;
    assert(replacement_lines(seq![m]) =~= line);
}

/// A suggestion shows the character with its code in hexadecimal digits, which stand for it.
pub proof fn law_suggestions_show_the_code(c: char)
    ensures
        suggestion_text(Some(c)) == " (suggest: U+"@ + hex_fixed(
            c as u32 as nat,
            code_width(c),
            true,
        ) + " '"@ + seq![c] + "')"@,
        number(hex_fixed(c as u32 as nat, code_width(c), true), true, u32::MAX as nat) == Ok::<
            nat,
            NumError,
        >(c as u32 as nat),
        code_width(c) >= 4,
{
    vstd::arithmetic::power::lemma_pow0(16);
    assert(vstd::arithmetic::power::pow(16, 4) == 0x10000 && vstd::arithmetic::power::pow(16, 5)
        == 0x100000 && vstd::arithmetic::power::pow(16, 6) == 0x1000000) by {
        reveal_with_fuel(vstd::arithmetic::power::pow, 7);
    }
    law_hex_digits_stand_for_their_number(
        c as u32 as nat,
        code_width(c),
        true,
        u32::MAX as nat,
    );
}

proof fn lemma_issues_text_add(a: Seq<DoctorIssue>, b: Seq<DoctorIssue>, fix: bool)
    ensures
        issues_text(a + b, fix) == issues_text(a, fix) + issues_text(b, fix),
    decreases b.len(),
{
    if b.len() == 0 {
        assert(a + b =~= a);
        assert(issues_text(a, fix) + issues_text(b, fix) =~= issues_text(a, fix));
    } else {
        lemma_issues_text_add(a, b.drop_last(), fix);
        assert((a + b).drop_last() =~= a + b.drop_last());
        assert((a + b).last() == b.last());
        assert(issues_text(a + b, fix) =~= issues_text(a, fix) + issues_text(b, fix));
    }
}

/// A report shows every issue, in order, and closes with its counts; a quiet one shows the
/// counts alone, and they are the same.
pub proof fn law_a_report_shows_every_issue(
    report: DoctorReport,
    a: Seq<DoctorIssue>,
    issue: DoctorIssue,
    b: Seq<DoctorIssue>,
)
    requires
        report.issues@ == a + seq![issue] + b,
    ensures
        human_report(report, false) == issues_text(a, report.eol_fix_requested) + issue_text(
            issue,
            report.eol_fix_requested,
        ) + issues_text(b, report.eol_fix_requested) + human_report(report, true),
        human_report(report, true) == "doctor: scanned "@ + dec(report.total_files_scanned as nat)
            + " file(s), "@ + dec(
            report.issues@.filter(|i: DoctorIssue| i.problem()).len(),
        ) + " flagged, "@ + dec(report.total_repaired as nat) + " repaired\n"@,
{
    let fix = report.eol_fix_requested;
    lemma_issues_text_add(a + seq![issue], b, fix);
    lemma_issues_text_add(a, seq![issue], fix);
    assert(seq![issue].drop_last() =~= seq![]);
    assert(issues_text(seq![], fix) =~= seq![]);
    assert(issues_text(seq![issue], fix) =~= issue_text(issue, fix));
    let line = summary_line(report);
    assert(Seq::<char>::empty() + line =~= line);
}

/// What is shown of an issue: that its bytes are invalid, and nothing else, where they are; and
/// otherwise what looks misread, what was lost and what is wrong with its line endings, each
/// where, and only where, there is any.
pub proof fn law_what_is_wrong_is_shown(issue: DoctorIssue, fix: bool)
    ensures
        !issue.valid_in_detected_encoding ==> issue_text(issue, fix) == issue.path@
            + ": invalid bytes in detected encoding ("@ + issue.encoding_detected@ + ")\n"@,
        issue.valid_in_detected_encoding ==> issue_text(issue, fix) == match_text(issue)
            + replacement_text(issue) + eol_text(issue, fix),
        issue.mojibake_matches@.len() == 0 ==> match_text(issue).len() == 0,
        issue.replacement_char_matches@.len() == 0 ==> replacement_text(issue).len() == 0,
        issue.eol_mismatch is None ==> eol_text(issue, fix).len() == 0,
        issue.mojibake_matches@.len() > 0 ==> has_prefix(
            match_text(issue),
            issue.path@ + ": "@ + dec(issue.mojibake_matches@.len()) + " ("@,
        ),
        issue.replacement_char_matches@.len() > 0 ==> has_prefix(
            replacement_text(issue),
            issue.path@ + ": "@ + dec(issue.replacement_char_matches@.len())
                + " lossy-replacement char"@,
        ),
        issue.eol_mismatch matches Some(m) ==> has_prefix(
            eol_text(issue, fix),
            issue.path@ + ": line endings ("@ + ending_name(m.actual)
                + ") differ from git's expected "@ + ending_name(m.expected),
        ),
{
    if issue.mojibake_matches@.len() > 0 {
        let p = issue.path@ + ": "@ + dec(issue.mojibake_matches@.len()) + " ("@;
        assert(match_text(issue).take(p.len() as int) =~= p);
    }
    if issue.replacement_char_matches@.len() > 0 {
        let p = issue.path@ + ": "@ + dec(issue.replacement_char_matches@.len())
            + " lossy-replacement char"@;
        assert(replacement_text(issue).take(p.len() as int) =~= p);
    }
    if issue.eol_mismatch is Some {
        let m = issue.eol_mismatch->0;
        let p = issue.path@ + ": line endings ("@ + ending_name(m.actual)
            + ") differ from git's expected "@ + ending_name(m.expected);
        assert(eol_text(issue, fix).take(p.len() as int) =~= p);
    }
}

/// Repairing line endings leaves those of one kind alone, and changes nothing but line endings:
/// normalised, the bytes are the same as before.
pub proof fn law_eol_repair_changes_line_endings_alone(bytes: Seq<u8>, target: LineEnding)
    ensures
        only_ending(with_endings(bytes, target), target),
        to_lf(with_endings(bytes, target)) == to_lf(bytes),
{
    law_to_lf_lacks_cr(bytes);
    law_converted_bytes_have_one_ending(to_lf(bytes), target);
    law_normalize_undoes_denormalize(to_lf(bytes), EncodingKind::Utf8, target);
}

/// A file is reported where, and only where, something is wrong with it that it does not ask to
/// be passed over: invalid bytes always; what looks misread, and lost characters, unless the
/// text allows them; and line endings unless it is UTF-16.
pub proof fn law_what_is_wrong_is_reported(body: BodyModel, f: Findings, eol: Option<EolMismatch>)
    ensures
        body.malformed ==> !is_clean(body, f, eol),
        !f.allowed && f.matches@.len() > 0 ==> !is_clean(body, f, eol),
        !f.allowed && !f.replacements_allowed && f.replacements@.len() > 0 ==> !is_clean(
            body,
            f,
            eol,
        ),
        eol is Some && !has_prefix(body.encoding, "UTF-16"@) ==> !is_clean(body, f, eol),
        !is_clean(body, f, eol) ==> body.malformed || (!f.allowed && f.matches@.len() > 0) || (
        !f.allowed && !f.replacements_allowed && f.replacements@.len() > 0) || (eol is Some
            && !has_prefix(body.encoding, "UTF-16"@)),
{
}

/// An issue tells of just what was found: of all that looks misread and was lost, in order,
/// unless the text allows it or its bytes are invalid; of a repair only where something looks
/// misread; and it claims none yet.
pub proof fn law_an_issue_tells_what_was_found(
    issue: DoctorIssue,
    path: Seq<char>,
    body: BodyModel,
    f: Findings,
    eol: Option<EolMismatch>,
)
    requires
        is_issue(issue, path, body, f, eol),
    ensures
        issue.path@ == path,
        issue.encoding_detected@ == body.encoding,
        issue.valid_in_detected_encoding == !body.malformed,
        !issue.repaired && !issue.eol_repaired,
        body.malformed || f.allowed ==> issue.mojibake_matches@.len() == 0
            && issue.replacement_char_matches@.len() == 0 && issue.peel_suggested is None,
        !body.malformed && !f.allowed ==> {
            &&& issue.mojibake_matches@.len() == f.matches@.len()
            &&& issue.replacement_char_matches@.len() == (if f.replacements_allowed {
                0
            } else {
                f.replacements@.len()
            })
            &&& f.matches@.len() == 0 ==> issue.peel_suggested is None
            &&& f.matches@.len() > 0 ==> opt_string(issue.peel_suggested) == opt_string(f.peeled)
            &&& forall|i: int|
                0 <= i < f.matches@.len() && is_placed(body.text, match_offsets(f.matches@), i)
                    ==> (#[trigger] issue.mojibake_matches@[i]).byte_offset
                    == f.matches@[i].byte_offset && issue.mojibake_matches@[i].pattern@
                    == f.matches@[i].pattern@
        },
        issue.eol_mismatch == (if has_prefix(body.encoding, "UTF-16"@) {
            None
        } else {
            eol
        }),
{
    if !body.malformed && !f.allowed {
        assert forall|i: int|
            0 <= i < f.matches@.len() && is_placed(
                body.text,
                match_offsets(f.matches@),
                i,
            ) implies (#[trigger] issue.mojibake_matches@[i]).byte_offset
            == f.matches@[i].byte_offset && issue.mojibake_matches@[i].pattern@
            == f.matches@[i].pattern@ by {
            assert(is_match_at(body.text, f.matches@, i, issue.mojibake_matches@[i]));
        }
    }
}

/// The kinds are summed up one behind the other, each with as many as are of it.
pub proof fn law_kinds_are_summed_up(v: Seq<DoctorMatch>, names: Seq<Seq<char>>, name: Seq<char>)
    ensures
        kind_summary(v, seq![name]) == name + "="@ + dec(kind_count(v, name)),
        names.len() > 0 ==> kind_summary(v, names.push(name)) == kind_summary(v, names) + " "@ + name
            + "="@ + dec(kind_count(v, name)),
{
    reveal_strlit("");
    let none = Seq::<Seq<char>>::empty();
    assert(seq![name].drop_last() =~= none);
    assert(kind_summary(v, none) =~= seq![]);
    assert(seq![name].last() == name);
    assert(kind_summary(v, seq![name]) =~= name + "="@ + dec(kind_count(v, name)));
    assert(names.push(name).drop_last() =~= names);
    assert(names.push(name).last() == name);
}

/// What is repaired: misread text only where some was found and undoing it makes it better, and
/// line endings only where they disagree with what is expected and single bytes tell them.
pub proof fn law_what_can_be_repaired(issue: DoctorIssue)
    ensures
        peelable(issue) <==> issue.mojibake_matches@.len() > 0 && issue.peel_suggested is Some,
        eol_fixable(issue) <==> issue.eol_mismatch is Some && !has_prefix(
            issue.encoding_detected@,
            "UTF-16"@,
        ),
{
}

/// A file that was taken for another single-byte encoding, but is valid UTF-8 without NUL, is
/// looked at as UTF-8, and nothing in it is malformed; one that was taken for UTF-16 is not.
pub proof fn law_utf8_is_looked_at_as_utf8(bytes: Seq<u8>)
    requires
        source_of(bytes) is Ok,
    ensures
        ({
            let info = source_of(bytes)->Ok_0;
            let body = bytes.skip(info.bom_len as int);
            let name = info.encoding.name();
            &&& valid_utf8(body) && (forall|i: int|
                0 <= i < body.len() ==> #[trigger] body[i] != 0) && name != "UTF-8"@
                && !has_prefix(name, "UTF-16"@) ==> body_of(bytes) == Ok::<BodyModel, Seq<char>>(
                BodyModel { encoding: "UTF-8"@, text: decode_utf8(body), malformed: false },
            )
            &&& has_prefix(name, "UTF-16"@) || name == "UTF-8"@ ==> (body_of(bytes) matches Ok(b)
                ==> b.encoding == name && whatwg_sniffing(name, body) == Some((b.text, b.malformed)))
        }),
{
}

/// Lost characters are told of with what was found of them, in order; line and column are zero
/// where they cannot be placed.
pub proof fn law_lost_characters_are_told(
    text: Seq<char>,
    raw: Seq<RawReplacement>,
    v: Seq<DoctorReplacementCharMatch>,
    i: int,
)
    requires
        are_replacements(text, raw, v),
        0 <= i < raw.len(),
    ensures
        v.len() == raw.len(),
        v[i].byte_offset == raw[i].byte_offset,
        v[i].context@ == raw[i].context@,
        v[i].suggested == raw[i].suggested,
        is_placed(text, replacement_offsets(raw), i) ==> is_place(
            text,
            raw[i].byte_offset as nat,
            v[i].line as nat,
            v[i].col as nat,
        ),
        !is_placed(text, replacement_offsets(raw), i) ==> v[i].line == 0 && v[i].col == 0,
{
    assert(is_replacement_at(text, raw, i, v[i]));
}

} // verus!
