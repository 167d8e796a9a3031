//! The first lines or bytes of a file.

use vstd::prelude::*;
use vstd::string::*;
use vstd::utf8::*;

use crate::encoding::{ending_text, text_to_lf, LineEnding};
use crate::lines::{parts, split_lines, text_lines, texts};
use crate::num::{dec, push_dec};
use crate::source::{bom_length, has_ending, lacks_nul, read_text, source_of, text_of};
use crate::text::first_pos;

verus! {

/// How much to show.
#[derive(Debug, Clone, Copy)]
pub enum HeadMode {
    /// The first `n` lines, with their numbers where asked for.
    Lines {
        /// The number of lines.
        n: usize,
        /// Whether to show the line numbers.
        numbers: bool,
    },
    /// The first `n` bytes.
    Bytes {
        /// The number of bytes.
        n: u64,
    },
}

/// The lines from `start` up to `end` of a file's lines. With numbers, each line is
/// its number, a tab, the line and LF; without, it has the file's line ending,
/// which the last line of the file has only if the file ends in one.
pub open spec fn shown_lines(
    lines: Seq<Seq<char>>,
    start: int,
    end: int,
    numbers: bool,
    ending: LineEnding,
    closed: bool,
) -> Seq<char>
    decreases end - start,
{
    if start >= end {
        seq![]
    } else {
        let above = shown_lines(lines, start, end - 1, numbers, ending, closed);
        if numbers {
            above + dec(end as nat) + seq!['\t'] + lines[end - 1] + seq!['\n']
        } else {
            above + lines[end - 1] + (if end < lines.len() || closed {
                ending_text(ending)
            } else {
                seq![]
            })
        }
    }
}

/// A text ends in LF, or has nothing at all.
pub open spec fn is_closed(text: Seq<char>) -> bool {
    text.len() == 0 || text.last() == '\n'
}

/// Appends a line ending.
pub(crate) fn push_ending(out: &mut String, ending: LineEnding)
    ensures
        final(out)@ =~= old(out)@ + ending_text(ending),
{
    match ending {
        LineEnding::Lf => {
            out.push('\n');
        },
        LineEnding::CrLf => {
            out.push('\r');
            out.push('\n');
        },
        LineEnding::Cr => {
            out.push('\r');
        },
    }
}

/// The lines from `start` up to `end`.
pub(crate) fn show_lines(
    lines: &Vec<String>,
    start: usize,
    end: usize,
    numbers: bool,
    ending: LineEnding,
    closed: bool,
) -> (r: String)
    requires
        start <= end <= lines@.len(),
    ensures
        r@ == shown_lines(texts(lines@), start as int, end as int, numbers, ending, closed),
{
    let ghost views = texts(lines@);
    let mut out = String::new();
    let mut i: usize = start;
    while i < end
        invariant
            start <= i <= end <= lines@.len(),
            views == texts(lines@),
            out@ == shown_lines(views, start as int, i as int, numbers, ending, closed),
        decreases end - i,
    {
        proof {
            assert(views[i as int] == lines@[i as int]@);
        }
        if numbers {
            push_dec(&mut out, (i + 1) as u64);
            out.push('\t');
            out.push_str(lines[i].as_str());
            out.push('\n');
        } else {
            out.push_str(lines[i].as_str());
            if i + 1 < lines.len() || closed {
                push_ending(&mut out, ending);
            }
        }
        proof {
            assert(out@ =~= shown_lines(views, start as int, i + 1, numbers, ending, closed));
        }
        i = i + 1;
    }
    out
}

/// Whether a text ends in LF, or has nothing at all.
pub(crate) fn ends_closed(text: &str) -> (r: bool)
    ensures
        r == is_closed(text@),
{
    let v = crate::text::chars_of(text);
    let n: usize = v.len();
    n == 0 || v[n - 1] == '\n'
}

/// The first lines of a text.
pub open spec fn head_lines(text: Seq<char>, n: int, numbers: bool, ending: LineEnding) -> Seq<char> {
    let lines = text_lines(text);
    shown_lines(
        lines,
        0,
        if n < lines.len() {
            n
        } else {
            lines.len() as int
        },
        numbers,
        ending,
        is_closed(text),
    )
}

/// The first lines of a text with LF line endings.
pub fn run_lines(text: &str, n: usize, numbers: bool, ending: LineEnding) -> (r: String)
    ensures
        r@ == head_lines(text@, n as int, numbers, ending),
{
    let lines = split_lines(text);
    proof {
        assert(texts(lines@).len() == lines@.len());
    }
    let take: usize = if n < lines.len() {
        n
    } else {
        lines.len()
    };
    show_lines(&lines, 0, take, numbers, ending, ends_closed(text))
}

/// The first `n` bytes.
pub open spec fn head_bytes(file: Seq<u8>, n: u64) -> Seq<u8> {
    if n < file.len() {
        file.take(n as int)
    } else {
        file
    }
}

fn run_bytes(file: &[u8], n: u64) -> (r: Vec<u8>)
    ensures
        r@ == head_bytes(file@, n),
{
    let len: usize = file.len();
    let take: usize = if n < len as u64 {
        n as usize
    } else {
        len
    };
    let mut out: Vec<u8> = Vec::new();
    out.extend_from_slice(vstd::slice::slice_subrange(file, 0, take));
    proof {
        assert(out@ =~= head_bytes(file@, n));
    }
    out
}

/// The text of a file in UTF-8, behind its byte-order mark and with LF line endings.
pub open spec fn content_text(file: Seq<u8>) -> Seq<char> {
    text_to_lf(decode_utf8(file.skip(bom_length(file) as int)))
}

/// What is shown of a file.
#[derive(Debug)]
pub struct HeadOutput {
    /// What to write out.
    pub bytes: Vec<u8>,
    /// The whole text, for advice on it, where the file was decoded.
    pub text: Option<String>,
}

/// Show the first lines or bytes of a file. Lines are shown in UTF-8, with the
/// file's line ending; bytes as they are.
pub fn run(file: &[u8], mode: HeadMode) -> (r: Result<HeadOutput, String>)
    ensures
        match mode {
            HeadMode::Bytes { n } => r matches Ok(o) && o.bytes@ == head_bytes(file@, n)
                && o.text is None,
            HeadMode::Lines { n, numbers } => if file@.len() == 0 {
                r matches Ok(o) && o.bytes@.len() == 0 && o.text is None
            } else {
                match (source_of(file@), text_of(file@)) {
                    (Ok(info), Ok(text)) => r matches Ok(o) && o.bytes@ == encode_utf8(
                        head_lines(text_to_lf(text), n as int, numbers, info.line_ending),
                    ) && o.text is Some && o.text->0@ == text_to_lf(text),
                    _ => r is Err && text_of(file@) == Err::<Seq<char>, Seq<char>>(r->Err_0@),
                }
            },
        },
        valid_utf8(file@) && lacks_nul(file@) ==> r is Ok && match mode {
            HeadMode::Bytes { .. } => true,
            HeadMode::Lines { n, numbers } => forall|e: LineEnding| #[trigger]
                has_ending(file@, e) ==> r->Ok_0.bytes@ == encode_utf8(
                    head_lines(content_text(file@), n as int, numbers, e),
                ),
        },
{
    match mode {
        HeadMode::Bytes { n } => Ok(HeadOutput { bytes: run_bytes(file, n), text: None }),
        HeadMode::Lines { n, numbers } => {
            if file.len() == 0 {
                proof {
                    lemma_nothing_shown(file@);
                }
                return Ok(HeadOutput { bytes: Vec::new(), text: None });
            }
            match read_text(file) {
                Ok(decoded) => {
                    let shown = run_lines(
                        decoded.text.as_str(),
                        n,
                        numbers,
                        decoded.line_ending,
                    );
                    let mut bytes: Vec<u8> = Vec::new();
                    bytes.extend_from_slice(shown.as_str().as_bytes());
                    proof {
                        assert(bytes@ =~= encode_utf8(shown@));
                    }
                    Ok(HeadOutput { bytes, text: Some(decoded.text) })
                },
                Err(m) => Err(m),
            }
        },
    }
}

/// Of an empty file nothing is shown.
pub proof fn lemma_nothing_shown(file: Seq<u8>)
    requires
        file.len() == 0,
    ensures
        content_text(file).len() == 0,
        text_lines(content_text(file)).len() == 0,
        forall|n: int, numbers: bool, e: LineEnding|
            encode_utf8(#[trigger] head_lines(content_text(file), n, numbers, e)).len() == 0,
{
    assert(file.skip(0).len() == 0);
    assert(content_text(file) =~= seq![]);
    let s = content_text(file);
    assert(first_pos(s, '\n') == 0);
    assert(parts(s) =~= seq![s]);
}

// ── Laws ────────────────────────────────────────────────────────────────────


/// One line more shows one line more, and keeps what is shown without it: the line with its
/// number and LF, or with the line ending that the file has, which only the last line may
/// lack. Nothing is shown of no lines, and asking for more than there are changes nothing.
pub proof fn law_one_more_line_is_shown(text: Seq<char>, n: int, ending: LineEnding)
    requires
        0 <= n,
    ensures
        ({
            let lines = text_lines(text);
            &&& n < lines.len() ==> head_lines(text, n + 1, true, ending) == head_lines(
                text,
                n,
                true,
                ending,
            ) + dec((n + 1) as nat) + seq!['\t'] + lines[n] + seq!['\n']
            &&& n < lines.len() ==> head_lines(text, n + 1, false, ending) == head_lines(
                text,
                n,
                false,
                ending,
            ) + lines[n] + (if n + 1 == lines.len() && text.len() > 0 && text.last() != '\n' {
                seq![]
            } else {
                ending_text(ending)
            })
            &&& n >= lines.len() ==> head_lines(text, n + 1, true, ending) == head_lines(
                text,
                n,
                true,
                ending,
            ) && head_lines(text, n + 1, false, ending) == head_lines(text, n, false, ending)
        }),
        head_lines(text, 0, true, ending).len() == 0,
        head_lines(text, 0, false, ending).len() == 0,
{
}

/// The first bytes of a file are as many as asked for, or all of them where there are fewer,
/// and the file begins with them.
pub proof fn law_the_first_bytes_begin_the_file(file: Seq<u8>, n: u64)
    ensures
        head_bytes(file, n).len() == (if n < file.len() {
            n as nat
        } else {
            file.len()
        }),
        head_bytes(file, n) == file.take(head_bytes(file, n).len() as int),
{
    assert(file.take(file.len() as int) =~= file);
}

} // verus!
