//! The last lines or bytes of a file.

use vstd::prelude::*;
use vstd::string::*;
use vstd::utf8::*;

use crate::cmd::head::{
    content_text, ends_closed, head_lines, is_closed, lemma_nothing_shown, show_lines, shown_lines,
    HeadOutput,
};
use crate::encoding::{ending_text, only_ending, text_lf_to, EncodingKind, LineEnding};
use crate::encoding_laws::{
    law_native_conversion_is_text_conversion, law_one_ending_comes_back, lemma_utf8_add,
};
use crate::lines::{
    joined, law_lines_make_up_the_text, lemma_joined_push, lemma_lines_lack_lf, split_lines,
    text_lines, texts,
};
use crate::num::dec;
use crate::source::{
    bom_length, has_ending, lacks_nul, show_text, shown_text, source_of, VIEW_CEILING,
};

verus! {

/// How much to show.
#[derive(Debug, Clone, Copy)]
pub enum TailMode {
    /// The last `n` lines, with their numbers where asked for.
    Lines {
        /// The number of lines.
        n: usize,
        /// Whether to show the line numbers.
        numbers: bool,
    },
    /// The last `n` bytes.
    Bytes {
        /// The number of bytes.
        n: u64,
    },
}

/// The last lines of a text.
pub open spec fn tail_lines(text: Seq<char>, n: int, numbers: bool, ending: LineEnding) -> Seq<char> {
    let lines = text_lines(text);
    shown_lines(
        lines,
        if n < lines.len() {
            lines.len() - n
        } else {
            0
        },
        lines.len() as int,
        numbers,
        ending,
        is_closed(text),
    )
}

/// The last lines of a text with LF line endings.
pub fn run_lines(text: &str, n: usize, numbers: bool, ending: LineEnding) -> (r: String)
    ensures
        r@ == tail_lines(text@, n as int, numbers, ending),
{
    let lines = split_lines(text);
    proof {
        assert(texts(lines@).len() == lines@.len());
    }
    let len: usize = lines.len();
    let start: usize = if n < len {
        len - n
    } else {
        0
    };
    show_lines(&lines, start, len, numbers, ending, ends_closed(text))
}

/// The last `n` bytes.
pub open spec fn tail_bytes(file: Seq<u8>, n: u64) -> Seq<u8> {
    if n < file.len() {
        file.skip(file.len() - n)
    } else {
        file
    }
}

fn run_bytes(file: &[u8], n: u64) -> (r: Vec<u8>)
    ensures
        r@ == tail_bytes(file@, n),
{
    let len: usize = file.len();
    let start: usize = if n < len as u64 {
        len - n as usize
    } else {
        0
    };
    let mut out: Vec<u8> = Vec::new();
    out.extend_from_slice(vstd::slice::slice_subrange(file, start, len));
    proof {
        assert(out@ =~= tail_bytes(file@, n));
    }
    out
}

/// Show the last lines or bytes of a file. Lines are shown in UTF-8, with the
/// file's line ending; bytes as they are.
pub fn run(file: &[u8], mode: TailMode) -> (r: Result<HeadOutput, String>)
    ensures
        match mode {
            TailMode::Bytes { n } => r matches Ok(o) && o.bytes@ == tail_bytes(file@, n)
                && o.text is None,
            TailMode::Lines { n, numbers } => if file@.len() == 0 {
                r matches Ok(o) && o.bytes@.len() == 0 && o.text is None
            } else {
                match (source_of(file@), shown_text(file@)) {
                    (Ok(info), Ok(text)) => r matches Ok(o) && o.bytes@ == encode_utf8(
                        tail_lines(text, n as int, numbers, info.line_ending),
                    ) && o.text is Some && o.text->0@ == text,
                    _ => r is Err && shown_text(file@) == Err::<Seq<char>, Seq<char>>(r->Err_0@),
                }
            },
        },
        valid_utf8(file@) && lacks_nul(file@) && file@.len() <= VIEW_CEILING ==> r is Ok && match mode {
            TailMode::Bytes { .. } => true,
            TailMode::Lines { n, numbers } => forall|e: LineEnding| #[trigger]
                has_ending(file@, e) ==> r->Ok_0.bytes@ == encode_utf8(
                    tail_lines(content_text(file@), n as int, numbers, e),
                ),
        },
{
    match mode {
        TailMode::Bytes { n } => Ok(HeadOutput { bytes: run_bytes(file, n), text: None }),
        TailMode::Lines { n, numbers } => {
            if file.len() == 0 {
                proof {
                    lemma_nothing_shown(file@);
                }
                return Ok(HeadOutput { bytes: Vec::new(), text: None });
            }
            match show_text(file) {
                Ok(shown) => {
                    let lines = run_lines(shown.text.as_str(), n, numbers, shown.line_ending);
                    let mut bytes: Vec<u8> = Vec::new();
                    bytes.extend_from_slice(lines.as_str().as_bytes());
                    proof {
                        assert(bytes@ =~= encode_utf8(lines@));
                    }
                    Ok(HeadOutput { bytes, text: Some(shown.text) })
                },
                Err(m) => Err(m),
            }
        },
    }
}

// ── Laws ────────────────────────────────────────────────────────────────────

proof fn lemma_shown_add(
    lines: Seq<Seq<char>>,
    a: int,
    b: int,
    c: int,
    ending: LineEnding,
    closed: bool,
)
    requires
        a <= b <= c,
    ensures
        shown_lines(lines, a, c, false, ending, closed) == shown_lines(
            lines,
            a,
            b,
            false,
            ending,
            closed,
        ) + shown_lines(lines, b, c, false, ending, closed),
    decreases c - b,
{
    let whole = shown_lines(lines, a, c, false, ending, closed);
    let first = shown_lines(lines, a, b, false, ending, closed);
    let second = shown_lines(lines, b, c, false, ending, closed);
    if b < c {
        lemma_shown_add(lines, a, b, c - 1, ending, closed);
        assert(whole =~= first + second);
    } else {
        assert(whole =~= first + second);
    }
}

proof fn lemma_lf_to_add(a: Seq<char>, b: Seq<char>, e: LineEnding)
    ensures
        text_lf_to(a + b, e) == text_lf_to(a, e) + text_lf_to(b, e),
    decreases a.len(),
{
    if a.len() == 0 {
        assert(a + b =~= b);
        assert(text_lf_to(a, e) + text_lf_to(b, e) =~= text_lf_to(b, e));
    } else {
        assert((a + b).skip(1) =~= a.skip(1) + b);
        lemma_lf_to_add(a.skip(1), b, e);
        assert(text_lf_to(a + b, e) =~= text_lf_to(a, e) + text_lf_to(b, e));
    }
}

proof fn lemma_lf_to_line(a: Seq<char>, e: LineEnding)
    requires
        forall|i: int| 0 <= i < a.len() ==> #[trigger] a[i] != '\n',
    ensures
        text_lf_to(a, e) == a,
    decreases a.len(),
{
    if a.len() > 0 {
        let rest = a.skip(1);
        assert forall|i: int| 0 <= i < rest.len() implies #[trigger] rest[i] != '\n' by {
            assert(rest[i] == a[i + 1]);
        }
        lemma_lf_to_line(rest, e);
        assert(seq![a[0]] + rest =~= a);
    } else {
        assert(text_lf_to(a, e) =~= a);
    }
}

proof fn lemma_shown_is_joined(
    lines: Seq<Seq<char>>,
    k: int,
    ending: LineEnding,
    closed: bool,
)
    requires
        0 <= k <= lines.len(),
        k < lines.len() || closed,
        forall|i: int, j: int|
            0 <= i < lines.len() && 0 <= j < lines[i].len() ==> #[trigger] lines[i][j] != '\n',
    ensures
        shown_lines(lines, 0, k, false, ending, closed) == text_lf_to(
            joined(lines.take(k)),
            ending,
        ),
    decreases k,
{
    if k == 0 {
        assert(lines.take(0) =~= seq![]);
        assert(shown_lines(lines, 0, k, false, ending, closed) =~= text_lf_to(
            joined(lines.take(k)),
            ending,
        ));
    } else {
        let before = lines.take(k - 1);
        let last = lines[k - 1];
        let lf = seq!['\n'];
        lemma_shown_is_joined(lines, k - 1, ending, closed);
        assert(lines.take(k) =~= before.push(last));
        lemma_joined_push(before, last);
        lemma_lf_to_add(joined(before) + last, lf, ending);
        lemma_lf_to_add(joined(before), last, ending);
        assert forall|j: int| 0 <= j < last.len() implies #[trigger] last[j] != '\n' by {
            assert(lines[k - 1][j] != '\n');
        }
        lemma_lf_to_line(last, ending);
        assert(lf.skip(1) =~= seq![]);
        assert(text_lf_to(lf.skip(1), ending) =~= seq![]);
        assert(text_lf_to(lf, ending) =~= ending_text(ending));
        assert(shown_lines(lines, 0, k, false, ending, closed) =~= text_lf_to(
            joined(lines.take(k)),
            ending,
        ));
    }
}

/// All lines of a text, with a line ending, are the text with that line ending.
proof fn lemma_all_shown(text: Seq<char>, ending: LineEnding)
    ensures
        shown_lines(
            text_lines(text),
            0,
            text_lines(text).len() as int,
            false,
            ending,
            is_closed(text),
        ) == text_lf_to(text, ending),
{
    let lines = text_lines(text);
    let n = lines.len() as int;
    law_lines_make_up_the_text(text);
    lemma_lines_lack_lf(text);
    if is_closed(text) {
        lemma_shown_is_joined(lines, n, ending, true);
        assert(lines.take(n) =~= lines);
    } else {
        if n == 0 {
            assert(joined(lines) =~= seq![]);
            assert((text + seq!['\n']).len() > 0);
        }
        let before = lines.take(n - 1);
        let last = lines[n - 1];
        lemma_shown_is_joined(lines, n - 1, ending, false);
        assert(lines =~= before.push(last));
        lemma_joined_push(before, last);
        assert(text =~= joined(before) + last) by {
            let all = text + seq!['\n'];
            assert(all.drop_last() =~= text);
            assert((joined(before) + last + seq!['\n']).drop_last() =~= joined(before) + last);
        }
        lemma_lf_to_add(joined(before), last, ending);
        assert forall|j: int| 0 <= j < last.len() implies #[trigger] last[j] != '\n' by {
            assert(lines[n - 1][j] != '\n');
        }
        lemma_lf_to_line(last, ending);
        assert(shown_lines(lines, 0, n, false, ending, false) =~= text_lf_to(text, ending));
    }
}

/// The first lines of a text and the last ones that remain make up the text, with the
/// given line ending: no line is lost or doubled, and none is added.
pub proof fn law_head_and_tail_make_up_the_text(text: Seq<char>, n: int, ending: LineEnding)
    requires
        0 <= n <= text_lines(text).len(),
    ensures
        head_lines(text, n, false, ending) + tail_lines(
            text,
            text_lines(text).len() - n,
            false,
            ending,
        ) == text_lf_to(text, ending),
{
    let lines = text_lines(text);
    lemma_shown_add(lines, 0, n, lines.len() as int, ending, is_closed(text));
    lemma_all_shown(text, ending);
}

/// The first lines of a file and the last ones that remain are the bytes of the file, where
/// it is UTF-8 without a byte-order mark and its line endings are of one kind.
pub proof fn law_head_and_tail_make_up_the_file(file: Seq<u8>, n: int, ending: LineEnding)
    requires
        valid_utf8(file),
        bom_length(file) == 0,
        only_ending(file, ending),
        0 <= n <= text_lines(content_text(file)).len(),
    ensures
        encode_utf8(head_lines(content_text(file), n, false, ending)) + encode_utf8(
            tail_lines(
                content_text(file),
                text_lines(content_text(file)).len() - n,
                false,
                ending,
            ),
        ) == file,
{
    let text = content_text(file);
    let x = decode_utf8(file);
    assert(file.skip(0) =~= file);
    law_head_and_tail_make_up_the_text(text, n, ending);
    let h = head_lines(text, n, false, ending);
    let t = tail_lines(text, text_lines(text).len() - n, false, ending);
    lemma_utf8_add(h, t);
    law_native_conversion_is_text_conversion(text, EncodingKind::Utf8, ending);
    law_native_conversion_is_text_conversion(x, EncodingKind::Utf8, ending);
    decode_utf8_encode_utf8(file);
    law_one_ending_comes_back(file, ending);
}

/// The last lines keep the numbers that they have in the file: the numbered first lines and
/// the numbered last ones that remain are all lines numbered.
pub proof fn law_the_last_lines_keep_their_numbers(text: Seq<char>, n: int, ending: LineEnding)
    requires
        0 <= n <= text_lines(text).len(),
    ensures
        ({
            let count = text_lines(text).len() as int;
            head_lines(text, n, true, ending) + tail_lines(text, count - n, true, ending)
                == head_lines(text, count, true, ending)
        }),
{
    let lines = text_lines(text);
    lemma_shown_split(lines, n, lines.len() as int, ending, is_closed(text));
}

proof fn lemma_shown_split(
    lines: Seq<Seq<char>>,
    n: int,
    end: int,
    ending: LineEnding,
    closed: bool,
)
    requires
        0 <= n <= end,
    ensures
        shown_lines(lines, 0, n, true, ending, closed) + shown_lines(
            lines,
            n,
            end,
            true,
            ending,
            closed,
        ) == shown_lines(lines, 0, end, true, ending, closed),
    decreases end - n,
{
    let front = shown_lines(lines, 0, n, true, ending, closed);
    if n < end {
        lemma_shown_split(lines, n, end - 1, ending, closed);
        let back = shown_lines(lines, n, end - 1, true, ending, closed);
        assert(front + (back + dec(end as nat) + seq!['\t'] + lines[end - 1] + seq!['\n']) =~= (
        front + back) + dec(end as nat) + seq!['\t'] + lines[end - 1] + seq!['\n']);
    } else {
        assert(front + shown_lines(lines, n, end, true, ending, closed) =~= front);
    }
}

/// The last bytes of a file are as many as asked for, or all of them where there are fewer,
/// and behind the first ones that remain they make up the file.
pub proof fn law_the_last_bytes_end_the_file(file: Seq<u8>, n: u64)
    ensures
        tail_bytes(file, n).len() == (if n < file.len() {
            n as nat
        } else {
            file.len()
        }),
        file.take(file.len() - tail_bytes(file, n).len()) + tail_bytes(file, n) == file,
{
    assert(file.take(file.len() - tail_bytes(file, n).len()) + tail_bytes(file, n) =~= file);
}

} // verus!
