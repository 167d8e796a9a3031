//! Showing a file as a single line of 7-bit printable ASCII.

use vstd::prelude::*;
use vstd::string::*;
use vstd::utf8::*;

use crate::cmd::read::{
    bom_wanted, byte_selection, can_select, encode_output, line_prefix, push_line_prefix,
    run_binary as read_binary, select, selectable, selection, with_bom, ReadOutput,
};
use crate::encoding::{should_write_bom, BomPolicy, OutputEncoding};
use crate::escape::{
    all_printable, encode, escape_bytes, escape_text, law_escape_text_is_printable,
    law_text_round_trip, unescape_text, DecodeError,
};
use crate::lines::{joined, lemma_joined_push, split_lines, text_lines, texts};
use crate::num::dec;
use crate::source::{bom_length, show_text, shown_text};

verus! {

/// The lines from `start` up to `end`, escaped, each followed by an escaped line
/// feed, with their numbers where asked for.
pub open spec fn flat(lines: Seq<Seq<char>>, start: int, end: int, numbers: bool) -> Seq<char>
    decreases end - start,
{
    if start >= end {
        seq![]
    } else {
        flat(lines, start, end - 1, numbers) + (if numbers {
            line_prefix(end as nat)
        } else {
            seq![]
        }) + escape_text(lines[end - 1]) + seq!['\\', 'n']
    }
}

/// The lines of a text that a range selects, on one line: escaped, and ended by
/// LF.
pub fn flatten_lines(text: &str, range: Option<(usize, usize)>, numbers: bool) -> (r: String)
    requires
        selectable(range, text_lines(text@).len() as int),
    ensures
        ({
            let (start, end) = selection(range, text_lines(text@).len() as int);
            r@ == flat(text_lines(text@), start, end, numbers).push('\n')
        }),
{
    let lines = split_lines(text);
    let ghost views = text_lines(text@);
    proof {
        assert(texts(lines@).len() == lines@.len());
    }
    let (start, end) = select(range, lines.len());
    let mut out = String::new();
    let mut i: usize = start;
    while i < end
        invariant
            start <= i <= end <= lines@.len(),
            texts(lines@) == views,
            out@ == flat(views, start as int, i as int, numbers),
        decreases end - i,
    {
        if numbers {
            push_line_prefix(&mut out, (i + 1) as u64);
        }
        out.push_str(encode(lines[i].as_str()).as_str());
        out.push('\\');
        out.push('n');
        proof {
            assert(views[i as int] == lines@[i as int]@);
            assert(out@ =~= flat(views, start as int, i + 1, numbers));
        }
        i = i + 1;
    }
    out.push('\n');
    out
}

/// What is shown of a file: nothing of an empty file, and the selected lines of
/// any other; on one line.
pub open spec fn is_flat_output(
    o: ReadOutput,
    file: Seq<u8>,
    text: Seq<char>,
    range: Option<(usize, usize)>,
    numbers: bool,
    write_bom: bool,
) -> bool {
    let (start, end) = selection(range, text_lines(text).len() as int);
    &&& o.text@ == text
    &&& o.bytes@ == with_bom(write_bom, flat(text_lines(text), start, end, numbers).push('\n'))
}

/// Show a file as a single line of printable ASCII: all of it, or a range of its
/// lines. `None` where the range begins behind the last line and behind its own
/// end. An empty file gives an empty line, behind a byte-order mark where that is
/// forced.
pub fn run(
    file: &[u8],
    range: Option<(usize, usize)>,
    numbers: bool,
    output_encoding: OutputEncoding,
    bom_policy: BomPolicy,
) -> (r: Result<Option<ReadOutput>, String>)
    ensures
        file@.len() == 0 ==> (r matches Ok(Some(o)) && o.text@.len() == 0 && o.bytes@ == with_bom(
            bom_wanted(output_encoding, bom_policy, false),
            seq!['\n'],
        )),
        file@.len() > 0 ==> match shown_text(file@) {
            Err(m) => r is Err && r->Err_0@ == m,
            Ok(text) => match r {
                Ok(Some(o)) => selectable(range, text_lines(text).len() as int) && is_flat_output(
                    o,
                    file@,
                    text,
                    range,
                    numbers,
                    bom_wanted(output_encoding, bom_policy, bom_length(file@) > 0),
                ),
                Ok(None) => !selectable(range, text_lines(text).len() as int),
                Err(_) => false,
            },
        },
{
    if file.len() == 0 {
        let mut line = String::new();
        line.push('\n');
        proof {
            assert(line@ =~= seq!['\n']);
        }
        let write_bom = should_write_bom(output_encoding, bom_policy, false);
        let bytes = encode_output(write_bom, line.as_str());
        return Ok(Some(ReadOutput { bytes, text: String::new() }));
    }
    match show_text(file) {
        Err(m) => Err(m),
        Ok(shown) => {
            if !can_select(shown.text.as_str(), range) {
                return Ok(None);
            }
            let body = flatten_lines(shown.text.as_str(), range, numbers);
            let write_bom = should_write_bom(output_encoding, bom_policy, shown.had_bom);
            let bytes = encode_output(write_bom, body.as_str());
            Ok(Some(ReadOutput { bytes, text: shown.text }))
        },
    }
}

/// Show a range of a file's bytes, escaped, on a line.
pub fn run_binary(file: &[u8], range: Option<(u64, u64)>) -> (r: String)
    requires
        byte_selection(range, file@.len() as int).0 <= byte_selection(range, file@.len() as int).1,
    ensures
        r@ == escape_bytes(
            file@.subrange(
                byte_selection(range, file@.len() as int).0,
                byte_selection(range, file@.len() as int).1,
            ),
        ).push('\n'),
{
    let mut out = read_binary(file, range);
    out.push('\n');
    out
}

// ── Laws ────────────────────────────────────────────────────────────────────

proof fn lemma_dec_printable(n: nat)
    ensures
        all_printable(dec(n)),
    decreases n,
{
    if n >= 10 {
        lemma_dec_printable(n / 10);
    }
}

/// What is shown is printable ASCII, so that it stays on one line.
pub proof fn law_flat_is_printable(lines: Seq<Seq<char>>, start: int, end: int, numbers: bool)
    ensures
        all_printable(flat(lines, start, end, numbers)),
    decreases end - start,
{
    if start < end {
        law_flat_is_printable(lines, start, end - 1, numbers);
        law_escape_text_is_printable(lines[end - 1]);
        lemma_dec_printable(end as nat);
        reveal_strlit("  ");
        assert(all_printable(line_prefix(end as nat)));
    }
}

proof fn lemma_escape_add(a: Seq<char>, b: Seq<char>)
    ensures
        escape_text(a + b) == escape_text(a) + escape_text(b),
    decreases a.len(),
{
    if a.len() == 0 {
        assert(a + b =~= b);
        assert(escape_text(a) + escape_text(b) =~= escape_text(b));
    } else {
        assert((a + b).drop_first() =~= a.drop_first() + b);
        lemma_escape_add(a.drop_first(), b);
        assert(escape_text(a + b) =~= escape_text(a) + escape_text(b));
    }
}

proof fn lemma_flat_is_escaped(lines: Seq<Seq<char>>, start: int, end: int)
    requires
        0 <= start <= end <= lines.len(),
    ensures
        flat(lines, start, end, false) == escape_text(joined(lines.subrange(start, end))),
    decreases end - start,
{
    if start == end {
        assert(lines.subrange(start, end) =~= seq![]);
    } else {
        let before = lines.subrange(start, end - 1);
        let last = lines[end - 1];
        let lf = seq!['\n'];
        assert(lines.subrange(start, end) =~= before.push(last));
        lemma_joined_push(before, last);
        lemma_flat_is_escaped(lines, start, end - 1);
        lemma_escape_add(joined(before), last + lf);
        lemma_escape_add(last, lf);
        assert(lf.drop_first() =~= seq![]);
        assert(escape_text(lf.drop_first()) =~= seq![]);
        assert(escape_text(lf) =~= seq!['\\', 'n']);
        assert(joined(before) + last + lf =~= joined(before) + (last + lf));
        assert(flat(lines, start, end, false) =~= escape_text(
            joined(lines.subrange(start, end)),
        ));
    }
}

/// Decoding what is shown without line numbers gives the lines back, each with its LF.
pub proof fn law_flat_decodes_to_the_lines(lines: Seq<Seq<char>>, start: int, end: int)
    requires
        0 <= start <= end <= lines.len(),
    ensures
        unescape_text(encode_utf8(flat(lines, start, end, false)), 0) == Ok::<
            Seq<char>,
            DecodeError,
        >(joined(lines.subrange(start, end))),
{
    lemma_flat_is_escaped(lines, start, end);
    law_text_round_trip(joined(lines.subrange(start, end)));
}

/// One line more shows one line more, escaped and followed by an escaped line feed, behind its
/// number where that is asked for; nothing is shown of no lines.
pub proof fn law_one_more_line_is_flattened(lines: Seq<Seq<char>>, start: int, end: int)
    requires
        0 <= start <= end < lines.len(),
    ensures
        flat(lines, start, end + 1, false) == flat(lines, start, end, false) + escape_text(
            lines[end],
        ) + seq!['\\', 'n'],
        flat(lines, start, end + 1, true) == flat(lines, start, end, true) + line_prefix(
            (end + 1) as nat,
        ) + escape_text(lines[end]) + seq!['\\', 'n'],
        flat(lines, start, start, false).len() == 0,
        flat(lines, start, start, true).len() == 0,
{
    let above = flat(lines, start, end, false);
    assert(above + Seq::<char>::empty() =~= above);
}

/// A file that is shown whole on one line, without numbers, decodes to its lines: all that is
/// shown but the LF at the end gives them back, each with its LF.
pub proof fn law_a_flat_file_decodes_to_its_lines(
    o: ReadOutput,
    file: Seq<u8>,
    text: Seq<char>,
)
    requires
        is_flat_output(o, file, text, None, false, false),
    ensures
        o.text@ == text,
        exists|shown: Seq<char>| #![trigger encode_utf8(shown.push('\n'))]
            o.bytes@ == encode_utf8(shown.push('\n')) && all_printable(shown) && unescape_text(
                encode_utf8(shown),
                0,
            ) == Ok::<Seq<char>, DecodeError>(joined(text_lines(text))),
{
    let lines = text_lines(text);
    let n = lines.len() as int;
    let shown = flat(lines, 0, n, false);
    law_flat_is_printable(lines, 0, n, false);
    law_flat_decodes_to_the_lines(lines, 0, n);
    assert(lines.subrange(0, n) =~= lines);
    assert(Seq::<u8>::empty() + encode_utf8(shown.push('\n')) =~= encode_utf8(shown.push('\n')));
    assert(o.bytes@ == encode_utf8(shown.push('\n')));
}

} // verus!
