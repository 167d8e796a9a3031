//! Moving a block of lines from one file to another.

use vstd::prelude::*;
use vstd::string::*;
use vstd::utf8::*;

use crate::cmd::replace::without_newlines;
use crate::cmd::write::opt_bytes;
use crate::layout::{census, crlf_marks, law_census_counts_each_ending_once, TextLayout};
use crate::lines::texts;
use crate::pattern::{compile_text, is_match, text_match, text_pattern, text_pattern_error};
use crate::text::{
    chars_of, first_pos, format_str_debug, from_utf8, lemma_first_pos, lemma_first_pos_unique,
    opt_text, str_debug, string_of,
};

verus! {

/// What a move came to.
#[derive(Debug)]
pub struct MoveResult {
    /// The source file as given.
    pub source_file: String,
    /// The destination file as given.
    pub dest_file: String,
    /// The number of lines moved.
    pub moved_lines: usize,
}

/// What to write after a move.
#[derive(Debug)]
pub struct MovePlan {
    /// What the move came to.
    pub result: MoveResult,
    /// The source file's new text.
    pub source_text: String,
    /// The destination file's new text.
    pub dest_text: String,
}

/// The lines of a text, each with its line ending; what follows the last line ending
/// is a line too.
pub open spec fn raw_lines(s: Seq<char>) -> Seq<Seq<char>>
    decreases s.len(),
{
    let k = first_pos(s, '\n') as int;
    if s.len() == 0 {
        seq![]
    } else if k >= s.len() {
        seq![s]
    } else {
        seq![s.take(k + 1)] + raw_lines(s.skip(k + 1))
    }
}

/// Texts one behind the other.
pub open spec fn concat(v: Seq<Seq<char>>) -> Seq<char>
    decreases v.len(),
{
    if v.len() == 0 {
        seq![]
    } else {
        concat(v.drop_last()) + v.last()
    }
}

/// Cut a text into lines, each with its line ending.
pub fn split_raw_lines(text: &str) -> (r: Vec<String>)
    ensures
        texts(r@) == raw_lines(text@),
{
    let v = chars_of(text);
    let mut out: Vec<String> = Vec::new();
    let mut from: usize = 0;
    let mut i: usize = 0;
    proof {
        assert(v@.skip(0) =~= v@);
        assert(texts(out@) + raw_lines(v@.skip(0)) =~= raw_lines(text@));
    }
    while i < v.len()
        invariant
            v@ == text@,
            from <= i <= v@.len(),
            forall|k: int| from <= k < i ==> #[trigger] v@[k] != '\n',
            texts(out@) + raw_lines(v@.skip(from as int)) == raw_lines(text@),
        decreases v@.len() - i,
    {
        if v[i] == '\n' {
            let ghost rest = v@.skip(from as int);
            let ghost k = i - from;
            proof {
                assert forall|j: int| 0 <= j < k implies #[trigger] rest[j] != '\n' by {
                    assert(rest[j] == v@[from + j]);
                }
                assert(rest[k] == v@[i as int]);
                lemma_first_pos_unique(rest, '\n', k);
                assert(rest.take(k + 1) =~= v@.subrange(from as int, i + 1));
                assert(rest.skip(k + 1) =~= v@.skip(i + 1));
            }
            let ghost had = texts(out@);
            let line = string_of(&v, from, i + 1);
            let ghost shown = line@;
            out.push(line);
            proof {
                assert(texts(out@) =~= had.push(shown));
                assert(texts(out@) + raw_lines(v@.skip(i + 1)) =~= had + (seq![shown] + raw_lines(
                    v@.skip(i + 1),
                )));
            }
            from = i + 1;
        }
        i = i + 1;
    }
    let ghost rest = v@.skip(from as int);
    proof {
        assert forall|j: int| 0 <= j < rest.len() implies #[trigger] rest[j] != '\n' by {
            assert(rest[j] == v@[from + j]);
        }
        lemma_first_pos_unique(rest, '\n', rest.len() as int);
        assert(rest =~= v@.subrange(from as int, v@.len() as int));
    }
    let ghost had = texts(out@);
    if from < v.len() {
        out.push(string_of(&v, from, v.len()));
        proof {
            assert(texts(out@) =~= had + seq![rest]);
        }
    } else {
        proof {
            assert(texts(out@) + raw_lines(rest) =~= texts(out@));
        }
    }
    out
}

/// The index of the first line from `i` on that a pattern matches, its line ending
/// left out; the number of lines where there is none.
pub open spec fn first_match(lines: Seq<Seq<char>>, pattern: Seq<char>, i: int) -> int
    decreases lines.len() - i,
{
    if i < 0 || i >= lines.len() {
        lines.len() as int
    } else if text_match(pattern, without_newlines(lines[i])) {
        i
    } else {
        first_match(lines, pattern, i + 1)
    }
}

/// A text without the LF and CR at its end.
fn strip_newlines(s: &str) -> (r: String)
    ensures
        r@ == without_newlines(s@),
{
    let v = chars_of(s);
    let mut b: usize = v.len();
    proof {
        assert(v@.take(v@.len() as int) =~= v@);
    }
    while b > 0 && (v[b - 1] == '\n' || v[b - 1] == '\r')
        invariant
            b <= v@.len(),
            v@ == s@,
            without_newlines(v@.take(b as int)) == without_newlines(s@),
        decreases b,
    {
        proof {
            assert(v@.take(b as int).last() == v@[b - 1]);
            assert(v@.take(b as int).drop_last() =~= v@.take(b - 1));
        }
        b = b - 1;
    }
    proof {
        if b > 0 {
            assert(v@.take(b as int).last() == v@[b - 1]);
        }
        assert(v@.subrange(0, b as int) =~= v@.take(b as int));
    }
    string_of(&v, 0, b)
}

fn find_match(lines: &Vec<String>, re: &regex::Regex, from: usize) -> (r: usize)
    requires
        from <= lines@.len(),
    ensures
        r == first_match(texts(lines@), text_pattern(*re), from as int),
        from <= r <= lines@.len(),
{
    let ghost views = texts(lines@);
    let mut i: usize = from;
    while i < lines.len()
        invariant
            from <= i <= lines@.len(),
            views == texts(lines@),
            first_match(views, text_pattern(*re), i as int) == first_match(
                views,
                text_pattern(*re),
                from as int,
            ),
        decreases lines@.len() - i,
    {
        proof {
            assert(views[i as int] == lines@[i as int]@);
        }
        if is_match(re, strip_newlines(lines[i].as_str()).as_str()) {
            return i;
        }
        i = i + 1;
    }
    i
}

/// The line ending that lines made up for a move have: the one that more lines of the
/// source have, CR LF where as many have either.
pub open spec fn dominant_ending(s: Seq<char>) -> Seq<char> {
    let c = census(s);
    if c.crlf > 0 && c.crlf >= c.lf {
        seq!['\r', '\n']
    } else {
        seq!['\n']
    }
}

fn push_dominant(out: &mut String, crlf: bool)
    ensures
        final(out)@ =~= old(out)@ + (if crlf {
            seq!['\r', '\n']
        } else {
            seq!['\n']
        }),
{
    if crlf {
        out.push('\r');
    }
    out.push('\n');
}

/// A text with a line ending added where it does not end in LF.
pub open spec fn ended(s: Seq<char>, ending: Seq<char>) -> Seq<char> {
    if s.len() > 0 && s.last() == '\n' {
        s
    } else {
        s + ending
    }
}

/// The lines from `a` up to `b`, one behind the other.
pub open spec fn span_text(lines: Seq<Seq<char>>, a: int, b: int) -> Seq<char> {
    concat(lines.subrange(a, b))
}

/// What is appended to the destination: the header where there is one, and the block.
pub open spec fn moved_text(block: Seq<char>, header: Option<Seq<char>>, ending: Seq<char>) -> Seq<char> {
    ended(
        (match header {
            Some(h) => h + ending,
            None => seq![],
        }) + block,
        ending,
    )
}

/// Where the block to move begins and ends, or the message of the error.
pub open spec fn block_of(
    source_name: Seq<char>,
    lines: Seq<Seq<char>>,
    start_pat: Seq<char>,
    end_pat: Option<Seq<char>>,
) -> Result<(int, int), Seq<char>> {
    let a = first_match(lines, start_pat, 0);
    if a >= lines.len() {
        Err("start_pattern "@ + str_debug(start_pat) + " not found in "@ + source_name)
    } else {
        Ok(
            (
                a,
                match end_pat {
                    Some(p) => first_match(lines, p, a + 1),
                    None => lines.len() as int,
                },
            ),
        )
    }
}

/// The message where a pattern is invalid.
pub open spec fn pattern_failure(start_pat: Seq<char>, end_pat: Option<Seq<char>>) -> Option<Seq<char>> {
    if text_pattern_error(start_pat) is Some {
        Some("invalid --start-pattern: "@ + text_pattern_error(start_pat)->0)
    } else {
        match end_pat {
            Some(p) => match text_pattern_error(p) {
                Some(e) => Some("invalid --end-pattern: "@ + e),
                None => None,
            },
            None => None,
        }
    }
}

/// The plan for moving the lines from `a` up to `b`.
pub open spec fn is_move_plan(
    plan: MovePlan,
    source_name: Seq<char>,
    dest_name: Seq<char>,
    text: Seq<char>,
    dest: Option<Seq<char>>,
    a: int,
    b: int,
    header: Option<Seq<char>>,
) -> bool {
    let lines = raw_lines(text);
    let ending = dominant_ending(text);
    let moved = moved_text(span_text(lines, a, b), header, ending);
    &&& plan.result.source_file@ == source_name
    &&& plan.result.dest_file@ == dest_name
    &&& plan.result.moved_lines == b - a
    &&& plan.source_text@ == span_text(lines, 0, a) + span_text(lines, b, lines.len() as int)
    &&& plan.dest_text@ == (match dest {
        Some(d) => ended(d, ending) + moved,
        None => moved,
    })
}

proof fn lemma_first_match_bounds(lines: Seq<Seq<char>>, pattern: Seq<char>, i: int)
    requires
        0 <= i <= lines.len(),
    ensures
        i <= first_match(lines, pattern, i) <= lines.len(),
    decreases lines.len() - i,
{
    if i < lines.len() {
        lemma_first_match_bounds(lines, pattern, i + 1);
    }
}

/// Appends the lines from `a` up to `b`.
fn push_span(out: &mut String, lines: &Vec<String>, a: usize, b: usize)
    requires
        a <= b <= lines@.len(),
    ensures
        final(out)@ == old(out)@ + span_text(texts(lines@), a as int, b as int),
{
    let ghost start = out@;
    let ghost views = texts(lines@);
    let mut i: usize = a;
    proof {
        assert(views.subrange(a as int, a as int) =~= seq![]);
        assert(start + Seq::<char>::empty() =~= start);
    }
    while i < b
        invariant
            a <= i <= b <= lines@.len(),
            views == texts(lines@),
            out@ == start + span_text(views, a as int, i as int),
        decreases b - i,
    {
        proof {
            let next = views.subrange(a as int, i + 1);
            assert(next.drop_last() =~= views.subrange(a as int, i as int));
            assert(next.last() == lines@[i as int]@);
        }
        out.push_str(lines[i].as_str());
        proof {
            assert(out@ =~= start + span_text(views, a as int, i + 1));
        }
        i = i + 1;
    }
}

fn ends_in_lf(s: &str) -> (r: bool)
    ensures
        r == (s@.len() > 0 && s@.last() == '\n'),
{
    let v = chars_of(s);
    let n: usize = v.len();
    n > 0 && v[n - 1] == '\n'
}

/// The lines of a text from `a` up to `b` go to the end of another text, behind the
/// header where there is one; `dest` is `None` where the destination is not there yet.
pub fn move_lines(
    source_name: &str,
    dest_name: &str,
    text: &str,
    dest: Option<&str>,
    a: usize,
    b: usize,
    dest_header: Option<&str>,
) -> (r: MovePlan)
    requires
        a <= b <= raw_lines(text@).len(),
    ensures
        is_move_plan(
            r,
            source_name@,
            dest_name@,
            text@,
            opt_text(dest),
            a as int,
            b as int,
            opt_text(dest_header),
        ),
{
    let layout = TextLayout::analyze(text);
    let crlf = layout.crlf > 0 && layout.crlf >= layout.lf;
    let ghost ending = dominant_ending(text@);
    let lines = split_raw_lines(text);
    let ghost views = raw_lines(text@);
    proof {
        assert(texts(lines@).len() == lines@.len());
    }
    let mut moved = String::new();
    match dest_header {
        Some(h) => {
            moved.push_str(h);
            push_dominant(&mut moved, crlf);
        },
        None => {},
    }
    let ghost head = moved@;
    push_span(&mut moved, &lines, a, b);
    if !ends_in_lf(moved.as_str()) {
        push_dominant(&mut moved, crlf);
    }
    proof {
        let block = span_text(views, a as int, b as int);
        assert(head =~= (match opt_text(dest_header) {
            Some(h) => h + ending,
            None => seq![],
        }));
        assert(moved@ =~= moved_text(block, opt_text(dest_header), ending));
    }
    let dest_text = match dest {
        Some(d) => {
            let mut t = d.to_owned();
            if !ends_in_lf(t.as_str()) {
                push_dominant(&mut t, crlf);
            }
            proof {
                assert(t@ =~= ended(d@, ending));
            }
            t.push_str(moved.as_str());
            t
        },
        None => moved,
    };
    let mut source_text = String::new();
    push_span(&mut source_text, &lines, 0, a);
    push_span(&mut source_text, &lines, b, lines.len());
    proof {
        assert(source_text@ =~= span_text(views, 0, a as int) + span_text(
            views,
            b as int,
            views.len() as int,
        ));
    }
    MovePlan {
        result: MoveResult {
            source_file: source_name.to_owned(),
            dest_file: dest_name.to_owned(),
            moved_lines: b - a,
        },
        source_text,
        dest_text,
    }
}

/// Compile the patterns of a move.
pub fn compile_patterns(start_pat: &str, end_pat: Option<&str>) -> (r: Result<
    (regex::Regex, Option<regex::Regex>),
    String,
>)
    ensures
        match r {
            Ok((start, end)) => {
                &&& pattern_failure(start_pat@, opt_text(end_pat)) is None
                &&& text_pattern(start) == start_pat@
                &&& end_pattern(end) == opt_text(end_pat)
            },
            Err(m) => pattern_failure(start_pat@, opt_text(end_pat)) == Some(m@),
        },
{
    let start_re = match compile_text(start_pat) {
        Ok(re) => re,
        Err(e) => {
            let mut m = "invalid --start-pattern: ".to_owned();
            m.push_str(e.as_str());
            return Err(m);
        },
    };
    match end_pat {
        Some(p) => match compile_text(p) {
            Ok(re) => Ok((start_re, Some(re))),
            Err(e) => {
                let mut m = "invalid --end-pattern: ".to_owned();
                m.push_str(e.as_str());
                Err(m)
            },
        },
        None => Ok((start_re, None)),
    }
}

/// The pattern of an optional expression.
pub open spec fn end_pattern(re: Option<regex::Regex>) -> Option<Seq<char>> {
    match re {
        Some(re) => Some(text_pattern(re)),
        None => None,
    }
}

/// The text of the source and the block in it, or the message of the error.
pub open spec fn source_block(
    source_name: Seq<char>,
    source: Seq<u8>,
    start_pat: Seq<char>,
    end_pat: Option<Seq<char>>,
) -> Result<(Seq<char>, int, int), Seq<char>> {
    if !valid_utf8(source) {
        Err("source file is not valid UTF-8: "@ + source_name)
    } else {
        let text = decode_utf8(source);
        match block_of(source_name, raw_lines(text), start_pat, end_pat) {
            Ok((a, b)) => Ok((text, a, b)),
            Err(m) => Err(m),
        }
    }
}

/// Find the block to move in the source: from the first line matching `start_pat`, as
/// which `start_re` was compiled, up to the next line matching `end_re`, or the end.
pub fn find_block(
    source_name: &str,
    source: &[u8],
    start_pat: &str,
    start_re: &regex::Regex,
    end_re: &Option<regex::Regex>,
) -> (r: Result<(String, usize, usize), String>)
    requires
        text_pattern(*start_re) == start_pat@,
    ensures
        match r {
            Ok((text, a, b)) => source_block(
                source_name@,
                source@,
                start_pat@,
                end_pattern(*end_re),
            ) == Ok::<(Seq<char>, int, int), Seq<char>>((text@, a as int, b as int)) && a < b
                <= raw_lines(text@).len(),
            Err(m) => source_block(source_name@, source@, start_pat@, end_pattern(*end_re)) == Err::<
                (Seq<char>, int, int),
                Seq<char>,
            >(m@),
        },
{
    let text = match from_utf8(source) {
        Ok(t) => t,
        Err(_) => {
            let mut m = "source file is not valid UTF-8: ".to_owned();
            m.push_str(source_name);
            return Err(m);
        },
    };
    let lines = split_raw_lines(text.as_str());
    proof {
        assert(texts(lines@).len() == lines@.len());
    }
    let a: usize = find_match(&lines, start_re, 0);
    if a >= lines.len() {
        let mut m = "start_pattern ".to_owned();
        m.push_str(format_str_debug(start_pat).as_str());
        m.push_str(" not found in ");
        m.push_str(source_name);
        return Err(m);
    }
    let b: usize = match end_re {
        Some(re) => find_match(&lines, re, a + 1),
        None => lines.len(),
    };
    Ok((text, a, b))
}

/// The text of the destination, or the message of the error; `None` where the destination
/// is not there yet.
pub open spec fn dest_of(dest_name: Seq<char>, dest: Option<Seq<u8>>) -> Result<
    Option<Seq<char>>,
    Seq<char>,
> {
    match dest {
        Some(d) => if valid_utf8(d) {
            Ok(Some(decode_utf8(d)))
        } else {
            Err("dest file is not valid UTF-8: "@ + dest_name)
        },
        None => Ok(None),
    }
}

/// Decode the destination; `None` where it is not there yet.
pub fn decode_dest(dest_name: &str, dest: Option<&[u8]>) -> (r: Result<Option<String>, String>)
    ensures
        match r {
            Ok(None) => dest_of(dest_name@, opt_bytes(dest)) == Ok::<Option<Seq<char>>, Seq<char>>(
                None,
            ),
            Ok(Some(t)) => dest_of(dest_name@, opt_bytes(dest)) == Ok::<
                Option<Seq<char>>,
                Seq<char>,
            >(Some(t@)),
            Err(m) => dest_of(dest_name@, opt_bytes(dest)) == Err::<Option<Seq<char>>, Seq<char>>(
                m@,
            ),
        },
{
    match dest {
        Some(bytes) => match from_utf8(bytes) {
            Ok(t) => Ok(Some(t)),
            Err(_) => {
                let mut m = "dest file is not valid UTF-8: ".to_owned();
                m.push_str(dest_name);
                Err(m)
            },
        },
        None => Ok(None),
    }
}

/// Move the block that begins at the first line matching `start_pat` and ends before
/// the next line matching `end_pat`, or at the end, from one text to the end of
/// another; `dest` is `None` where the destination is not there yet.
pub fn run(
    source_name: &str,
    dest_name: &str,
    source: &[u8],
    dest: Option<&[u8]>,
    start_pat: &str,
    end_pat: Option<&str>,
    dest_header: Option<&str>,
) -> (r: Result<MovePlan, String>)
    ensures
        match pattern_failure(start_pat@, opt_text(end_pat)) {
            Some(m) => r is Err && r->Err_0@ == m,
            None => match source_block(source_name@, source@, start_pat@, opt_text(end_pat)) {
                Err(m) => r is Err && r->Err_0@ == m,
                Ok((text, a, b)) => match dest_of(dest_name@, opt_bytes(dest)) {
                    Err(m) => r is Err && r->Err_0@ == m,
                    Ok(d) => r matches Ok(plan) && is_move_plan(
                        plan,
                        source_name@,
                        dest_name@,
                        text,
                        d,
                        a,
                        b,
                        opt_text(dest_header),
                    ),
                },
            },
        },
{
    let (start_re, end_re) = match compile_patterns(start_pat, end_pat) {
        Ok(v) => v,
        Err(m) => {
            return Err(m);
        },
    };
    let (text, a, b) = match find_block(source_name, source, start_pat, &start_re, &end_re) {
        Ok(v) => v,
        Err(m) => {
            return Err(m);
        },
    };
    match decode_dest(dest_name, dest) {
        Ok(Some(d)) => Ok(
            move_lines(
                source_name,
                dest_name,
                text.as_str(),
                Some(d.as_str()),
                a,
                b,
                dest_header,
            ),
        ),
        Ok(None) => Ok(move_lines(source_name, dest_name, text.as_str(), None, a, b, dest_header)),
        Err(m) => Err(m),
    }
}

// ── Laws ────────────────────────────────────────────────────────────────────

proof fn lemma_concat_add(a: Seq<Seq<char>>, b: Seq<Seq<char>>)
    ensures
        concat(a + b) == concat(a) + concat(b),
    decreases b.len(),
{
    if b.len() == 0 {
        assert(a + b =~= a);
        assert(concat(a) + concat(b) =~= concat(a));
    } else {
        assert((a + b).drop_last() =~= a + b.drop_last());
        lemma_concat_add(a, b.drop_last());
        assert(concat(a + b) =~= concat(a) + concat(b));
    }
}

/// The lines of a text, each with its line ending, make up the text.
pub proof fn law_raw_lines_make_up_the_text(s: Seq<char>)
    ensures
        concat(raw_lines(s)) == s,
    decreases s.len(),
{
    lemma_first_pos(s, '\n');
    let k = first_pos(s, '\n') as int;
    if s.len() == 0 {
        assert(concat(raw_lines(s)) =~= s);
    } else if k >= s.len() {
        let one = seq![s];
        assert(one.drop_last() =~= seq![]);
        assert(concat(one.drop_last()) =~= seq![]);
        assert(concat(one) =~= s);
    } else {
        let one = seq![s.take(k + 1)];
        law_raw_lines_make_up_the_text(s.skip(k + 1));
        lemma_concat_add(one, raw_lines(s.skip(k + 1)));
        assert(one.drop_last() =~= seq![]);
        assert(concat(one.drop_last()) =~= seq![]);
        assert(concat(one) =~= s.take(k + 1));
        assert(s.take(k + 1) + s.skip(k + 1) =~= s);
    }
}

/// A move loses nothing: the block stands in the source between the two parts that
/// remain.
pub proof fn law_move_loses_nothing(s: Seq<char>, a: int, b: int)
    requires
        0 <= a <= b <= raw_lines(s).len(),
    ensures
        span_text(raw_lines(s), 0, a) + span_text(raw_lines(s), a, b) + span_text(
            raw_lines(s),
            b,
            raw_lines(s).len() as int,
        ) == s,
{
    let lines = raw_lines(s);
    let n = lines.len() as int;
    law_raw_lines_make_up_the_text(s);
    lemma_concat_add(lines.subrange(0, a), lines.subrange(a, b));
    lemma_concat_add(lines.subrange(0, a) + lines.subrange(a, b), lines.subrange(b, n));
    assert(lines.subrange(0, a) + lines.subrange(a, b) + lines.subrange(b, n) =~= lines);
}

proof fn lemma_without_newlines(s: Seq<char>)
    ensures
        ({
            let t = without_newlines(s);
            &&& t.len() <= s.len()
            &&& t == s.take(t.len() as int)
            &&& forall|i: int| t.len() <= i < s.len() ==> #[trigger] s[i] == '\n' || s[i] == '\r'
            &&& t.len() > 0 ==> t.last() != '\n' && t.last() != '\r'
        }),
    decreases s.len(),
{
    if s.len() > 0 && (s.last() == '\n' || s.last() == '\r') {
        let u = s.drop_last();
        lemma_without_newlines(u);
        let t = without_newlines(s);
        assert(s.take(t.len() as int) =~= u.take(t.len() as int));
        assert forall|i: int| t.len() <= i < s.len() implies #[trigger] s[i] == '\n' || s[i]
            == '\r' by {
            if i < u.len() {
                assert(u[i] == s[i]);
            }
        }
    } else {
        assert(s.take(s.len() as int) =~= s);
    }
}

/// A line is matched without its line ending: what is taken off its end is LF and CR alone,
/// and all there is of them.
pub proof fn law_lines_are_matched_without_their_ending(s: Seq<char>)
    ensures
        ({
            let t = without_newlines(s);
            &&& t.len() <= s.len()
            &&& t == s.take(t.len() as int)
            &&& forall|i: int| t.len() <= i < s.len() ==> #[trigger] s[i] == '\n' || s[i] == '\r'
            &&& t.len() > 0 ==> t.last() != '\n' && t.last() != '\r'
        }),
{
    lemma_without_newlines(s);
}

proof fn lemma_first_match_is(lines: Seq<Seq<char>>, pattern: Seq<char>, i: int)
    requires
        0 <= i <= lines.len(),
    ensures
        ({
            let k = first_match(lines, pattern, i);
            &&& i <= k <= lines.len()
            &&& k < lines.len() ==> text_match(pattern, without_newlines(lines[k]))
            &&& forall|j: int|
                i <= j < k ==> !text_match(pattern, without_newlines(#[trigger] lines[j]))
        }),
    decreases lines.len() - i,
{
    if i < lines.len() && !text_match(pattern, without_newlines(lines[i])) {
        lemma_first_match_is(lines, pattern, i + 1);
    }
}

/// The block begins at the first line that the start pattern matches: that line matches and
/// no line before it does. It ends at the next line behind that which the end pattern
/// matches, or at the end of the text where there is no such line or no such pattern. There
/// is no block where no line matches the start pattern.
pub proof fn law_the_block_is_the_first_that_matches(
    source_name: Seq<char>,
    source: Seq<u8>,
    start_pat: Seq<char>,
    end_pat: Option<Seq<char>>,
)
    requires
        valid_utf8(source),
    ensures
        match source_block(source_name, source, start_pat, end_pat) {
            Ok((text, a, b)) => {
                let lines = raw_lines(text);
                &&& encode_utf8(text) == source
                &&& 0 <= a < b <= lines.len()
                &&& text_match(start_pat, without_newlines(lines[a]))
                &&& forall|k: int|
                    0 <= k < a ==> !text_match(start_pat, without_newlines(#[trigger] lines[k]))
                &&& match end_pat {
                    Some(p) => {
                        &&& forall|k: int|
                            a < k < b ==> !text_match(p, without_newlines(#[trigger] lines[k]))
                        &&& b < lines.len() ==> text_match(p, without_newlines(lines[b]))
                    },
                    None => b == lines.len(),
                }
            },
            Err(_) => forall|k: int|
                0 <= k < raw_lines(decode_utf8(source)).len() ==> !text_match(
                    start_pat,
                    without_newlines(#[trigger] raw_lines(decode_utf8(source))[k]),
                ),
        },
{
    decode_utf8_encode_utf8(source);
    let lines = raw_lines(decode_utf8(source));
    lemma_first_match_is(lines, start_pat, 0);
    let a = first_match(lines, start_pat, 0);
    if a < lines.len() {
        match end_pat {
            Some(p) => lemma_first_match_is(lines, p, a + 1),
            None => {},
        }
    }
}

/// The lines of a text, each with its line ending, end in LF, but for the last, and hold LF
/// nowhere else.
pub proof fn law_raw_lines_end_in_lf(s: Seq<char>)
    ensures
        forall|i: int|
            0 <= i < raw_lines(s).len() ==> (#[trigger] raw_lines(s)[i]).len() > 0 && (i + 1
                < raw_lines(s).len() ==> raw_lines(s)[i].last() == '\n'),
        forall|i: int, j: int|
            0 <= i < raw_lines(s).len() && 0 <= j < raw_lines(s)[i].len() - 1 ==> (
            #[trigger] raw_lines(s)[i][j]) != '\n',
    decreases s.len(),
{
    lemma_first_pos(s, '\n');
    let k = first_pos(s, '\n') as int;
    let all = raw_lines(s);
    if s.len() > 0 && k < s.len() {
        let rest = s.skip(k + 1);
        law_raw_lines_end_in_lf(rest);
        let more = raw_lines(rest);
        assert forall|i: int| 0 <= i < all.len() implies (#[trigger] all[i]).len() > 0 && (i + 1
            < all.len() ==> all[i].last() == '\n') by {
            if i > 0 {
                assert(all[i] == more[i - 1]);
            }
        }
        assert forall|i: int, j: int| 0 <= i < all.len() && 0 <= j < all[i].len() - 1 implies (
        #[trigger] all[i][j]) != '\n' by {
            if i > 0 {
                assert(all[i] == more[i - 1]);
                assert(more[i - 1][j] != '\n');
            } else {
                assert(all[0][j] == s[j]);
            }
        }
    } else if s.len() > 0 {
        assert(all[0] == s);
    }
}

/// Lines made up for a move have the line ending that more lines of the source have: CR LF
/// where at least as many lines end in it as in LF alone, LF otherwise.
pub proof fn law_made_up_lines_have_the_dominant_ending(s: Seq<char>)
    ensures
        ({
            let crlf = crlf_marks(s).to_multiset().count(true);
            let lf = s.to_multiset().count('\n') - crlf;
            dominant_ending(s) == (if crlf > 0 && crlf >= lf {
                seq!['\r', '\n']
            } else {
                seq!['\n']
            })
        }),
{
    law_census_counts_each_ending_once(s);
}

/// A move takes the block out of the source and puts it, unchanged, at the end of the
/// destination: the source is what stands before and behind the block, and the destination
/// is what it was, the header on a line of its own, and the block. A line ending is added
/// only where the destination or the block does not end in one.
pub proof fn law_a_move_takes_the_block(
    plan: MovePlan,
    source_name: Seq<char>,
    dest_name: Seq<char>,
    text: Seq<char>,
    dest: Option<Seq<char>>,
    a: int,
    b: int,
    header: Option<Seq<char>>,
)
    requires
        0 <= a < b <= raw_lines(text).len(),
        is_move_plan(plan, source_name, dest_name, text, dest, a, b, header),
    ensures
        plan.result.moved_lines == b - a,
        exists|before: Seq<char>, moved: Seq<char>, behind: Seq<char>| #![trigger before + moved + behind]
            {
                let ending = dominant_ending(text);
                &&& text == before + moved + behind
                &&& moved == concat(raw_lines(text).subrange(a, b))
                &&& plan.source_text@ == before + behind
                &&& plan.dest_text@ == (match dest {
                    Some(d) => d + (if d.len() > 0 && d.last() == '\n' {
                        seq![]
                    } else {
                        ending
                    }),
                    None => seq![],
                }) + (match header {
                    Some(h) => h + ending,
                    None => seq![],
                }) + moved + (if moved.last() == '\n' {
                    seq![]
                } else {
                    ending
                })
            },
{
    let lines = raw_lines(text);
    let n = lines.len() as int;
    let before = span_text(lines, 0, a);
    let moved = span_text(lines, a, b);
    let behind = span_text(lines, b, n);
    law_move_loses_nothing(text, a, b);
    law_raw_lines_end_in_lf(text);
    let block = lines.subrange(a, b);
    assert(block.last() == lines[b - 1]);
    assert(moved.len() > 0 && moved.last() == lines[b - 1].last());
    let ending = dominant_ending(text);
    let top = match header {
        Some(h) => h + ending,
        None => seq![],
    };
    assert((top + moved).last() == moved.last());
    assert(text == before + moved + behind);
    assert(plan.dest_text@ =~= (match dest {
        Some(d) => d + (if d.len() > 0 && d.last() == '\n' {
            seq![]
        } else {
            ending
        }),
        None => seq![],
    }) + top + moved + (if moved.last() == '\n' {
        seq![]
    } else {
        ending
    }));
}

/// A destination that is there has to be UTF-8 and is taken as it is; one that is not is none.
pub proof fn law_the_destination_is_kept(dest_name: Seq<char>, d: Seq<u8>)
    ensures
        dest_of(dest_name, None) == Ok::<Option<Seq<char>>, Seq<char>>(None),
        valid_utf8(d) ==> (dest_of(dest_name, Some(d)) matches Ok(Some(text)) && encode_utf8(text)
            == d),
        !valid_utf8(d) ==> dest_of(dest_name, Some(d)) is Err,
{
    if valid_utf8(d) {
        decode_utf8_encode_utf8(d);
    }
}

} // verus!
