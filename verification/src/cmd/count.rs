//! Counting lines, words, characters, bytes and matches of patterns.

use vstd::prelude::*;
use vstd::string::*;

use crate::encoding::LineEnding;
use crate::layout::law_layouts_tell_the_endings;
use crate::lines::{law_lines_are_counted_by_lf, split_lines, text_lines, texts};
use crate::num::{dec, push_dec};
use crate::pattern::{compile_text, count_matches, text_match_count, text_pattern_error};
use crate::source::DecodedText;
use crate::text::{chars_of, format_str_debug, str_debug};

verus! {

/// The value of a metric.
#[derive(Debug)]
pub enum CountValue {
    /// A text.
    Text(String),
    /// A flag.
    Flag(bool),
    /// A number.
    Count(u64),
}

/// A metric with its value.
#[derive(Debug)]
pub struct CountRecord {
    /// The name of the metric.
    pub metric: String,
    /// Its value.
    pub value: CountValue,
}

/// The abstract value of a [`CountValue`].
pub enum ValueModel {
    /// A text.
    Text(Seq<char>),
    /// A flag.
    Flag(bool),
    /// A number.
    Count(nat),
}

impl View for CountRecord {
    type V = (Seq<char>, ValueModel);

    open spec fn view(&self) -> (Seq<char>, ValueModel) {
        (
            self.metric@,
            match self.value {
                CountValue::Text(t) => ValueModel::Text(t@),
                CountValue::Flag(b) => ValueModel::Flag(b),
                CountValue::Count(n) => ValueModel::Count(n as nat),
            },
        )
    }
}

/// The line that shows a metric.
pub open spec fn rendering(record: (Seq<char>, ValueModel)) -> Seq<char> {
    record.0 + ": "@ + (match record.1 {
        ValueModel::Text(t) => t,
        ValueModel::Flag(b) => if b {
            "true"@
        } else {
            "false"@
        },
        ValueModel::Count(n) => dec(n),
    }) + seq!['\n']
}

impl CountRecord {
    /// The line that shows the metric.
    pub fn rendered(&self) -> (r: String)
        ensures
            r@ == rendering(self@),
    {
        let mut out = self.metric.clone();
        out.push_str(": ");
        match &self.value {
            CountValue::Text(t) => {
                out.push_str(t.as_str());
            },
            CountValue::Flag(b) => {
                out.push_str(if *b { "true" } else { "false" });
            },
            CountValue::Count(n) => {
                push_dec(&mut out, *n);
            },
        }
        out.push('\n');
        proof {
            assert(out@ =~= rendering(self@));
        }
        out
    }
}

/// ASCII whitespace.
pub open spec fn is_blank(c: char) -> bool {
    c == ' ' || c == '\t' || c == '\n' || c == '\u{C}' || c == '\r'
}

/// The number of words among the first `n` characters: of those that are not
/// blank and follow a blank or nothing.
pub open spec fn words(s: Seq<char>, n: int) -> nat
    decreases n,
{
    if n <= 0 {
        0
    } else {
        words(s, n - 1) + (if !is_blank(s[n - 1]) && (n == 1 || is_blank(s[n - 2])) {
            1nat
        } else {
            0nat
        })
    }
}

fn blank(c: char) -> (r: bool)
    ensures
        r == is_blank(c),
{
    c == ' ' || c == '\t' || c == '\n' || c == '\u{C}' || c == '\r'
}

/// The number of words of a text.
pub fn count_words(text: &str) -> (r: usize)
    ensures
        r == words(text@, text@.len() as int),
{
    let v = chars_of(text);
    let mut n: usize = 0;
    let mut i: usize = 0;
    while i < v.len()
        invariant
            i <= v@.len(),
            n <= i,
            v@ == text@,
            n == words(text@, i as int),
        decreases v@.len() - i,
    {
        if !blank(v[i]) && (i == 0 || blank(v[i - 1])) {
            n = n + 1;
        }
        i = i + 1;
    }
    n
}

/// What to count.
#[derive(Debug, Clone, Copy)]
pub struct CountOptions {
    /// Count lines.
    pub lines: bool,
    /// Count words.
    pub words: bool,
    /// Count characters.
    pub chars: bool,
    /// Count bytes.
    pub bytes: bool,
    /// Tell of the encoding, byte-order mark and line endings first.
    pub stats: bool,
}

/// The name of the line endings of a file.
pub open spec fn ending_label(d: DecodedText) -> Seq<char> {
    if d.layout.mixed() {
        "MIXED"@
    } else {
        match d.line_ending {
            LineEnding::Lf => "LF"@,
            LineEnding::CrLf => "CRLF"@,
            LineEnding::Cr => "CR"@,
        }
    }
}

/// What is told of the encoding, byte-order mark and line endings.
pub open spec fn stat_records(d: DecodedText) -> Seq<(Seq<char>, ValueModel)> {
    seq![
        ("encoding"@, ValueModel::Text(d.encoding@.name())),
        ("bom"@, ValueModel::Flag(d.bom_len > 0)),
        ("line_ending"@, ValueModel::Text(ending_label(d))),
        ("lf_count"@, ValueModel::Count(d.layout.lf as nat)),
        ("crlf_count"@, ValueModel::Count(d.layout.crlf as nat)),
        ("cr_count"@, ValueModel::Count(d.layout.cr as nat)),
    ]
}

/// One metric, where it is asked for.
pub open spec fn metric_if(wanted: bool, name: Seq<char>, n: nat) -> Seq<(Seq<char>, ValueModel)> {
    if wanted {
        seq![(name, ValueModel::Count(n))]
    } else {
        seq![]
    }
}

/// The metrics asked for; all four where none is.
pub open spec fn metric_records(d: DecodedText, byte_count: nat, opts: CountOptions) -> Seq<
    (Seq<char>, ValueModel),
> {
    let none = !(opts.lines || opts.words || opts.chars || opts.bytes);
    metric_if(opts.lines || none, "lines"@, text_lines(d.text@).len()) + metric_if(
        opts.words || none,
        "words"@,
        words(d.text@, d.text@.len() as int),
    ) + metric_if(opts.chars || none, "chars"@, d.text@.len()) + metric_if(
        opts.bytes || none,
        "bytes"@,
        byte_count,
    )
}

/// The label of the `i`-th pattern: the one given, or the pattern itself.
pub open spec fn label_at(patterns: Seq<Seq<char>>, labels: Seq<Seq<char>>, i: int) -> Seq<char> {
    if i < labels.len() {
        labels[i]
    } else {
        patterns[i]
    }
}

/// The counts of the first `n` patterns, up to the first that is invalid.
pub open spec fn pattern_records(
    text: Seq<char>,
    patterns: Seq<Seq<char>>,
    labels: Seq<Seq<char>>,
    n: int,
) -> Seq<(Seq<char>, ValueModel)>
    decreases n,
{
    if n <= 0 {
        seq![]
    } else {
        let above = pattern_records(text, patterns, labels, n - 1);
        if first_invalid(patterns, 0) < n {
            above
        } else {
            above.push(
                (
                    label_at(patterns, labels, n - 1),
                    ValueModel::Count(text_match_count(patterns[n - 1], text)),
                ),
            )
        }
    }
}

/// The index of the first invalid pattern from `i` on, or their number where there
/// is none.
pub open spec fn first_invalid(patterns: Seq<Seq<char>>, i: int) -> int
    decreases patterns.len() - i,
{
    if i < 0 || i >= patterns.len() {
        patterns.len() as int
    } else if text_pattern_error(patterns[i]) is Some {
        i
    } else {
        first_invalid(patterns, i + 1)
    }
}

/// The message where there are more labels than patterns.
pub open spec fn surplus_labels(labels: nat, patterns: nat) -> Seq<char> {
    "count: "@ + dec(labels) + " --label value"@ + (if labels == 1 {
        ""@
    } else {
        "s"@
    }) + " supplied but only "@ + dec(patterns) + " --pattern value"@ + (if patterns == 1 {
        ""@
    } else {
        "s"@
    }) + " given"@
}

/// The abstract values of records.
pub open spec fn record_views(v: Seq<CountRecord>) -> Seq<(Seq<char>, ValueModel)> {
    v.map_values(|r: CountRecord| r@)
}

fn push_record(out: &mut Vec<CountRecord>, metric: &str, value: CountValue)
    ensures
        record_views(final(out)@) =~= record_views(old(out)@).push(
            (
                metric@,
                match value {
                    CountValue::Text(t) => ValueModel::Text(t@),
                    CountValue::Flag(b) => ValueModel::Flag(b),
                    CountValue::Count(n) => ValueModel::Count(n as nat),
                },
            ),
        ),
{
    let ghost had = record_views(out@);
    let record = CountRecord { metric: metric.to_owned(), value };
    let ghost shown = record@;
    out.push(record);
    proof {
        assert(record_views(out@) =~= had.push(shown));
    }
}

fn push_stats(out: &mut Vec<CountRecord>, decoded: &DecodedText)
    ensures
        record_views(final(out)@) =~= record_views(old(out)@) + stat_records(*decoded),
{
    let label = if decoded.layout.is_mixed() {
        "MIXED"
    } else {
        match decoded.line_ending {
            LineEnding::Lf => "LF",
            LineEnding::CrLf => "CRLF",
            LineEnding::Cr => "CR",
        }
    };
    push_record(out, "encoding", CountValue::Text(decoded.encoding.name().to_owned()));
    push_record(out, "bom", CountValue::Flag(decoded.bom_len > 0));
    push_record(out, "line_ending", CountValue::Text(label.to_owned()));
    push_record(out, "lf_count", CountValue::Count(decoded.layout.lf));
    push_record(out, "crlf_count", CountValue::Count(decoded.layout.crlf));
    push_record(out, "cr_count", CountValue::Count(decoded.layout.cr));
}

fn push_metrics(
    out: &mut Vec<CountRecord>,
    decoded: &DecodedText,
    byte_count: u64,
    opts: &CountOptions,
)
    ensures
        record_views(final(out)@) =~= record_views(old(out)@) + metric_records(
            *decoded,
            byte_count as nat,
            *opts,
        ),
{
    let none = !(opts.lines || opts.words || opts.chars || opts.bytes);
    let text = decoded.text.as_str();
    if opts.lines || none {
        let lines = split_lines(text);
        proof {
            assert(texts(lines@).len() == lines@.len());
        }
        push_record(out, "lines", CountValue::Count(lines.len() as u64));
    }
    if opts.words || none {
        push_record(out, "words", CountValue::Count(count_words(text) as u64));
    }
    if opts.chars || none {
        push_record(out, "chars", CountValue::Count(chars_of(text).len() as u64));
    }
    if opts.bytes || none {
        push_record(out, "bytes", CountValue::Count(byte_count));
    }
}

proof fn lemma_first_invalid(patterns: Seq<Seq<char>>, i: int)
    requires
        0 <= i <= patterns.len(),
        forall|k: int| 0 <= k < i ==> text_pattern_error(#[trigger] patterns[k]) is None,
    ensures
        first_invalid(patterns, 0) == first_invalid(patterns, i),
        i <= first_invalid(patterns, i) <= patterns.len(),
    decreases patterns.len(),
{
    lemma_first_invalid_step(patterns, 0, i);
    lemma_first_invalid_bound(patterns, i);
}

proof fn lemma_first_invalid_step(patterns: Seq<Seq<char>>, j: int, i: int)
    requires
        0 <= j <= i <= patterns.len(),
        forall|k: int| 0 <= k < i ==> text_pattern_error(#[trigger] patterns[k]) is None,
    ensures
        first_invalid(patterns, j) == first_invalid(patterns, i),
    decreases i - j,
{
    if j < i {
        assert(text_pattern_error(patterns[j]) is None);
        lemma_first_invalid_step(patterns, j + 1, i);
    }
}

proof fn lemma_first_invalid_bound(patterns: Seq<Seq<char>>, i: int)
    requires
        0 <= i <= patterns.len(),
    ensures
        i <= first_invalid(patterns, i) <= patterns.len(),
    decreases patterns.len() - i,
{
    if i < patterns.len() && text_pattern_error(patterns[i]) is None {
        lemma_first_invalid_bound(patterns, i + 1);
    }
}

proof fn lemma_records_stop(
    text: Seq<char>,
    patterns: Seq<Seq<char>>,
    labels: Seq<Seq<char>>,
    k: int,
    n: int,
)
    requires
        0 <= k <= n,
        k == first_invalid(patterns, 0),
    ensures
        pattern_records(text, patterns, labels, n) == pattern_records(text, patterns, labels, k),
    decreases n,
{
    if n > k {
        lemma_records_stop(text, patterns, labels, k, n - 1);
    }
}

/// Count what is asked for in a decoded file of `byte_count` bytes. What was counted
/// before an invalid pattern stays in `out`.
pub fn run(
    decoded: &DecodedText,
    byte_count: u64,
    patterns: &Vec<String>,
    labels: &Vec<String>,
    opts: &CountOptions,
    out: &mut Vec<CountRecord>,
) -> (r: Result<(), String>)
    ensures
        labels@.len() > patterns@.len() ==> r is Err && r->Err_0@ == surplus_labels(
            labels@.len(),
            patterns@.len(),
        ) && final(out)@ == old(out)@,
        labels@.len() <= patterns@.len() ==> {
            let bad = first_invalid(texts(patterns@), 0);
            &&& record_views(final(out)@) == record_views(old(out)@) + (if opts.stats {
                stat_records(*decoded)
            } else {
                seq![]
            }) + metric_records(*decoded, byte_count as nat, *opts) + pattern_records(
                decoded.text@,
                texts(patterns@),
                texts(labels@),
                patterns@.len() as int,
            )
            &&& match r {
                Ok(_) => bad == patterns@.len(),
                Err(m) => bad < patterns@.len() && m@ == "count: invalid pattern "@ + str_debug(
                    texts(patterns@)[bad],
                ) + ": "@ + text_pattern_error(texts(patterns@)[bad])->0,
            }
        },
{
    if labels.len() > patterns.len() {
        let mut m = "count: ".to_owned();
        push_dec(&mut m, labels.len() as u64);
        m.push_str(" --label value");
        m.push_str(if labels.len() == 1 { "" } else { "s" });
        m.push_str(" supplied but only ");
        push_dec(&mut m, patterns.len() as u64);
        m.push_str(" --pattern value");
        m.push_str(if patterns.len() == 1 { "" } else { "s" });
        m.push_str(" given");
        return Err(m);
    }
    let ghost o0 = record_views(out@);
    if opts.stats {
        push_stats(out, decoded);
    }
    push_metrics(out, decoded, byte_count, opts);
    let ghost base = record_views(out@);
    let ghost pats = texts(patterns@);
    let ghost labs = texts(labels@);
    let ghost text = decoded.text@;
    proof {
        assert(base =~= o0 + (if opts.stats {
            stat_records(*decoded)
        } else {
            seq![]
        }) + metric_records(*decoded, byte_count as nat, *opts));
        assert(base + Seq::<(Seq<char>, ValueModel)>::empty() =~= base);
    }
    let mut i: usize = 0;
    while i < patterns.len()
        invariant
            i <= patterns@.len(),
            labels@.len() <= patterns@.len(),
            pats == texts(patterns@),
            labs == texts(labels@),
            text == decoded.text@,
            record_views(out@) == base + pattern_records(text, pats, labs, i as int),
            forall|k: int| 0 <= k < i ==> text_pattern_error(#[trigger] pats[k]) is None,
            base == o0 + (if opts.stats {
                stat_records(*decoded)
            } else {
                seq![]
            }) + metric_records(*decoded, byte_count as nat, *opts),
            o0 == record_views(old(out)@),
        decreases patterns@.len() - i,
    {
        proof {
            lemma_first_invalid(pats, i as int);
            assert(pats[i as int] == patterns@[i as int]@);
        }
        match compile_text(patterns[i].as_str()) {
            Ok(re) => {
                let label = if i < labels.len() {
                    labels[i].as_str()
                } else {
                    patterns[i].as_str()
                };
                push_record(
                    out,
                    label,
                    CountValue::Count(count_matches(&re, decoded.text.as_str()) as u64),
                );
                proof {
                    lemma_first_invalid(pats, i + 1);
                    assert(record_views(out@) =~= base + pattern_records(text, pats, labs, i + 1));
                }
            },
            Err(e) => {
                let mut m = "count: invalid pattern ".to_owned();
                m.push_str(format_str_debug(patterns[i].as_str()).as_str());
                m.push_str(": ");
                m.push_str(e.as_str());
                proof {
                    lemma_records_stop(text, pats, labs, i as int, patterns@.len() as int);
                }
                return Err(m);
            },
        }
        i = i + 1;
    }
    proof {
        lemma_first_invalid(pats, i as int);
    }
    Ok(())
}

// ── Laws ────────────────────────────────────────────────────────────────────

proof fn lemma_words_within(s: Seq<char>, t: Seq<char>, n: int)
    requires
        0 <= n <= s.len(),
        n <= t.len(),
        forall|i: int| 0 <= i < n ==> s[i] == t[i],
    ensures
        words(s, n) == words(t, n),
    decreases n,
{
    if n > 0 {
        lemma_words_within(s, t, n - 1);
        assert(s[n - 1] == t[n - 1]);
        if n > 1 {
            assert(s[n - 2] == t[n - 2]);
        }
    }
}

proof fn lemma_words_behind(a: Seq<char>, c: char, b: Seq<char>, n: int)
    requires
        is_blank(c),
        0 <= n <= b.len(),
    ensures
        words(a.push(c) + b, a.len() + 1 + n) == words(a, a.len() as int) + words(b, n),
    decreases n,
{
    let s = a.push(c) + b;
    let k = a.len() as int + 1;
    if n == 0 {
        assert(s[k - 1] == c);
        lemma_words_within(s, a, k - 1);
    } else {
        lemma_words_behind(a, c, b, n - 1);
        assert(s[k + n - 1] == b[n - 1]);
        if n > 1 {
            assert(s[k + n - 2] == b[n - 2]);
        } else {
            assert(s[k + n - 2] == c);
        }
    }
}

proof fn lemma_one_word(s: Seq<char>, n: int)
    requires
        0 < n <= s.len(),
        forall|i: int| 0 <= i < s.len() ==> !is_blank(#[trigger] s[i]),
    ensures
        words(s, n) == 1,
    decreases n,
{
    assert(!is_blank(s[n - 1]));
    if n > 1 {
        assert(!is_blank(s[n - 2]));
        lemma_one_word(s, n - 1);
    } else {
        assert(words(s, 0) == 0);
    }
}

/// Words stand between blanks: a blank parts the words before it from those behind it, a
/// text without blanks is one word, and one of nothing has none.
pub proof fn law_words_stand_between_blanks(a: Seq<char>, c: char, b: Seq<char>)
    requires
        c == ' ' || c == '\t' || c == '\n' || c == '\r' || c == '\u{C}',
    ensures
        words(a.push(c) + b, (a.push(c) + b).len() as int) == words(a, a.len() as int) + words(
            b,
            b.len() as int,
        ),
        (forall|i: int| 0 <= i < a.len() ==> !(seq![' ', '\t', '\n', '\r', '\u{C}'].contains(
            #[trigger] a[i],
        ))) ==> words(a, a.len() as int) == (if a.len() == 0 {
            0nat
        } else {
            1
        }),
{
    lemma_words_behind(a, c, b, b.len() as int);
    if (forall|i: int| 0 <= i < a.len() ==> !(seq![' ', '\t', '\n', '\r', '\u{C}'].contains(
        #[trigger] a[i],
    ))) && a.len() > 0 {
        let blanks = seq![' ', '\t', '\n', '\r', '\u{C}'];
        assert(blanks[0] == ' ' && blanks[1] == '\t' && blanks[2] == '\n' && blanks[3] == '\r'
            && blanks[4] == '\u{C}');
        assert forall|i: int| 0 <= i < a.len() implies !is_blank(#[trigger] a[i]) by {
            assert(!blanks.contains(a[i]));
        }
        lemma_one_word(a, a.len() as int);
    }
}

/// What is counted of a text: its lines by their LF, its words, its characters, and the
/// bytes of its file. Every metric asked for is told of once, in this order, and no other;
/// all of them where none is asked for.
pub proof fn law_the_metrics_asked_for_are_told(d: DecodedText, byte_count: nat, opts: CountOptions)
    ensures
        ({
            let none = !opts.lines && !opts.words && !opts.chars && !opts.bytes;
            let lines = seq![("lines"@, ValueModel::Count(text_lines(d.text@).len()))];
            let words = seq![("words"@, ValueModel::Count(words(d.text@, d.text@.len() as int)))];
            let chars = seq![("chars"@, ValueModel::Count(d.text@.len()))];
            let bytes = seq![("bytes"@, ValueModel::Count(byte_count))];
            let r = metric_records(d, byte_count, opts);
            let all = lines + words + chars + bytes;
            &&& none ==> r == all
            &&& !none ==> r == (if opts.lines {
                lines
            } else {
                seq![]
            }) + (if opts.words {
                words
            } else {
                seq![]
            }) + (if opts.chars {
                chars
            } else {
                seq![]
            }) + (if opts.bytes {
                bytes
            } else {
                seq![]
            })
            &&& text_lines(d.text@).len() == d.text@.to_multiset().count('\n') + (if d.text@.len()
                == 0 || d.text@.last() == '\n' {
                0nat
            } else {
                1
            })
        }),
{
    law_lines_are_counted_by_lf(d.text@);
}

proof fn lemma_invalid_from(patterns: Seq<Seq<char>>, i: int)
    requires
        0 <= i <= patterns.len(),
    ensures
        ({
            let k = first_invalid(patterns, i);
            &&& i <= k <= patterns.len()
            &&& forall|j: int| i <= j < k ==> text_pattern_error(#[trigger] patterns[j]) is None
            &&& k < patterns.len() ==> text_pattern_error(patterns[k]) is Some
        }),
    decreases patterns.len() - i,
{
    if i < patterns.len() && text_pattern_error(patterns[i]) is None {
        lemma_invalid_from(patterns, i + 1);
    }
}

/// Each pattern is counted over the whole text, and the count stands under its label, or
/// under the pattern itself where it has none; in order, and up to the first that is
/// invalid.
pub proof fn law_every_pattern_is_counted(
    text: Seq<char>,
    patterns: Seq<Seq<char>>,
    labels: Seq<Seq<char>>,
    n: int,
)
    requires
        0 <= n <= patterns.len(),
    ensures
        ({
            let r = pattern_records(text, patterns, labels, n);
            &&& r.len() <= n
            &&& forall|i: int|
                0 <= i < r.len() ==> {
                    &&& (#[trigger] r[i]).0 == (if i < labels.len() {
                        labels[i]
                    } else {
                        patterns[i]
                    })
                    &&& r[i].1 == ValueModel::Count(text_match_count(patterns[i], text))
                    &&& text_pattern_error(patterns[i]) is None
                }
            &&& r.len() < n ==> exists|i: int|
                0 <= i <= r.len() && text_pattern_error(#[trigger] patterns[i]) is Some
        }),
    decreases n,
{
    lemma_invalid_from(patterns, 0);
    let k = first_invalid(patterns, 0);
    lemma_pattern_records(text, patterns, labels, n);
    if pattern_records(text, patterns, labels, n).len() < n {
        assert(text_pattern_error(patterns[k]) is Some);
    }
}

proof fn lemma_pattern_records(
    text: Seq<char>,
    patterns: Seq<Seq<char>>,
    labels: Seq<Seq<char>>,
    n: int,
)
    requires
        0 <= n <= patterns.len(),
    ensures
        ({
            let r = pattern_records(text, patterns, labels, n);
            let k = first_invalid(patterns, 0);
            &&& r.len() == (if n < k {
                n
            } else {
                k
            })
            &&& forall|i: int|
                0 <= i < r.len() ==> (#[trigger] r[i]).0 == label_at(patterns, labels, i)
                    && r[i].1 == ValueModel::Count(text_match_count(patterns[i], text))
                    && text_pattern_error(patterns[i]) is None
        }),
    decreases n,
{
    lemma_invalid_from(patterns, 0);
    if n > 0 {
        lemma_pattern_records(text, patterns, labels, n - 1);
        let k = first_invalid(patterns, 0);
        if n <= k {
            assert(text_pattern_error(patterns[n - 1]) is None);
        }
    }
}

/// A metric is shown on a line of its own: its name, a colon and its value.
pub proof fn law_metrics_are_shown_by_name(name: Seq<char>, n: nat)
    ensures
        rendering((name, ValueModel::Count(n))) == name + ": "@ + dec(n) + seq!['\n'],
        rendering((name, ValueModel::Flag(true))) == name + ": "@ + "true"@ + seq!['\n'],
        rendering((name, ValueModel::Flag(false))) == name + ": "@ + "false"@ + seq!['\n'],
        forall|t: Seq<char>| #[trigger]
            rendering((name, ValueModel::Text(t))) == name + ": "@ + t + seq!['\n'],
{
}

/// What is told of a file's line endings counts each of them once, and calls them by the
/// one kind that they are of, or mixed.
pub proof fn law_stats_tell_the_endings(d: DecodedText, s: Seq<char>)
    requires
        d.layout.describes(s),
    ensures
        ({
            let r = stat_records(d);
            let (lf, crlf, cr) = (d.layout.lf as nat, d.layout.crlf as nat, d.layout.cr as nat);
            &&& r.len() == 6
            &&& r[0] == ("encoding"@, ValueModel::Text(d.encoding@.name()))
            &&& r[1] == ("bom"@, ValueModel::Flag(d.bom_len > 0))
            &&& r[3] == ("lf_count"@, ValueModel::Count(lf))
            &&& r[4] == ("crlf_count"@, ValueModel::Count(crlf))
            &&& r[5] == ("cr_count"@, ValueModel::Count(cr))
            &&& lf + crlf == s.to_multiset().count('\n')
            &&& cr + crlf == s.to_multiset().count('\r')
            &&& (lf > 0 && crlf > 0) || (lf > 0 && cr > 0) || (crlf > 0 && cr > 0) ==> r[2] == (
                "line_ending"@,
                ValueModel::Text("MIXED"@),
            )
            &&& !((lf > 0 && crlf > 0) || (lf > 0 && cr > 0) || (crlf > 0 && cr > 0)) ==> r[2] == (
                "line_ending"@,
                ValueModel::Text(
                    match d.line_ending {
                        LineEnding::Lf => "LF"@,
                        LineEnding::CrLf => "CRLF"@,
                        LineEnding::Cr => "CR"@,
                    },
                ),
            )
        }),
{
    law_layouts_tell_the_endings(d.layout, s);
}

} // verus!
