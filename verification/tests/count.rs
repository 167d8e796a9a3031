use tpu::cmd::count::{count_words, run, CountOptions, CountRecord, CountValue};
use tpu::source::read_text;

fn strings(items: &[&str]) -> Vec<String> {
    items.iter().map(|s| s.to_string()).collect()
}

fn nothing() -> CountOptions {
    CountOptions { lines: false, words: false, chars: false, bytes: false, stats: false }
}

fn counted(
    content: &[u8],
    patterns: &[&str],
    labels: &[&str],
    opts: CountOptions,
) -> Result<Vec<String>, String> {
    let decoded = read_text(content)?;
    let mut out: Vec<CountRecord> = Vec::new();
    run(
        &decoded,
        content.len() as u64,
        &strings(patterns),
        &strings(labels),
        &opts,
        &mut out,
    )?;
    Ok(out.iter().map(|r| r.rendered().trim_end_matches('\n').to_string()).collect())
}

#[test]
fn every_metric_is_counted() {
    let all = CountOptions { lines: true, words: true, chars: true, bytes: true, stats: false };
    assert_eq!(
        counted("héllo wörld\r\nx".as_bytes(), &[], &[], all).unwrap(),
        ["lines: 2", "words: 3", "chars: 13", "bytes: 16"]
    );
}

#[test]
fn stats_come_first() {
    let opts = CountOptions { stats: true, bytes: true, ..nothing() };
    assert_eq!(
        counted(b"\xEF\xBB\xBFa\nb\r\n", &[], &[], opts).unwrap(),
        [
            "encoding: UTF-8",
            "bom: true",
            "line_ending: MIXED",
            "lf_count: 1",
            "crlf_count: 1",
            "cr_count: 0",
            "bytes: 8"
        ]
    );
}

#[test]
fn patterns_are_counted_under_their_labels() {
    let opts = CountOptions { bytes: true, ..nothing() };
    assert_eq!(
        counted(b"abab a", &["ab", "a"], &["pairs"], opts).unwrap(),
        ["bytes: 6", "pairs: 2", "a: 3"]
    );
}

#[test]
fn a_pattern_or_label_that_cannot_be_used_is_an_error() {
    let err = counted(b"a", &["["], &[], nothing()).unwrap_err();
    assert!(err.starts_with("count: invalid pattern \"[\": "), "{err}");
    let err = counted(b"a", &["a"], &["x", "y"], nothing()).unwrap_err();
    assert!(err.contains("2 --label values supplied but only 1 --pattern value"), "{err}");
}

#[test]
fn a_metric_is_a_line() {
    let record = CountRecord { metric: "x".to_string(), value: CountValue::Count(7) };
    assert_eq!(record.rendered(), "x: 7\n");
}

#[test]
fn words_are_what_ascii_whitespace_parts() {
    assert_eq!(count_words(""), 0);
    assert_eq!(count_words("  a\tb\u{3000}c \n"), 2);
}
