use std::cell::RefCell;

use tpu::cmd::replace;
use tpu::cmd::replace::{
    collect_changed_lines, decode_replacement, finish, ops_from_json, ChangedRegion, Prepared,
    RegionsRequest, ReplaceOp, ReplaceOptions, ReplaceOutcome, ReplacePlan,
};
use tpu::encoding::LineEnding;
use tpu::json::{Json, JsonValue};
use tpu::source::{read_text, DecodedText};

/// The content of a file that is replaced in place.
struct Held(RefCell<Vec<u8>>);

impl Held {
    fn bytes(&self) -> Vec<u8> {
        self.0.borrow().clone()
    }

    fn text(&self) -> String {
        String::from_utf8(self.bytes()).unwrap()
    }

    /// Finishes a replacement, and writes where something is to be written.
    fn write(
        &self,
        decoded: &DecodedText,
        prepared: Prepared,
        policy: Option<LineEnding>,
        opts: &ReplaceOptions,
        want_diff: bool,
    ) -> ReplacePlan {
        let plan = finish(
            "f",
            &self.bytes(),
            decoded,
            prepared,
            policy,
            decoded.bom_len > 0,
            opts,
            want_diff,
        );
        if let Some(bytes) = &plan.bytes {
            *self.0.borrow_mut() = bytes.clone();
        }
        plan
    }
}

fn run_batch(
    file: &Held,
    ops: &[ReplaceOp<'_>],
    policy: Option<LineEnding>,
    opts: ReplaceOptions,
) -> Result<ReplaceOutcome, String> {
    let decoded = read_text(&file.bytes())?;
    let prepared = replace::run_batch("f", &decoded, ops, &opts)?;
    Ok(file.write(&decoded, prepared, policy, &opts, false).outcome)
}

/// A JSON text as a value.
fn json(text: &str) -> Json {
    fn convert(v: &serde_json::Value) -> Json {
        let value = match v {
            serde_json::Value::Null => JsonValue::Null,
            serde_json::Value::Bool(b) => JsonValue::Bool(*b),
            serde_json::Value::Number(_) => JsonValue::Number,
            serde_json::Value::String(s) => JsonValue::Text(s.clone()),
            serde_json::Value::Array(items) => JsonValue::Array(items.iter().map(convert).collect()),
            serde_json::Value::Object(fields) => {
                JsonValue::Object(fields.iter().map(|(k, v)| (k.clone(), convert(v))).collect())
            }
        };
        Json { value, text: v.to_string() }
    }
    convert(&serde_json::from_str(text).unwrap())
}

// ── run_batch ───────────────────────────────────────────────────────────

fn batch_op<'a>(pattern: &'a str, replacement: &'a [u8]) -> ReplaceOp<'a> {
    ReplaceOp {
        label: None,
        pattern,
        replacement,
        regex: false,
        multiline: false,
        allow_no_match: false,
    }
}

fn scratch(contents: &str) -> Held {
    scratch_bytes(contents.as_bytes())
}

fn scratch_bytes(bytes: &[u8]) -> Held {
    Held(RefCell::new(bytes.to_vec()))
}

#[test]
fn run_batch_applies_ops_in_order_against_the_evolving_buffer() {
    // The second op only matches text the first op produced, so a batch
    // that ran every op against the original buffer would report 0 for it.
    let f = scratch("alpha\n");
    let counts = run_batch(
        &f,
        &[batch_op("alpha", b"beta"), batch_op("beta", b"gamma")],
        None,
        ReplaceOptions::default(),
    )
    .unwrap()
    .counts;
    assert_eq!(counts, vec![1, 1]);
    assert_eq!(f.text(), "gamma\n");
}

#[test]
fn run_batch_refuses_everything_when_one_op_matches_nothing() {
    let f = scratch("alpha\nbeta\n");
    let err = run_batch(
        &f,
        &[
            batch_op("alpha", b"ALPHA"),
            batch_op("nowhere", b"X"),
            batch_op("beta", b"BETA"),
        ],
        None,
        ReplaceOptions::default(),
    )
    .expect_err("a zero-match op must refuse the batch");
    assert!(err.contains("matched 0 times"), "{err}");
    assert_eq!(
        f.text(),
        "alpha\nbeta\n",
        "the file must be left untouched, not half-transformed"
    );
}

/// `regex`/`multiline` are per-op in a batch. Silently dropping them gave
/// a caller literal, non-multiline matching after asking for the opposite.
#[test]
fn run_batch_refuses_options_that_are_per_op() {
    let f = scratch("alpha\n");
    for opts in [
        ReplaceOptions {
            regex: true,
            ..Default::default()
        },
        ReplaceOptions {
            multiline: true,
            ..Default::default()
        },
    ] {
        let err = run_batch(&f, &[batch_op("alpha", b"beta")], None, opts)
            .expect_err("a per-op option set on the batch must be refused");
        assert!(err.contains("per-op in batch mode"), "{err}");
    }
    assert_eq!(f.text(), "alpha\n");
}

#[test]
fn run_batch_allow_no_match_exempts_only_its_own_op() {
    let f = scratch("alpha\n");
    let mut tolerant = batch_op("nowhere", b"X");
    tolerant.allow_no_match = true;
    let counts = run_batch(
        &f,
        &[batch_op("alpha", b"beta"), tolerant],
        None,
        ReplaceOptions::default(),
    )
    .unwrap()
    .counts;
    assert_eq!(counts, vec![1, 0]);
    assert_eq!(f.text(), "beta\n");
}

#[test]
fn run_batch_count_only_leaves_the_file_alone() {
    let f = scratch("alpha alpha beta\n");
    let counts = run_batch(
        &f,
        &[batch_op("alpha", b"x"), batch_op("beta", b"y")],
        None,
        ReplaceOptions {
            count_only: true,
            ..Default::default()
        },
    )
    .unwrap()
    .counts;
    assert_eq!(counts, vec![2, 1]);
    assert_eq!(f.text(), "alpha alpha beta\n");
}

#[test]
fn run_batch_rejects_an_empty_op_list() {
    let f = scratch("alpha\n");
    let err = run_batch(&f, &[], None, ReplaceOptions::default())
        .expect_err("an empty batch is a caller bug, not a no-op");
    assert!(err.contains("no operations supplied"), "{err}");
}

// ── line-ending census ──────────────────────────────────────────────────

/// A replace rewrites the whole file, so a mixed file is silently
/// collapsed onto one convention. The outcome has to say so — this is the
/// case that otherwise only surfaces at `git commit`.
#[test]
fn outcome_reports_that_a_mixed_file_was_homogenised() {
    let f = scratch_bytes(b"alpha\nbeta\r\ngamma\n");
    let outcome = run_batch(
        &f,
        &[batch_op("alpha", b"ALPHA")],
        None,
        ReplaceOptions::default(),
    )
    .unwrap();

    assert_eq!((outcome.before.lf, outcome.before.crlf), (2, 1));
    assert!(outcome.before.is_mixed());
    assert_eq!(outcome.before.uniformity(), "mixed");

    assert!(!outcome.after.is_mixed());
    assert_eq!(outcome.after.uniformity(), "uniform");
    assert_eq!(outcome.after.terminators(), 3);
    assert!(
        outcome.normalized_line_endings(),
        "a mixed -> uniform rewrite must be flagged"
    );
}

#[test]
fn outcome_does_not_claim_normalisation_for_an_already_uniform_file() {
    let f = scratch_bytes(b"alpha\nbeta\n");
    let outcome = run_batch(
        &f,
        &[batch_op("alpha", b"ALPHA")],
        None,
        ReplaceOptions::default(),
    )
    .unwrap();
    assert!(!outcome.normalized_line_endings());
    assert_eq!(outcome.before.uniformity(), "uniform");
    assert_eq!(outcome.after.uniformity(), "uniform");
    assert_eq!(
        (outcome.after.lf, outcome.after.crlf, outcome.after.cr),
        (2, 0, 0)
    );
}

/// `count: true` writes nothing but must still describe what a write
/// would do, or a caller cannot use it to decide whether to write.
#[test]
fn count_only_reports_the_census_it_would_produce() {
    let f = scratch_bytes(b"alpha\nbeta\r\n");
    let outcome = run_batch(
        &f,
        &[batch_op("alpha", b"ALPHA")],
        None,
        ReplaceOptions {
            count_only: true,
            ..Default::default()
        },
    )
    .unwrap();
    assert!(outcome.before.is_mixed());
    assert!(!outcome.after.is_mixed());
    assert_eq!(f.bytes(), b"alpha\nbeta\r\n");
}

/// A run that matched nothing wrote nothing, so `after` must equal
/// `before` rather than describing a hypothetical rewrite.
#[test]
fn a_no_op_run_leaves_the_census_unchanged() {
    let f = scratch_bytes(b"alpha\nbeta\r\n");
    let mut tolerant = batch_op("nowhere", b"X");
    tolerant.allow_no_match = true;
    let outcome = run_batch(&f, &[tolerant], None, ReplaceOptions::default()).unwrap();
    assert_eq!(outcome.before, outcome.after);
    assert!(!outcome.normalized_line_endings());
}

// ── changed-line images ─────────────────────────────────────────────────

#[test]
fn changed_lines_carry_both_images_and_both_positions() {
    let f = scratch("one\ntwo\nthree\n");
    let outcome = run_batch(
        &f,
        &[batch_op("two", b"TWO")],
        None,
        ReplaceOptions {
            changed_lines: true,
            ..Default::default()
        },
    )
    .unwrap();

    assert_eq!(outcome.changed_lines.len(), 1);
    let line = &outcome.changed_lines[0];
    assert_eq!(line.old_line, Some(2));
    assert_eq!(line.new_line, Some(2));
    assert_eq!(line.old_text.as_deref(), Some("two"));
    assert_eq!(line.new_text.as_deref(), Some("TWO"));
    assert!(!outcome.changed_lines_truncated);
}

/// Positions must describe the FINAL file, not an intermediate buffer, so
/// a batch whose earlier op changed the line count still reports usable
/// `new_line` values.
#[test]
fn changed_lines_positions_survive_a_line_count_change_mid_batch() {
    let f = scratch("one\ntwo\nthree\n");
    let outcome = run_batch(
        &f,
        &[
            batch_op("one\n", b"one\nEXTRA\n"),
            batch_op("three", b"THREE"),
        ],
        None,
        ReplaceOptions {
            changed_lines: true,
            ..Default::default()
        },
    )
    .unwrap();

    let three = outcome
        .changed_lines
        .iter()
        .find(|l| l.new_text.as_deref() == Some("THREE"))
        .expect("the renamed line must be reported");
    assert_eq!(three.old_line, Some(3), "position in the file as read");
    assert_eq!(three.new_line, Some(4), "position in the file as written");
}

#[test]
fn changed_lines_respects_its_cap_and_says_when_it_truncated() {
    let f = scratch("a\na\na\na\na\n");
    let outcome = run_batch(
        &f,
        &[batch_op("a", b"b")],
        None,
        ReplaceOptions {
            changed_lines: true,
            changed_lines_max: Some(2),
            ..Default::default()
        },
    )
    .unwrap();
    assert_eq!(outcome.changed_lines.len(), 2);
    assert!(outcome.changed_lines_truncated);
}

#[test]
fn changed_lines_are_not_collected_unless_asked_for() {
    let f = scratch("one\ntwo\n");
    let outcome = run_batch(
        &f,
        &[batch_op("two", b"TWO")],
        None,
        ReplaceOptions::default(),
    )
    .unwrap();
    assert!(outcome.changed_lines.is_empty());
}

/// A whole-file rewrite is one Delete run then one Insert run with no
/// `Equal` between them, so an unbounded buffer would hold both copies of
/// the file just to discard all but `max` entries at the flush.
#[test]
fn changed_lines_does_not_buffer_a_whole_rewrite_to_emit_a_few() {
    let old: String = (0..500).map(|i| format!("line {i}\n")).collect();
    let new: String = (0..500).map(|i| format!("LINE {i}\n")).collect();
    let (lines, truncated) = collect_changed_lines(&old, &new, Some(3));
    assert_eq!(lines.len(), 3);
    assert!(truncated);
    assert_eq!(lines[0].old_text.as_deref(), Some("line 0"));
    assert_eq!(lines[0].new_text.as_deref(), Some("LINE 0"));
}

#[test]
fn changed_lines_reports_a_pure_insertion_with_no_old_side() {
    let (lines, _) = collect_changed_lines("a\nb\n", "a\nNEW\nb\n", None);
    assert_eq!(lines.len(), 1);
    assert_eq!(lines[0].old_line, None);
    assert_eq!(lines[0].old_text, None);
    assert_eq!(lines[0].new_line, Some(2));
    assert_eq!(lines[0].new_text.as_deref(), Some("NEW"));
}

#[test]
fn changed_lines_reports_a_pure_deletion_with_no_new_side() {
    let (lines, _) = collect_changed_lines("a\ngone\nb\n", "a\nb\n", None);
    assert_eq!(lines.len(), 1);
    assert_eq!(lines[0].old_line, Some(2));
    assert_eq!(lines[0].old_text.as_deref(), Some("gone"));
    assert_eq!(lines[0].new_line, None);
}

// ── preview modes never refuse, and never over-promise ──────────────────

/// `count`/`dry_run` are introspection modes: a zero result is a
/// legitimate answer, so they must not inherit the batch's all-or-nothing
/// refusal. The single-op path has always behaved this way.
#[test]
fn preview_modes_do_not_refuse_a_zero_match_op() {
    let f = scratch("alpha\n");
    for opts in [
        ReplaceOptions {
            count_only: true,
            ..Default::default()
        },
        ReplaceOptions {
            dry_run: true,
            ..Default::default()
        },
    ] {
        let outcome = run_batch(
            &f,
            &[batch_op("alpha", b"ALPHA"), batch_op("nowhere", b"X")],
            None,
            opts,
        )
        .expect("a preview must not refuse");
        assert_eq!(outcome.counts, vec![1, 0]);
    }
    assert_eq!(f.text(), "alpha\n");
}

/// A preview that matched nothing must not claim the write would
/// normalise the file: a real run short-circuits and never rewrites.
#[test]
fn count_only_with_no_matches_does_not_promise_a_rewrite() {
    let f = scratch_bytes(b"a\nb\r\n");
    let mut tolerant = batch_op("nowhere", b"X");
    tolerant.allow_no_match = true;
    let outcome = run_batch(
        &f,
        &[tolerant],
        None,
        ReplaceOptions {
            count_only: true,
            ..Default::default()
        },
    )
    .unwrap();
    assert_eq!(outcome.before, outcome.after);
    assert!(!outcome.normalized_line_endings());
}

/// An identity substitution matches but produces byte-identical output,
/// which the write path skips; callers that stamp mtime on "something
/// happened" must be able to tell.
#[test]
fn an_identity_substitution_reports_that_nothing_was_written() {
    let f = scratch("alpha\n");
    let outcome = run_batch(
        &f,
        &[batch_op("alpha", b"alpha")],
        None,
        ReplaceOptions::default(),
    )
    .unwrap();
    assert_eq!(outcome.total(), 1, "it matched");
    assert!(!outcome.wrote, "but no bytes reached the disk");
}

#[test]
fn a_real_substitution_reports_that_it_wrote() {
    let f = scratch("alpha\n");
    let outcome = run_batch(
        &f,
        &[batch_op("alpha", b"beta")],
        None,
        ReplaceOptions::default(),
    )
    .unwrap();
    assert!(outcome.wrote);
}

// ── previews must predict the write, including its failures ─────────────

/// A pure line-ending rewrite is invisible to an LF-space diff, so
/// `would_write` is the only honest answer to "will this change the file".
#[test]
fn a_line_ending_override_alone_reports_that_it_would_write() {
    let f = scratch_bytes(b"a\nb\n");
    let mut tolerant = batch_op("nowhere", b"X");
    tolerant.allow_no_match = true;
    let outcome = run_batch(
        &f,
        &[tolerant],
        None,
        ReplaceOptions {
            dry_run: true,
            line_ending_override: Some(LineEnding::CrLf),
            ..Default::default()
        },
    )
    .expect("an override exempts the zero-match refusal");
    assert_eq!(outcome.total(), 0);
    assert!(
        outcome.would_write,
        "converting every terminator is a change"
    );
    assert!(!outcome.wrote, "dry_run writes nothing");
    assert_eq!(f.bytes(), b"a\nb\n");
}

/// The single-op path exempts a line-ending override from the zero-match
/// refusal. A batch must NOT: its promise is that a typo cannot produce a
/// partial rewrite, and converting terminators says nothing about whether
/// the patterns were right.
#[test]
fn a_line_ending_override_does_not_exempt_a_batch_from_the_zero_match_refusal() {
    let f = scratch_bytes(b"a\nb\n");
    let err = run_batch(
        &f,
        &[batch_op("nowhere", b"X")],
        None,
        ReplaceOptions {
            line_ending_override: Some(LineEnding::CrLf),
            ..Default::default()
        },
    )
    .expect_err("a typo must still refuse the batch");
    assert!(err.contains("matched 0 times"), "{err}");
    assert!(
        err.contains("allow_no_match"),
        "the message must name the escape hatch: {err}"
    );
    assert_eq!(
        f.bytes(),
        b"a\nb\n",
        "the refusal must leave the file untouched, override or not"
    );
}

/// The escape hatch still works: an op that is legitimately idempotent
/// says so, and the override then rewrites the terminators.
#[test]
fn an_override_with_allow_no_match_still_rewrites_the_terminators() {
    let f = scratch_bytes(b"a\nb\n");
    let mut tolerant = batch_op("nowhere", b"X");
    tolerant.allow_no_match = true;
    let outcome = run_batch(
        &f,
        &[tolerant],
        None,
        ReplaceOptions {
            line_ending_override: Some(LineEnding::CrLf),
            ..Default::default()
        },
    )
    .expect("an explicit allow_no_match is the documented way through");
    assert_eq!(outcome.total(), 0);
    assert!(outcome.wrote);
    assert_eq!(f.bytes(), b"a\r\nb\r\n");
}

/// A CR reaching the substitution buffer survives into the denormaliser,
/// whose precondition is LF-only input, and lands as `\r\r\n`.
#[test]
fn decode_replacement_strips_cr_so_a_crlf_target_cannot_double_it() {
    assert_eq!(decode_replacement("a\\r\\nb", false).unwrap(), b"a\nb");
    assert_eq!(decode_replacement("a\r\nb", true).unwrap(), b"a\nb");
    assert_eq!(decode_replacement("a\rb", true).unwrap(), b"a\nb");
}

#[test]
fn ops_from_json_rejects_an_empty_literal_pattern() {
    let err = ops_from_json(&json(r#"[{ "pattern": "", "replacement": "x" }]"#))
        .expect_err("an empty literal pattern would rewrite the whole file");
    assert!(err.contains("every position"), "{err}");
}

#[test]
fn ops_from_json_rejects_a_mistyped_label() {
    let err =
        ops_from_json(&json(r#"[{ "label": 3, "pattern": "a", "replacement": "b" }]"#))
            .expect_err("a mistyped label must not silently vanish from the tally");
    assert!(err.contains("'label'"), "{err}");
}

/// Under a `.gitattributes` regime the target convention is git's,
/// not the file's own — and `count: true` must predict the same target the
/// write uses, or a preview is worthless for deciding whether to write.
#[test]
fn the_reported_target_is_the_gitattributes_one_in_both_preview_and_write() {
    // An LF file under a policy that demands CRLF.
    let target = scratch_bytes(b"alpha\nbeta\n");
    let preview = run_batch(
        &target,
        &[batch_op("alpha", b"ALPHA")],
        Some(LineEnding::CrLf),
        ReplaceOptions {
            count_only: true,
            ..Default::default()
        },
    )
    .unwrap();
    assert_eq!(
        (preview.after.lf, preview.after.crlf),
        (0, 2),
        "the preview must report git's target, not the file's own LF"
    );
    let written = run_batch(
        &target,
        &[batch_op("alpha", b"ALPHA")],
        Some(LineEnding::CrLf),
        ReplaceOptions::default(),
    )
    .unwrap();
    assert_eq!(
        written.after, preview.after,
        "preview must predict the write"
    );
    assert_eq!(target.bytes(), b"ALPHA\r\nbeta\r\n");
}

// ── the shared `ops` schema ─────────────────────────────────────────────

#[test]
fn ops_from_json_accepts_the_mcp_ops_array_verbatim() {
    let ops = ops_from_json(&json(r#"[ { "label": "rename", "pattern": "a(", "replacement": "b(" }, { "pattern": "^x", "replacement": "y", "regex": true, "multiline": true } ]"#))
    .unwrap();
    assert_eq!(ops.len(), 2);
    assert_eq!(ops[0].label.as_deref(), Some("rename"));
    assert_eq!(ops[0].pattern, "a(");
    assert!(!ops[0].regex, "regex must stay opt-in per op");
    assert!(ops[1].regex && ops[1].multiline);
    assert_eq!(ops[1].label, None);
}

#[test]
fn ops_from_json_takes_the_replacement_verbatim_by_default() {
    let ops = ops_from_json(&json(r#"[ { "pattern": "x", "replacement": "a\\nb" }, { "pattern": "y", "replacement": "a\\nb", "expand_escapes": true } ]"#))
    .unwrap();
    assert_eq!(ops[0].replacement, "a\\nb");
    assert_eq!(ops[1].replacement, "a\nb");
}

#[test]
fn ops_from_json_decodes_a_base64_payload() {
    let ops = ops_from_json(&json(r#"[{ "pattern": "eA==", "pattern_format": "base64", "replacement": "eQ==", "replacement_format": "base64" }]"#))
    .unwrap();
    assert_eq!(ops[0].pattern, "x");
    assert_eq!(ops[0].replacement, "y");
}

#[test]
fn ops_from_json_rejects_an_unknown_field() {
    // A typo'd or MCP-only field must not be silently ignored, or a batch
    // that looks configured one way would run another.
    let err = ops_from_json(&json(r#"[ { "pattern": "x", "replacement": "y", "regexp": true } ]"#))
    .expect_err("unknown fields must be rejected");
    assert!(err.contains("ops[0]"), "{err}");
    assert!(err.contains("regexp"), "{err}");
}

#[test]
fn ops_from_json_rejects_a_stringly_typed_boolean() {
    let err = ops_from_json(&json(r#"[ { "pattern": "x", "replacement": "y", "regex": "true" } ]"#))
    .expect_err("a JSON string is not a boolean");
    assert!(err.contains("'regex'"), "{err}");
}

#[test]
fn ops_from_json_rejects_expand_escapes_with_a_format() {
    let err = ops_from_json(&json(r#"[{ "pattern": "x", "replacement": "eQ==", "replacement_format": "base64", "expand_escapes": true }]"#))
    .expect_err("the two escape channels are contradictory");
    assert!(err.contains("expand_escapes"), "{err}");
}

#[test]
fn ops_from_json_rejects_an_empty_array() {
    assert!(ops_from_json(&json(r#"[]"#)).is_err());
}

#[test]
fn run_batch_validates_every_op_before_touching_the_file() {
    // The bad pattern is last, so a batch that compiled lazily would have
    // already rewritten the file by the time it failed.
    let f = scratch("alpha\n");
    let mut bad = batch_op("(unclosed", b"x");
    bad.regex = true;
    let err = run_batch(
        &f,
        &[batch_op("alpha", b"beta"), bad],
        None,
        ReplaceOptions::default(),
    )
    .expect_err("an invalid regex must fail the batch");
    let _ = err;
    assert_eq!(f.text(), "alpha\n");
}

// ── decode_replacement ──────────────────────────────────────────────────

#[test]
fn decode_replacement_default_decodes_backslash_n_to_lf() {
    assert_eq!(decode_replacement("a\\nb", false).unwrap(), b"a\nb");
}

#[test]
fn decode_replacement_default_decodes_backslash_t_to_tab() {
    assert_eq!(decode_replacement("a\\tb", false).unwrap(), b"a\tb");
}

#[test]
fn decode_replacement_default_decodes_double_backslash() {
    assert_eq!(decode_replacement("a\\\\b", false).unwrap(), b"a\\b");
}

#[test]
fn decode_replacement_default_decodes_hex_escape() {
    // \x41 == 'A'
    assert_eq!(decode_replacement("\\x41", false).unwrap(), b"A");
}

#[test]
fn decode_replacement_default_decodes_unicode_escape() {
    // \u00e9 == 'é' (U+00E9), encoded as 0xC3 0xA9 in UTF-8.
    assert_eq!(decode_replacement("\\u00e9", false).unwrap(), b"\xC3\xA9");
}

#[test]
fn decode_replacement_default_passes_through_plain_ascii() {
    assert_eq!(decode_replacement("hello", false).unwrap(), b"hello");
}

#[test]
fn decode_replacement_default_does_not_touch_dollar_capture_refs() {
    // Capture group expansion happens later in the regex engine; at this
    // layer `$1` and `$$` must be passed through verbatim.
    assert_eq!(decode_replacement("$1-$2", false).unwrap(), b"$1-$2");
    assert_eq!(decode_replacement("$$", false).unwrap(), b"$$");
}

#[test]
fn decode_replacement_default_rejects_unknown_escape() {
    let err = decode_replacement("a\\qb", false).unwrap_err();
    assert!(
        err.contains("invalid escape in replacement"),
        "error should be prefixed for the CLI; got {err:?}"
    );
}

#[test]
fn decode_replacement_literal_keeps_backslash_n_verbatim() {
    // In literal mode the two-character sequence `\` + `n` survives.
    assert_eq!(decode_replacement("a\\nb", true).unwrap(), b"a\\nb");
}

#[test]
fn decode_replacement_literal_accepts_unknown_escape() {
    // Literal mode performs no decoding, so what would otherwise be an
    // unknown escape is just passed through.
    assert_eq!(decode_replacement("a\\qb", true).unwrap(), b"a\\qb");
}

#[test]
fn decode_replacement_literal_passes_through_real_newline() {
    // A real newline byte in the input string (not a `\n` escape) is
    // preserved in both modes.
    assert_eq!(decode_replacement("a\nb", true).unwrap(), b"a\nb");
    assert_eq!(decode_replacement("a\nb", false).unwrap(), b"a\nb");
}

#[test]
fn decode_replacement_default_decodes_long_unicode_escape() {
    // \U0001F600 == U+1F600 (😀), encoded as 0xF0 0x9F 0x98 0x80 in UTF-8.
    assert_eq!(
        decode_replacement("\\U0001F600", false).unwrap(),
        b"\xF0\x9F\x98\x80"
    );
}

// ── run() integration tests ─────────────────────────────────────────────

fn run_test(
    file: &Held,
    pattern: &str,
    replacement: &[u8],
    multiline: bool,
    regex: bool,
    line_ending_override: Option<LineEnding>,
    diff_out: Option<&mut Vec<u8>>,
    count: bool,
    dry_run: bool,
) -> Result<usize, String> {
    let opts = ReplaceOptions {
        multiline,
        regex,
        line_ending_override,
        count_only: count,
        dry_run,
        changed_lines: false,
        changed_lines_max: None,
    };
    let decoded = read_text(&file.bytes())?;
    let prepared = replace::run("f", &decoded, pattern, replacement, None, &opts)?;
    let plan = file.write(&decoded, prepared, None, &opts, diff_out.is_some());
    if let (Some(out), Some(diff)) = (diff_out, plan.diff) {
        out.extend_from_slice(diff.as_bytes());
    }
    Ok(plan.outcome.total())
}

/// `run` takes `replacement` as `&[u8]` for signature convenience, but
/// the bytes must form valid UTF-8: `replace` operates on decoded UTF-8
/// text throughout and re-encodes strictly afterward, so a replacement
/// that isn't valid UTF-8 on its own has nothing valid to expand into.
/// A single `\xFF` byte (as `--literal-replacement` or an unpaired
/// `\xHH` escape would produce) is invalid UTF-8 in isolation, so `run`
/// must reject it explicitly rather than let it corrupt the match
/// expansion or panic downstream. The file must be left untouched.
#[test]
fn run_rejects_non_utf8_replacement_bytes() {
    let path = scratch_bytes(b"hello\n");

    let err = run_test(
        &path, "hello", b"\xFF", false, false, None, None, false, false,
    )
    .expect_err("a lone 0xFF byte is not valid UTF-8 and must be rejected");
    assert!(
        err.contains("replacement is not valid UTF-8"),
        "got: {err}"
    );
    assert_eq!(
        path.bytes(),
        b"hello\n",
        "file must be untouched when the replacement is rejected"
    );

}

/// Write `content` to a temp file, run `replace::run`, and return the
/// resulting file bytes.  `diff` output is captured and returned separately.
///
/// Always exercises regex mode (`regex: true`) internally — most of this
/// suite's patterns rely on regex features (anchors, groups, character
/// classes). Tests that specifically need default *literal* matching
/// call `run_test` directly with `regex: false` instead.
fn replace_file(
    content: &[u8],
    pattern: &str,
    replacement: &[u8],
    multiline: bool,
    want_diff: bool,
) -> (Vec<u8>, String) {
    let path = scratch_bytes(content);

    let mut diff_buf: Vec<u8> = Vec::new();
    let diff_out = if want_diff { Some(&mut diff_buf) } else { None };

    run_test(
        &path,
        pattern,
        replacement,
        multiline,
        true,
        None,
        diff_out,
        false,
        false,
    )
    .unwrap();

    let result = path.bytes();

    (result, String::from_utf8_lossy(&diff_buf).into_owned())
}

/// Write `content` to a temp file, run `replace::run` with regions
/// collection enabled, and return the collected [`ChangedRegion`]s
/// (file content itself is not needed by these tests).
fn replace_file_regions(
    content: &[u8],
    pattern: &str,
    replacement: &[u8],
    regex: bool,
    text_budget_lines: Option<usize>,
) -> Vec<ChangedRegion> {
    let path = scratch_bytes(content);

    let opts = ReplaceOptions {
        regex,
        ..Default::default()
    };
    let decoded = read_text(&path.bytes()).unwrap();
    let request = Some(RegionsRequest { text_budget_lines });
    replace::run("f", &decoded, pattern, replacement, request, &opts).unwrap().regions
}

// ── ChangedRegion (cheap changed-region echo, no full-file diff) ─────────

/// A single-line match/replacement produces one region spanning that
/// line, with the replacement text and its line count.
#[test]
fn changed_region_single_line_match() {
    let regions = replace_file_regions(
        b"hello world\nsecond line\n",
        "world",
        b"there",
        false,
        None,
    );
    assert_eq!(regions.len(), 1);
    assert_eq!(regions[0].start_line, 1);
    assert_eq!(regions[0].end_line, 1);
    assert_eq!(regions[0].new_line_count, 1);
    assert_eq!(regions[0].new_text, "there");
}

/// A match spanning multiple original lines reports the correct
/// start/end line range, and a multi-line replacement reports the
/// correct new_line_count.
#[test]
fn changed_region_multiline_match_and_replacement() {
    let content = b"one\ntwo\nthree\nfour\n";
    // Regex spans lines 2-3 ("two\nthree"); multiline dot-all not needed
    // since the literal pattern itself contains the newline.
    let regions = replace_file_regions(content, "two\nthree", b"TWO\nTHREE\nEXTRA", true, None);
    assert_eq!(regions.len(), 1);
    assert_eq!(regions[0].start_line, 2);
    assert_eq!(regions[0].end_line, 3);
    assert_eq!(regions[0].new_line_count, 3);
    assert_eq!(regions[0].new_text, "TWO\nTHREE\nEXTRA");
}

/// A replacement ending in a
/// trailing `\n` must not be over-counted as an extra empty line --
/// `new_line_count` must match how `render_changed_regions` actually
/// splits/renders `new_text` (which drops the spurious trailing empty
/// element produced by `str::split('\n')` on a trailing separator).
#[test]
fn changed_region_replacement_with_trailing_newline() {
    let regions = replace_file_regions(
        b"hello world\n",
        "world",
        b"line one\nline two\n",
        false,
        None,
    );
    assert_eq!(regions.len(), 1);
    assert_eq!(
        regions[0].new_line_count, 2,
        "trailing \\n must not count as a third (empty) line"
    );
    assert_eq!(regions[0].new_text, "line one\nline two\n");
}

/// Two separate matches later in the file report correctly
/// incrementing line numbers (regression for the cumulative,
/// single-pass line-counting logic: the second match's start_line must
/// not be computed as if it were still at the start of the file).
#[test]
fn changed_region_multiple_matches_cumulative_line_numbers() {
    let content = b"a\nfoo\nb\nfoo\nc\n";
    let regions = replace_file_regions(content, "foo", b"bar", false, None);
    assert_eq!(regions.len(), 2);
    assert_eq!(regions[0].start_line, 2);
    assert_eq!(regions[0].end_line, 2);
    assert_eq!(regions[1].start_line, 4);
    assert_eq!(regions[1].end_line, 4);
}

/// An empty replacement (pure deletion) reports `new_line_count: 0` and
/// empty `new_text`, while still reporting the correct old line span.
/// Regression for the trailing-newline boundary case: a match ending
/// exactly on a line terminator (`"delete me\n"`) must report
/// `end_line == start_line`, not `start_line + 1` -- the terminator
/// ends the matched line, it doesn't pull in the next line's content.
#[test]
fn changed_region_empty_replacement_is_deletion() {
    let regions =
        replace_file_regions(b"keep\ndelete me\nkeep2\n", "delete me\n", b"", false, None);
    assert_eq!(regions.len(), 1);
    assert_eq!(regions[0].start_line, 2);
    assert_eq!(regions[0].end_line, 2);
    assert_eq!(regions[0].new_line_count, 0);
    assert_eq!(regions[0].new_text, "");
}

/// `text_budget_lines` bounds retained `new_text` without affecting the
/// accuracy of `new_line_count`/`start_line`/`end_line`: once the
/// running total of materialised lines reaches the budget, later
/// regions still report correct sizes but leave `new_text` empty.
#[test]
fn changed_region_text_budget_bounds_retained_text() {
    let content = b"a\nfoo\nb\nfoo\nc\nfoo\nd\n";
    // Three matches, each a 1-line replacement; budget covers only the
    // first match's line.
    let regions = replace_file_regions(content, "foo", b"bar", false, Some(1));
    assert_eq!(regions.len(), 3);
    // First region is under budget (0 < 1): text materialised.
    assert_eq!(regions[0].new_text, "bar");
    assert_eq!(regions[0].new_line_count, 1);
    // Second and third regions are over budget: sizes stay accurate,
    // text is left empty.
    assert_eq!(regions[1].new_text, "");
    assert_eq!(regions[1].new_line_count, 1);
    assert_eq!(regions[1].start_line, 4);
    assert_eq!(regions[2].new_text, "");
    assert_eq!(regions[2].new_line_count, 1);
    assert_eq!(regions[2].start_line, 6);
}

/// Regression: a single match whose own replacement dwarfs the budget
/// must not be fully materialised just because the running total was
/// still under budget beforehand -- the check must account for the
/// candidate region's own size (`text_materialized + new_line_count`),
/// not just the pre-match running total, or a huge first match defeats
/// the memory bound entirely.
#[test]
fn changed_region_single_huge_match_is_not_materialized_over_budget() {
    let content = b"foo\nkeep\n";
    let huge_replacement = "x\n".repeat(1000);
    let regions =
        replace_file_regions(content, "foo", huge_replacement.as_bytes(), false, Some(5));
    assert_eq!(regions.len(), 1);
    assert_eq!(regions[0].new_line_count, 1000);
    assert_eq!(
        regions[0].new_text, "",
        "a single match whose new_line_count alone exceeds the budget must \
         not be materialized, even though the running total started at 0"
    );
}

/// Regression: `line_no` must track the line number of `scanned_to`,
/// not just `end_line` -- a match ending in a trailing `\n` physically
/// advances `scanned_to` past that newline even though it's excluded
/// from `end_line` (see the deletion test above), so a subsequent
/// match's `start_line` would be under-counted by one line if `line_no`
/// weren't also advanced past it.
#[test]
fn changed_region_match_trailing_newline_does_not_undercount_next_match() {
    let content = b"keep\ndelete me\nkeep2\nfoo\nkeep3\n";
    let regions = replace_file_regions(content, "delete me\n|foo", b"X", true, None);
    assert_eq!(regions.len(), 2);
    assert_eq!(regions[0].start_line, 2);
    assert_eq!(regions[0].end_line, 2);
    assert_eq!(
        regions[1].start_line, 4,
        "second match must not be under-counted by the first match's trailing newline"
    );
    assert_eq!(regions[1].end_line, 4);
}

// ── Normal cases ──────────────────────────────────────────────────────────

#[test]
fn replace_simple_word() {
    let (out, _) = replace_file(b"hello world\n", "world", b"Rust", false, false);
    assert_eq!(out, b"hello Rust\n");
}

#[test]
fn replace_no_matches() {
    let (out, _) = replace_file(b"hello world\n", "xyz", b"ZZZ", false, false);
    assert_eq!(out, b"hello world\n");
}

#[test]
fn replace_multiple_occurrences() {
    let (out, _) = replace_file(b"aaa\n", "a", b"b", false, false);
    assert_eq!(out, b"bbb\n");
}

#[test]
fn replace_with_capture_group() {
    let (out, _) = replace_file(
        b"2026-03-07\n",
        r"(\d{4})-(\d{2})-(\d{2})",
        b"$3/$2/$1",
        false,
        false,
    );
    assert_eq!(out, b"07/03/2026\n");
}

#[test]
fn replace_named_capture_group() {
    let (out, _) = replace_file(
        b"key=value\n",
        r"(?P<k>\w+)=(?P<v>\w+)",
        b"$v=$k",
        false,
        false,
    );
    assert_eq!(out, b"value=key\n");
}

#[test]
fn replace_multiline() {
    // Without (?m), ^ matches only at start of input.
    let (out, _) = replace_file(b"line1\nline2\nline3\n", "^line", b"item", false, false);
    assert_eq!(out, b"item1\nline2\nline3\n");
}

#[test]
fn replace_multiline_start_anchor() {
    // With (?m) / --multiline, ^ matches at start of every line.
    let (out, _) = replace_file(b"line1\nline2\nline3\n", "^line", b"item", true, false);
    assert_eq!(out, b"item1\nitem2\nitem3\n");
}

#[test]
fn replace_multiline_end_anchor() {
    let (out, _) = replace_file(b"foo1\nfoo2\n", r"\d$", b"X", true, false);
    assert_eq!(out, b"fooX\nfooX\n");
}

#[test]
fn replace_multiline_whole_line() {
    // (?m)^.+$ matches each non-empty line body (without the newline).
    // ^.*$ is intentionally avoided: it also matches the zero-length
    // empty string that the regex engine sees after a trailing newline.
    let (out, _) = replace_file(b"alpha\nbeta\n", "^.+$", b"X", true, false);
    assert_eq!(out, b"X\nX\n");
}

#[test]
fn replace_crlf_file_transparent() {
    // CRLF file: pattern uses \n (LF) because harrier normalises.
    let content = b"line1\r\nline2\r\n";
    let (out, _) = replace_file(content, "line1", b"item1", false, false);
    assert_eq!(out, b"item1\r\nline2\r\n");
}

#[test]
fn replace_crlf_multiline_anchor() {
    // (?m) anchors work through CRLF normalisation transparently.
    let content = b"one\r\ntwo\r\n";
    let (out, _) = replace_file(content, "^two", b"TWO", true, false);
    assert_eq!(out, b"one\r\nTWO\r\n");
}

/// Encode `text` (LF-only) as UTF-16LE with a BOM, mapping each `\n` to the
/// `ending` byte sequence, then run `replace` with `line_ending_override`
/// and return the resulting raw file bytes.
fn replace_utf16le_with_override(
    text_lf: &str,
    ending: &str,
    pattern: &str,
    replacement: &[u8],
    line_ending_override: Option<LineEnding>,
) -> Vec<u8> {
    let native = text_lf.replace('\n', ending);
    let mut bytes: Vec<u8> = vec![0xFF, 0xFE]; // UTF-16LE BOM
    for unit in native.encode_utf16() {
        bytes.extend_from_slice(&unit.to_le_bytes());
    }

    let path = scratch_bytes(&bytes);

    run_test(
        &path,
        pattern,
        replacement,
        false,
        true,
        line_ending_override,
        None,
        false,
        false,
    )
    .unwrap();

    path.bytes()
}

#[test]
fn replace_utf16le_line_ending_crlf_to_lf() {
    // Regression for the double line-ending pass.  The old, non-encoding-
    // aware first pass stripped *every* 0x0D byte regardless of code-unit
    // alignment — including the 0x0D of each `[0x0D,0x00]` CR unit — which
    // misaligned the whole UTF-16 stream before the second pass decoded it.
    //
    // `--line-ending` rewrites *all* endings whole-file even when the
    // pattern matches nothing (matching is incidental here; note that
    // `replace` matches against the file's native bytes, so an ASCII
    // pattern does not match UTF-16-encoded text anyway).  The output must
    // still decode cleanly, keep its BOM, and carry LF-only endings.
    let out = replace_utf16le_with_override(
        "foo\nbar\n",
        "\r\n",
        "no-such-match",
        b"",
        Some(LineEnding::Lf),
    );
    // Result is valid UTF-16LE (even length, BOM preserved).
    assert_eq!(out.len() % 2, 0, "UTF-16LE byte length must stay even");
    assert_eq!(&out[..2], &[0xFF, 0xFE], "BOM must be preserved");
    let (decoded, _, had_errors) = encoding_rs::UTF_16LE.decode(&out);
    assert!(!had_errors, "decoded with replacement chars: {decoded:?}");
    assert_eq!(decoded, "foo\nbar\n");
    assert!(!decoded.contains('\r'), "CRLF was not converted to LF");
}

#[test]
fn replace_utf16le_line_ending_lf_to_crlf() {
    let out = replace_utf16le_with_override(
        "foo\nbar\n",
        "\n",
        "no-such-match",
        b"",
        Some(LineEnding::CrLf),
    );
    assert_eq!(out.len() % 2, 0, "UTF-16LE byte length must stay even");
    assert_eq!(&out[..2], &[0xFF, 0xFE], "BOM must be preserved");
    let (decoded, _, had_errors) = encoding_rs::UTF_16LE.decode(&out);
    assert!(!had_errors, "decoded with replacement chars: {decoded:?}");
    assert_eq!(decoded, "foo\r\nbar\r\n");
}

#[test]
fn replace_back_reference_zero() {
    // $0 expands to the whole match when the pattern has a capturing group.
    let (out, _) = replace_file(b"hello\n", "(ell)", b"[$0]", false, false);
    assert_eq!(out, b"h[ell]o\n");
}

#[test]
fn replace_literal_dollar() {
    // $$ in the replacement template becomes a literal $ when the pattern
    // has a capturing group (so capture expansion is active).
    let (out, _) = replace_file(b"price 10\n", r"(\d+)", b"$$$$5", false, false);
    assert_eq!(out, b"price $$5\n");
}

#[test]
fn replace_group_less_pattern_keeps_dollar_literal() {
    // With no capturing group the replacement is literal, so a bare `$`
    // (prices, variables, placeholders) survives instead of being read as
    // a capture reference.
    let (out, _) = replace_file(b"amount X\n", "X", b"$5.00", false, false);
    assert_eq!(out, b"amount $5.00\n");
}

#[test]
fn replace_group_less_pattern_dollar_zero_is_literal() {
    // $0 is NOT interpreted as the whole match when the pattern has no
    // capturing group — it is written verbatim.
    let (out, _) = replace_file(b"hello\n", "ell", b"[$0]", false, false);
    assert_eq!(out, b"h[$0]o\n");
}

#[test]
fn replace_literal_pattern_keeps_dollar_literal() {
    // A literal (non-regex) search never has a capturing group, so its
    // replacement is always literal.
    let path = scratch_bytes(b"COST here\n");
    run_test(
        &path, "COST", b"$9.99", false, false, None, None, false, false,
    )
    .unwrap();
    let out = path.bytes();

    assert_eq!(out, b"$9.99 here\n");
}

#[test]
fn zero_match_preserves_mtime_and_writes_no_bak() {
    let path = scratch_bytes(b"hello world\n");
    let n = run_test(
        &path,
        "this_pattern_is_not_in_the_file",
        b"REPLACEMENT",
        false,
        false,
        None,
        None,
        false,
        false,
    )
    .unwrap();
    assert_eq!(n, 0, "zero-match run must return 0");
    let decoded = read_text(&path.bytes()).unwrap();
    let opts = ReplaceOptions::default();
    let prepared = replace::run("f", &decoded, "not there", b"x", None, &opts).unwrap();
    let plan = path.write(&decoded, prepared, None, &opts, false);
    assert!(plan.bytes.is_none(), "zero-match run must write nothing");
    assert_eq!(
        path.bytes(),
        b"hello world\n",
        "zero-match run must leave file bytes untouched"
    );
}

#[test]
fn zero_match_does_not_apply_automatic_git_eol_policy() {
    let path = scratch_bytes(b"hello\n");
    let decoded = read_text(&path.bytes()).unwrap();
    let opts = ReplaceOptions::default();
    let prepared = replace::run("f", &decoded, "not present", b"replacement", None, &opts).unwrap();
    let plan = path.write(&decoded, prepared, Some(LineEnding::CrLf), &opts, false);
    assert_eq!(plan.outcome.total(), 0);
    assert_eq!(path.bytes(), b"hello\n");
}

// ── Diff output ───────────────────────────────────────────────────────────

#[test]
fn diff_no_changes_empty_diff_body() {
    let (_, diff) = replace_file(b"unchanged\n", "xyz", b"abc", false, true);
    // No hunks when nothing changed.
    assert!(!diff.contains("@@"), "expected no diff hunks: {diff:?}");
}

#[test]
fn diff_shows_changed_line() {
    let (_, diff) = replace_file(b"hello world\n", "world", b"Rust", false, true);
    assert!(
        diff.contains("-hello world"),
        "missing removed line: {diff:?}"
    );
    assert!(diff.contains("+hello Rust"), "missing added line: {diff:?}");
}

#[test]
fn diff_header_contains_filename() {
    let path = scratch_bytes(b"old\n");

    let mut diff_buf: Vec<u8> = Vec::new();
    run_test(
        &path,
        "old",
        b"new",
        false,
        true,
        None,
        Some(&mut diff_buf),
        false,
        false,
    )
    .unwrap();

    let diff = String::from_utf8_lossy(&diff_buf);
    assert!(diff.contains("a/"), "missing a/ prefix: {diff:?}");
    assert!(diff.contains("b/"), "missing b/ prefix: {diff:?}");

}

#[test]
fn diff_multiline_replace() {
    let input = b"alpha\nbeta\ngamma\n";
    let (_, diff) = replace_file(input, "^beta$", b"BETA", true, true);
    assert!(diff.contains("-beta"), "missing removed line: {diff:?}");
    assert!(diff.contains("+BETA"), "missing added line: {diff:?}");
    assert!(
        !diff.contains("-alpha"),
        "alpha should not appear in diff: {diff:?}"
    );
}

#[test]
fn diff_multiple_hunks() {
    // Changes to first and last line, context line in between.
    let input = b"AAA\ncontext\nBBB\n";
    let (_, diff) = replace_file(input, "AAA|BBB", b"X", false, true);
    assert!(diff.contains("-AAA"), "{diff:?}");
    assert!(diff.contains("+X"), "{diff:?}");
    assert!(diff.contains("-BBB"), "{diff:?}");
}

// ── Errors ──────────────────────────────────────────────────────────────────

#[test]
fn text_that_the_encoding_of_the_file_lacks_is_refused() {
    let f = scratch_bytes(b"caf\xE9 cr\xE8me br\xFBl\xE9e d\xE9j\xE0 vu\n");
    let before = f.bytes();
    let r = run_test(&f, "vu", "\u{4E16}".as_bytes(), false, false, None, None, false, false);
    assert!(r.is_err());
    assert_eq!(f.bytes(), before);
    run_test(&f, "vu", "é".as_bytes(), false, false, None, None, false, false).unwrap();
    assert!(f.bytes().ends_with(b"\xE0 \xE9\n"));
}

#[test]
fn a_pattern_that_cannot_be_used_is_an_error() {
    let f = scratch("a\n");
    let err = run_test(&f, "(", b"x", false, true, None, None, false, false).unwrap_err();
    assert!(err.contains("unclosed group"), "{err}");
    let err = run_test(&f, "", b"x", false, false, None, None, false, false).unwrap_err();
    assert!(err.contains("every position"), "{err}");
}
