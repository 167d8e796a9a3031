//! The guidance block for assistants, and its injection into a file.
//!
//! The block stands between two marker comments. Injecting it again rewrites what
//! stands between the markers and leaves the rest of the file as it is.

use vstd::arithmetic::power2::*;
use vstd::prelude::*;
use vstd::string::*;
use vstd::utf8::*;

use crate::cmd::head::content_text;
use crate::cmd::write::{
    is_plain, is_write_plan, law_utf8_holds_plain_text, law_written_utf16_reads_back,
    law_written_utf8_reads_back, lemma_text_to_lf_lacks_cr, opt_bytes, target_of, written_bytes,
    WritePlan,
};
use crate::encoding::{text_lf_to, text_to_lf, BomPolicy, EncodingKind, LineEnding, OutputEncoding};
use crate::layout::lacks_cr;
use crate::source::{
    bom_length, is_utf16_of, lacks_nul, lemma_utf16_file, show_text, shown_text, VIEW_CEILING,
};
use crate::text::{chars_of, find_text, is_space, matches_at, same, stands_at, string_of, trim_end, trim_end_of};

verus! {

/// Begins the block.
pub const BEGIN_MARKER: &'static str = "<!-- tpu-mcp:setup:begin -->";

/// Ends the block.
pub const END_MARKER: &'static str = "<!-- tpu-mcp:setup:end -->";

/// The guidance, without the markers.
pub const GUIDANCE: &'static str = r#"## File I/O — use `tpu_*` MCP tools, never PowerShell or shell

This workspace runs the **tpu-mcp** MCP server which exposes encoding-aware
file primitives as first-class tools. Plain `Get-Content` / `Set-Content` /
`Out-File` / `>` / `cat` / `sed` round-trip files through the active code
page and silently corrupt UTF-8, UTF-16, smart quotes, em-dashes, and
box-drawing characters. Use the MCP tools instead — they detect, preserve,
and round-trip the file's native encoding and line endings safely.

**Rule:** when working in any project that has the tpu-mcp server registered,
ALWAYS prefer the `tpu_*` tools over PowerShell or shell file commands.

| MCP tool | Use it for |
|---|---|
| `tpu_read_file` | reading text files (UTF-8, UTF-16, Windows-1252, Shift-JIS, …) |
| `tpu_read_head` / `tpu_read_tail` | first/last N lines or bytes |
| `tpu_read_file_binary` | inspecting raw bytes of binary files |
| `tpu_read_file_escaped` | reading text as a single 7-bit-clean escaped line |
| `tpu_write_file` | replacing a text file's full contents |
| `tpu_append_file` | appending text to an existing file |
| `tpu_replace_in_file` | regex / fixed-string substitution (use `fixed_strings: true` for literal targets) |
| `tpu_edit_file` | targeted insert/delete/splice at known line numbers |
| `tpu_validate_file` | pre-flight assertion that a file is in the expected state |
| `tpu_count_file` | line / word / char / byte / pattern counts |
| `tpu_find` | encoding-aware grep across files and globs |
| `tpu_copy_file` | copy a file or recursively copy a tree (resilient: per-entry warnings, never aborts mid-walk by default) |
| `tpu_render_file` | populate a file from a `{{TOKEN}}` template |
| `tpu_stat_file` | verify a write actually persisted (mtime / size) |
| `tpu_setup` | (re)write this guidance block into the active `copilot-instructions.md` |

### When to use each

- **Reads** — always use `tpu_read_file`. Never use PowerShell `Get-Content`
  for code review or content inspection.
- **Edits** — prefer `tpu_replace_in_file` with `fixed_strings: true` over
  `tpu_edit_file` when the target text is unique, because line numbers can
  shift between reads. Use `tpu_edit_file` when you have just read the file
  and know exact line offsets.
- **Writes that should be guarded** — pass `validate: [{ "selector":
  "line-contains:N", "value": "..." }]` to refuse the write if the file is
  not in the expected state.
- **Globs / recursion** — `tpu_find` and `tpu_copy_file` accept glob
  patterns and tolerate inaccessible directories by emitting warning
  records (configurable via the `on_error` argument).
- **Dependency-free templating** — `tpu_render_file` substitutes
  `{{NAME}}`-style tokens. Use `\{{` to emit literal braces.

### File encoding

When you must fall back to PowerShell, never round-trip non-ASCII files
through `Get-Content` / `Set-Content` — read and write via
`[System.IO.File]::ReadAllBytes` / `WriteAllBytes` and validate with
`tools/check-encoding.ps1` afterwards.
"#;

/// The guidance, without the markers.
pub fn guidance_body() -> (r: &'static str)
    ensures
        r@ == GUIDANCE@,
{
    GUIDANCE
}

/// The block from marker to marker.
pub open spec fn block() -> Seq<char> {
    BEGIN_MARKER@ + seq!['\n'] + trim_end(GUIDANCE@) + seq!['\n'] + END_MARKER@
}

/// The block from marker to marker, without a line ending behind it.
fn block_text() -> (r: String)
    ensures
        r@ == block(),
{
    let mut out = BEGIN_MARKER.to_owned();
    out.push('\n');
    out.push_str(trim_end_of(guidance_body()).as_str());
    out.push('\n');
    out.push_str(END_MARKER);
    proof {
        assert(out@ =~= block());
    }
    out
}

/// The block from marker to marker, with a single LF behind it.
pub fn full_block() -> (r: String)
    ensures
        r@ == block() + seq!['\n'],
{
    let mut out = block_text();
    out.push('\n');
    proof {
        assert(out@ =~= block() + seq!['\n']);
    }
    out
}

/// The first position from `i` on where `needle` stands; the length where it stands
/// nowhere.
pub open spec fn text_pos(s: Seq<char>, needle: Seq<char>, i: int) -> int
    decreases s.len() - i,
{
    if i >= s.len() {
        s.len() as int
    } else if stands_at(s, needle, i) {
        i
    } else {
        text_pos(s, needle, i + 1)
    }
}

/// What separates the block from the text before it: what is missing to a blank line.
pub open spec fn separator(s: Seq<char>) -> Seq<char> {
    let n = s.len() as int;
    if n == 0 || (n >= 2 && s[n - 1] == '\n' && s[n - 2] == '\n') {
        seq![]
    } else if s[n - 1] == '\n' {
        seq!['\n']
    } else {
        seq!['\n', '\n']
    }
}

/// The last position up to `i` where `needle` stands; -1 where there is none.
pub open spec fn last_pos(s: Seq<char>, needle: Seq<char>, i: int) -> int
    decreases i + 1,
{
    if i < 0 {
        -1
    } else if stands_at(s, needle, i) {
        i
    } else {
        last_pos(s, needle, i - 1)
    }
}

/// Where the block stands in a text: where its begin marker and its end marker begin.
/// The end marker is the first that has a begin marker before it, and the begin marker
/// the nearest before that.
pub open spec fn block_at(s: Seq<char>) -> Option<(int, int)> {
    let first = text_pos(s, BEGIN_MARKER@, 0);
    let e = text_pos(s, END_MARKER@, first + BEGIN_MARKER@.len());
    if first < s.len() && e < s.len() {
        Some((last_pos(s, BEGIN_MARKER@, e - BEGIN_MARKER@.len()), e))
    } else {
        None
    }
}

/// A text with the block: in place of the one it holds, else behind it.
pub open spec fn injected(s: Seq<char>) -> Seq<char> {
    match block_at(s) {
        Some((b, e)) => s.take(b) + block() + s.skip(e + END_MARKER@.len()),
        None => s + separator(s) + block() + seq!['\n'],
    }
}

proof fn lemma_text_pos(s: Seq<char>, needle: Seq<char>, i: int, r: int)
    requires
        0 <= i <= r <= s.len(),
        forall|k: int| i <= k < r ==> !stands_at(s, needle, k),
        r < s.len() ==> stands_at(s, needle, r),
    ensures
        text_pos(s, needle, i) == r,
    decreases r - i,
{
    if i < r {
        assert(!stands_at(s, needle, i));
        lemma_text_pos(s, needle, i + 1, r);
    }
}

proof fn lemma_text_pos_is(s: Seq<char>, needle: Seq<char>, i: int)
    requires
        0 <= i <= s.len(),
    ensures
        i <= text_pos(s, needle, i) <= s.len(),
        forall|k: int| i <= k < text_pos(s, needle, i) ==> !stands_at(s, needle, k),
        text_pos(s, needle, i) < s.len() ==> stands_at(s, needle, text_pos(s, needle, i)),
    decreases s.len() - i,
{
    if i < s.len() && !stands_at(s, needle, i) {
        lemma_text_pos_is(s, needle, i + 1);
    }
}

proof fn lemma_last_pos(s: Seq<char>, needle: Seq<char>, i: int, r: int)
    requires
        0 <= r <= i,
        stands_at(s, needle, r),
        forall|k: int| r < k <= i ==> !stands_at(s, needle, k),
    ensures
        last_pos(s, needle, i) == r,
    decreases i - r,
{
    if r < i {
        assert(!stands_at(s, needle, i));
        lemma_last_pos(s, needle, i - 1, r);
    }
}

/// The last position up to `i` where `needle` stands, given that it stands at `first`.
fn find_last(v: &Vec<char>, needle: &Vec<char>, first: usize, i: usize) -> (r: usize)
    requires
        first <= i <= v@.len(),
        stands_at(v@, needle@, first as int),
    ensures
        r == last_pos(v@, needle@, i as int),
        first <= r <= i,
{
    let mut k: usize = i;
    while !matches_at(v, needle, k)
        invariant
            first <= k <= i <= v@.len(),
            stands_at(v@, needle@, first as int),
            forall|j: int| k < j <= i ==> !stands_at(v@, needle@, j),
        decreases k,
    {
        k = k - 1;
    }
    proof {
        lemma_last_pos(v@, needle@, i as int, k as int);
    }
    k
}

/// Merge the block into a text. The flag says whether it took the place of one that
/// was there.
pub fn inject_text(existing: &str) -> (r: (String, bool))
    ensures
        r.0@ == injected(existing@),
        r.1 == (block_at(existing@) is Some),
{
    let v = chars_of(existing);
    let len: usize = v.len();
    let begin = chars_of(BEGIN_MARKER);
    let end = chars_of(END_MARKER);
    let first: usize = find_text(&v, &begin, 0);
    proof {
        lemma_text_pos(v@, begin@, 0, first as int);
    }
    if first < len {
        let from: usize = first + begin.len();
        let e: usize = find_text(&v, &end, from);
        proof {
            lemma_text_pos(v@, end@, from as int, e as int);
        }
        if e < len {
            let b: usize = find_last(&v, &begin, first, e - begin.len());
            let mut out = string_of(&v, 0, b);
            out.push_str(block_text().as_str());
            out.push_str(string_of(&v, e + end.len(), len).as_str());
            proof {
                assert(v@.subrange(0, b as int) =~= v@.take(b as int));
                assert(v@.subrange(e + end@.len(), len as int) =~= v@.skip(e + end@.len()));
                assert(out@ =~= injected(existing@));
            }
            return (out, true);
        }
    }
    let mut out = existing.to_owned();
    if len > 0 && !(len >= 2 && v[len - 1] == '\n' && v[len - 2] == '\n') {
        if v[len - 1] != '\n' {
            out.push('\n');
        }
        out.push('\n');
    }
    proof {
        assert(out@ =~= existing@ + separator(existing@));
    }
    out.push_str(full_block().as_str());
    proof {
        assert(out@ =~= injected(existing@));
    }
    (out, false)
}

/// What to do to inject the block into a file.
#[derive(Debug)]
pub struct InjectPlan {
    /// What to write; `None` where the file is as it is to be.
    pub plan: Option<WritePlan>,
    /// The text of the file with the block.
    pub text: String,
    /// The file's content changes.
    pub updated: bool,
    /// The block takes the place of one that is there.
    pub replaced: bool,
}

/// The new text of a file, or the message of the error.
pub open spec fn new_text(old: Option<Seq<u8>>) -> Result<Seq<char>, Seq<char>> {
    match old {
        None => Ok(block() + seq!['\n']),
        Some(bytes) => match shown_text(bytes) {
            Ok(text) => Ok(injected(text)),
            Err(m) => Err(m),
        },
    }
}

/// The injection changes the file.
pub open spec fn changes(old: Option<Seq<u8>>) -> bool {
    match old {
        None => true,
        Some(bytes) => shown_text(bytes) matches Ok(text) && injected(text) != text,
    }
}

/// The file holds the block already.
pub open spec fn replaces(old: Option<Seq<u8>>) -> bool {
    match old {
        None => false,
        Some(bytes) => shown_text(bytes) matches Ok(text) && block_at(text) is Some,
    }
}

/// A file that is not there, in UTF-8 without NUL, or in UTF-16 behind its byte-order mark.
pub open spec fn is_unicode_file(old: Option<Seq<u8>>) -> bool {
    old matches Some(bytes) ==> {
        ||| valid_utf8(bytes) && lacks_nul(bytes)
        ||| exists|text: Seq<char>, kind: EncodingKind| #[trigger] is_utf16_of(bytes, text, kind)
    }
}

/// A file in UTF-8 holds a text into which the block was injected.
pub open spec fn holds_injected_utf8(bytes: Seq<u8>) -> bool {
    exists|text: Seq<char>, ending: LineEnding, bom: bool|
        is_plain(injected(text), bom) && #[trigger] written_bytes(
            injected(text),
            EncodingKind::Utf8,
            ending,
            bom,
        ) == Some(bytes)
}

/// A file in UTF-16 holds a text into which the block was injected.
pub open spec fn holds_injected_utf16(bytes: Seq<u8>) -> bool {
    exists|text: Seq<char>, kind: EncodingKind, ending: LineEnding|
        lacks_cr(injected(text)) && (kind is Utf16Le || kind is Utf16Be)
            && #[trigger] written_bytes(injected(text), kind, ending, true) == Some(bytes)
}

/// A file in UTF-8 or UTF-16 holds a text into which the block was injected.
pub open spec fn holds_injected(bytes: Seq<u8>) -> bool {
    holds_injected_utf8(bytes) || holds_injected_utf16(bytes)
}

/// What an injection into a file comes to, as far as the file's text and encoding decide.
pub open spec fn is_planned(
    r: Result<InjectPlan, String>,
    label: Seq<char>,
    old: Option<Seq<u8>>,
    want_old_text: bool,
) -> bool {
    match new_text(old) {
        Err(m) => r is Err && r->Err_0@ == m,
        Ok(text) => {
            if !changes(old) {
                r matches Ok(p) && {
                    &&& !p.updated
                    &&& p.replaced == replaces(old)
                    &&& p.text@ == text
                    &&& p.plan is None
                }
            } else {
                match target_of(old) {
                    Err(m) => r is Err && r->Err_0@ == m,
                    Ok(target) => r matches Ok(p) && {
                        &&& p.updated
                        &&& p.replaced == replaces(old)
                        &&& p.text@ == text
                        &&& p.plan is Some
                        &&& is_write_plan(
                            p.plan->0,
                            label,
                            old,
                            text,
                            target,
                            OutputEncoding::Preserve,
                            BomPolicy::Strip,
                            None,
                            want_old_text,
                            false,
                        )
                    },
                }
            }
        },
    }
}

/// What an injection into a file comes to. Into a file in UTF-8 or UTF-16 that is not too
/// large it succeeds, and leaves a file in the same encoding that holds the block; and it
/// changes nothing in such a file.
pub open spec fn is_injection(
    r: Result<InjectPlan, String>,
    label: Seq<char>,
    old: Option<Seq<u8>>,
    want_old_text: bool,
) -> bool {
    &&& is_planned(r, label, old, want_old_text)
    &&& is_unicode_file(old) && (old matches Some(bytes) ==> bytes.len() <= VIEW_CEILING) ==> r is Ok
    &&& is_unicode_file(old) ==> (r matches Ok(p) ==> (p.updated ==> holds_injected(
        p.plan->0.bytes@,
    )))
    &&& old matches Some(bytes) ==> (holds_injected(bytes) && bytes.len() <= VIEW_CEILING ==> {
        &&& r matches Ok(p)
        &&& !p.updated
        &&& p.replaced
        &&& p.plan is None
    })
}

/// Merge the block into a file with the given content; `None` for a file that is not
/// there.
pub fn inject(label: &str, old: Option<&[u8]>, want_old_text: bool) -> (r: Result<InjectPlan, String>)
    ensures
        is_injection(r, label@, opt_bytes(old), want_old_text),
{
    proof {
        match old {
            None => {
                lemma_injected_plain(seq![], false);
                assert(injected(seq![]) =~= block() + seq!['\n']);
            },
            Some(bytes) => {
                if valid_utf8(bytes@) && lacks_nul(bytes@) {
                    law_utf8_holds_plain_text(bytes@);
                    lemma_injected_plain(content_text(bytes@), bom_length(bytes@) > 0);
                }
                if holds_injected_utf8(bytes@) {
                    lemma_holds_injected_utf8(bytes@);
                }
                if holds_injected_utf16(bytes@) {
                    lemma_holds_injected_utf16(bytes@);
                }
            },
        }
    }
    let (text, updated, replaced) = match old {
        None => (full_block(), true, false),
        Some(bytes) => match show_text(bytes) {
            Ok(shown) => {
                let (text, replaced) = inject_text(shown.text.as_str());
                let kept = same(text.as_str(), shown.text.as_str());
                (text, !kept, replaced)
            },
            Err(m) => {
                return Err(m);
            },
        },
    };
    if !updated {
        return Ok(InjectPlan { plan: None, text, updated, replaced });
    }
    match crate::cmd::write::run(
        label,
        old,
        text.as_str(),
        OutputEncoding::Preserve,
        BomPolicy::Strip,
        None,
        want_old_text,
        false,
    ) {
        Ok(plan) => {
            proof {
                let target = target_of(opt_bytes(old))->Ok_0;
                let is_utf8 = match old {
                    None => true,
                    Some(bytes) => valid_utf8(bytes@) && lacks_nul(bytes@),
                };
                if is_utf8 {
                    let before = match old {
                        None => seq![],
                        Some(bytes) => content_text(bytes@),
                    };
                    assert(text@ == injected(before));
                    assert(written_bytes(
                        injected(before),
                        EncodingKind::Utf8,
                        target.line_ending,
                        target.had_bom,
                    ) == Some(plan.bytes@));
                } else if is_unicode_file(opt_bytes(old)) {
                    let (x, kind) = choose|x: Seq<char>, kind: EncodingKind| #[trigger]
                        is_utf16_of(old->0@, x, kind);
                    lemma_utf16_file(old->0@, x, kind);
                    lemma_text_to_lf_lacks_cr(x);
                    lemma_injected_lacks_cr(text_to_lf(x));
                    assert(text@ == injected(text_to_lf(x)));
                    assert(written_bytes(
                        injected(text_to_lf(x)),
                        kind,
                        target.line_ending,
                        true,
                    ) == Some(plan.bytes@));
                }
            }
            Ok(InjectPlan { plan: Some(plan), text, updated, replaced })
        },
        Err(m) => Err(m),
    }
}

// ── Laws ────────────────────────────────────────────────────────────────────

/// A character that neither begins a marker nor is CR or NUL.
spec fn is_ordinary(c: char) -> bool {
    c != '<' && c != '\r' && c != '\0'
}

/// Ordinary characters stand at all of the positions that begin, in binary, with `i` and
/// have `d` digits more.
spec fn ordinary_from(s: Seq<char>, i: int, d: nat) -> bool
    decreases d,
{
    if d == 0 {
        0 <= i < s.len() ==> is_ordinary(s[i])
    } else {
        let e = (d - 1) as nat;
        ordinary_from(s, 2 * i, e) && ordinary_from(s, 2 * i + 1, e)
    }
}

proof fn lemma_ordinary(s: Seq<char>, i: int, d: nat, k: int)
    requires
        ordinary_from(s, i, d),
        0 <= k < s.len(),
        i * pow2(d) <= k < (i + 1) * pow2(d),
    ensures
        is_ordinary(s[k]),
    decreases d,
{
    if d == 0 {
        lemma2_to64();
        assert(k == i);
    } else {
        let e = (d - 1) as nat;
        lemma_pow2_unfold(d);
        assert(i * pow2(d) == (2 * i) * pow2(e)) by (nonlinear_arith)
            requires
                pow2(d) == 2 * pow2(e),
        ;
        assert((i + 1) * pow2(d) == (2 * i + 1 + 1) * pow2(e)) by (nonlinear_arith)
            requires
                pow2(d) == 2 * pow2(e),
        ;
        if k < (2 * i + 1) * pow2(e) {
            lemma_ordinary(s, 2 * i, e, k);
        } else {
            lemma_ordinary(s, 2 * i + 1, e, k);
        }
    }
}

proof fn lemma_guidance_is_ordinary()
    ensures
        forall|k: int| 0 <= k < GUIDANCE@.len() ==> is_ordinary(#[trigger] GUIDANCE@[k]),
{
    reveal_strlit(
        r#"## File I/O — use `tpu_*` MCP tools, never PowerShell or shell

This workspace runs the **tpu-mcp** MCP server which exposes encoding-aware
file primitives as first-class tools. Plain `Get-Content` / `Set-Content` /
`Out-File` / `>` / `cat` / `sed` round-trip files through the active code
page and silently corrupt UTF-8, UTF-16, smart quotes, em-dashes, and
box-drawing characters. Use the MCP tools instead — they detect, preserve,
and round-trip the file's native encoding and line endings safely.

**Rule:** when working in any project that has the tpu-mcp server registered,
ALWAYS prefer the `tpu_*` tools over PowerShell or shell file commands.

| MCP tool | Use it for |
|---|---|
| `tpu_read_file` | reading text files (UTF-8, UTF-16, Windows-1252, Shift-JIS, …) |
| `tpu_read_head` / `tpu_read_tail` | first/last N lines or bytes |
| `tpu_read_file_binary` | inspecting raw bytes of binary files |
| `tpu_read_file_escaped` | reading text as a single 7-bit-clean escaped line |
| `tpu_write_file` | replacing a text file's full contents |
| `tpu_append_file` | appending text to an existing file |
| `tpu_replace_in_file` | regex / fixed-string substitution (use `fixed_strings: true` for literal targets) |
| `tpu_edit_file` | targeted insert/delete/splice at known line numbers |
| `tpu_validate_file` | pre-flight assertion that a file is in the expected state |
| `tpu_count_file` | line / word / char / byte / pattern counts |
| `tpu_find` | encoding-aware grep across files and globs |
| `tpu_copy_file` | copy a file or recursively copy a tree (resilient: per-entry warnings, never aborts mid-walk by default) |
| `tpu_render_file` | populate a file from a `{{TOKEN}}` template |
| `tpu_stat_file` | verify a write actually persisted (mtime / size) |
| `tpu_setup` | (re)write this guidance block into the active `copilot-instructions.md` |

### When to use each

- **Reads** — always use `tpu_read_file`. Never use PowerShell `Get-Content`
  for code review or content inspection.
- **Edits** — prefer `tpu_replace_in_file` with `fixed_strings: true` over
  `tpu_edit_file` when the target text is unique, because line numbers can
  shift between reads. Use `tpu_edit_file` when you have just read the file
  and know exact line offsets.
- **Writes that should be guarded** — pass `validate: [{ "selector":
  "line-contains:N", "value": "..." }]` to refuse the write if the file is
  not in the expected state.
- **Globs / recursion** — `tpu_find` and `tpu_copy_file` accept glob
  patterns and tolerate inaccessible directories by emitting warning
  records (configurable via the `on_error` argument).
- **Dependency-free templating** — `tpu_render_file` substitutes
  `{{NAME}}`-style tokens. Use `\{{` to emit literal braces.

### File encoding

When you must fall back to PowerShell, never round-trip non-ASCII files
through `Get-Content` / `Set-Content` — read and write via
`[System.IO.File]::ReadAllBytes` / `WriteAllBytes` and validate with
`tools/check-encoding.ps1` afterwards.
"#,
    );
    assert(ordinary_from(GUIDANCE@, 0, 12)) by {
        reveal_with_fuel(ordinary_from, 13);
    }
    assert forall|k: int| 0 <= k < GUIDANCE@.len() implies is_ordinary(#[trigger] GUIDANCE@[k]) by {
        lemma2_to64();
        lemma_ordinary(GUIDANCE@, 0, 12, k);
    }
}

proof fn lemma_trim_end_is_prefix(s: Seq<char>)
    ensures
        trim_end(s).len() <= s.len(),
        forall|k: int| 0 <= k < trim_end(s).len() ==> #[trigger] trim_end(s)[k] == s[k],
    decreases s.len(),
{
    if s.len() > 0 && is_space(s.last()) {
        let t = s.drop_last();
        lemma_trim_end_is_prefix(t);
        assert forall|k: int| 0 <= k < trim_end(s).len() implies #[trigger] trim_end(s)[k] == s[k] by {
            assert(trim_end(t)[k] == t[k]);
        }
    }
}

/// What the markers are like: each has `<` at its start only, and no LF.
proof fn lemma_markers()
    ensures
        BEGIN_MARKER@.len() == 28,
        END_MARKER@.len() == 26,
        BEGIN_MARKER@[0] == '<',
        END_MARKER@[0] == '<',
        forall|k: int| 0 < k < 28 ==> #[trigger] BEGIN_MARKER@[k] != '<',
        forall|k: int| 0 <= k < 28 ==> #[trigger] BEGIN_MARKER@[k] != '\n',
        forall|k: int| 0 <= k < 26 ==> #[trigger] END_MARKER@[k] != '\n',
        BEGIN_MARKER@[19] != END_MARKER@[19],
{
    reveal_strlit("<!-- tpu-mcp:setup:begin -->");
    reveal_strlit("<!-- tpu-mcp:setup:end -->");
}

/// A text that holds the block at `b` holds it there and nowhere else: `first` is where
/// the first begin marker stands, and no end marker stands between the two.
proof fn lemma_block_found(s: Seq<char>, first: int, b: int, rest: Seq<char>)
    requires
        0 <= first <= b <= s.len(),
        s == s.take(b) + block() + rest,
        stands_at(s, BEGIN_MARKER@, first),
        forall|k: int| 0 <= k < first ==> !stands_at(s, BEGIN_MARKER@, k),
        forall|k: int| first + 28 <= k < b ==> !stands_at(s, END_MARKER@, k),
    ensures
        block_at(s) == Some((b, b + block().len() - END_MARKER@.len())),
{
    lemma_markers();
    lemma_guidance_is_ordinary();
    let body = trim_end(GUIDANCE@);
    lemma_trim_end_is_prefix(GUIDANCE@);
    let bl = block();
    let e = b + bl.len() - 26;
    assert(bl.len() == 28 + 1 + body.len() + 1 + 26);
    assert(s.subrange(b, b + 28) =~= BEGIN_MARKER@) by {
        assert forall|k: int| 0 <= k < 28 implies s.subrange(b, b + 28)[k] == BEGIN_MARKER@[k] by {
            assert(s[b + k] == bl[k]);
        }
    }
    assert(stands_at(s, BEGIN_MARKER@, b));
    lemma_text_pos(s, BEGIN_MARKER@, 0, first);
    if first < b && b < first + 28 {
        assert(s.subrange(first, first + 28)[b - first] == s[b]);
        assert(s.subrange(b, b + 28)[0] == s[b]);
        assert(false);
    }
    assert(s.subrange(e, e + 26) =~= END_MARKER@) by {
        assert forall|k: int| 0 <= k < 26 implies s.subrange(e, e + 26)[k] == END_MARKER@[k] by {
            assert(s[e + k] == bl[e + k - b]);
        }
    }
    assert(stands_at(s, END_MARKER@, e));
    assert forall|k: int| b < k < e implies #[trigger] s[k] != '<' by {
        assert(s[k] == bl[k - b]);
        let j = k - b - 29;
        if 0 <= j < body.len() {
            assert(bl[k - b] == body[j]);
            assert(body[j] == GUIDANCE@[j]);
        } else if j < -1 {
            assert(bl[k - b] == BEGIN_MARKER@[k - b]);
        }
    }
    assert forall|k: int| first + 28 <= k < e implies !stands_at(s, END_MARKER@, k) by {
        if k >= b && stands_at(s, END_MARKER@, k) {
            if k == b {
                assert(s.subrange(k, k + 26)[19] == s[b + 19]);
                assert(s.subrange(b, b + 28)[19] == s[b + 19]);
            } else {
                assert(s.subrange(k, k + 26)[0] == s[k]);
            }
        }
    }
    lemma_text_pos(s, END_MARKER@, first + 28, e);
    assert forall|k: int| b < k <= e - 28 implies !stands_at(s, BEGIN_MARKER@, k) by {
        if stands_at(s, BEGIN_MARKER@, k) {
            assert(s.subrange(k, k + 28)[0] == s[k]);
        }
    }
    lemma_last_pos(s, BEGIN_MARKER@, e - 28, b);
}

/// Where a text holds the block, begin markers stand at the first position and at the
/// one found, with no end marker between them.
proof fn lemma_block_at(s: Seq<char>)
    ensures
        block_at(s) matches Some((b, e)) ==> {
            let first = text_pos(s, BEGIN_MARKER@, 0);
            &&& 0 <= first <= b
            &&& b + 28 <= e
            &&& stands_at(s, BEGIN_MARKER@, first)
            &&& stands_at(s, BEGIN_MARKER@, b)
            &&& stands_at(s, END_MARKER@, e)
            &&& forall|k: int| 0 <= k < first ==> !stands_at(s, BEGIN_MARKER@, k)
            &&& forall|k: int| first + 28 <= k < e ==> !stands_at(s, END_MARKER@, k)
        },
{
    lemma_markers();
    lemma_text_pos_is(s, BEGIN_MARKER@, 0);
    let first = text_pos(s, BEGIN_MARKER@, 0);
    if first < s.len() {
        lemma_text_pos_is(s, END_MARKER@, first + 28);
        let e = text_pos(s, END_MARKER@, first + 28);
        if e < s.len() {
            lemma_last_pos_is(s, BEGIN_MARKER@, e - 28, first);
        }
    }
}

proof fn lemma_last_pos_is(s: Seq<char>, needle: Seq<char>, i: int, first: int)
    requires
        0 <= first <= i,
        stands_at(s, needle, first),
    ensures
        first <= last_pos(s, needle, i) <= i,
        stands_at(s, needle, last_pos(s, needle, i)),
    decreases i - first,
{
    if !stands_at(s, needle, i) {
        lemma_last_pos_is(s, needle, i - 1, first);
    }
}

/// Two texts that agree up to `n` hold a needle at the same positions up to there.
proof fn lemma_same_standing(s: Seq<char>, t: Seq<char>, needle: Seq<char>, n: int, k: int)
    requires
        0 <= n <= s.len(),
        n <= t.len(),
        s.take(n) == t.take(n),
        0 <= k,
        k + needle.len() <= n,
    ensures
        stands_at(s, needle, k) == stands_at(t, needle, k),
{
    let m = needle.len() as int;
    assert(s.subrange(k, k + m) =~= s.take(n).subrange(k, k + m));
    assert(t.subrange(k, k + m) =~= t.take(n).subrange(k, k + m));
}

/// Injecting the block again changes nothing: it is found where it was put and takes
/// its own place.
pub proof fn law_injection_is_idempotent(s: Seq<char>)
    ensures
        block_at(injected(s)) is Some,
        injected(injected(s)) == injected(s),
{
    lemma_markers();
    lemma_text_pos_is(s, BEGIN_MARKER@, 0);
    let first = text_pos(s, BEGIN_MARKER@, 0);
    let t = injected(s);
    let bl = block();
    match block_at(s) {
        Some((b, e)) => {
            lemma_block_at(s);
            let rest = s.skip(e + 26);
            assert(t.take(b) =~= s.take(b));
            assert(t.take(b + 28) =~= s.take(b + 28)) by {
                assert forall|i: int| b <= i < b + 28 implies s[i] == #[trigger] t[i] by {
                    assert(s.subrange(b, b + 28)[i - b] == s[i]);
                    assert(t[i] == bl[i - b]);
                    assert(bl[i - b] == BEGIN_MARKER@[i - b]);
                }
            }
            lemma_same_standing(s, t, BEGIN_MARKER@, b + 28, first);
            assert forall|k: int| 0 <= k < first implies !stands_at(t, BEGIN_MARKER@, k) by {
                lemma_same_standing(s, t, BEGIN_MARKER@, b + 28, k);
            }
            assert forall|k: int| first + 28 <= k < b implies !stands_at(t, END_MARKER@, k) by {
                lemma_same_standing(s, t, END_MARKER@, b + 28, k);
            }
            lemma_block_found(t, first, b, rest);
            assert(t.skip(b + bl.len()) =~= rest);
            assert(injected(t) =~= t);
        },
        None => {
            let head = s + separator(s);
            let b = head.len() as int;
            let n = s.len() as int;
            let rest = seq!['\n'];
            assert(t.take(b) =~= head);
            assert(t =~= head + bl + rest);
            assert(s.take(n) =~= t.take(n));
            assert(s =~= t.take(n));
            assert forall|j: int| n <= j < b implies #[trigger] t[j] == '\n' by {
                assert(t[j] == head[j]);
                assert(head[j] == separator(s)[j - n]);
            }
            if b > 0 {
                assert(t[b - 1] == head[b - 1]);
                assert(t[b - 1] == '\n');
            }
            assert(t.subrange(b, b + 28) =~= BEGIN_MARKER@) by {
                assert forall|k: int| 0 <= k < 28 implies t.subrange(b, b + 28)[k]
                    == BEGIN_MARKER@[k] by {
                    assert(t[b + k] == bl[k]);
                }
            }
            let found = if first < n {
                first
            } else {
                b
            };
            if first < n {
                lemma_same_standing(s, t, BEGIN_MARKER@, n, first);
                lemma_text_pos_is(s, END_MARKER@, first + 28);
            }
            assert forall|k: int| 0 <= k < found implies !stands_at(t, BEGIN_MARKER@, k) by {
                lemma_behind_text(s, t, BEGIN_MARKER@, b, k);
            }
            assert forall|k: int| found + 28 <= k < b implies !stands_at(t, END_MARKER@, k) by {
                lemma_behind_text(s, t, END_MARKER@, b, k);
            }
            lemma_block_found(t, found, b, rest);
            assert(t.skip(b + bl.len()) =~= rest);
            assert(injected(t) =~= t);
        },
    }
}

/// The block holds neither CR nor NUL, and begins with its marker.
proof fn lemma_block_plain()
    ensures
        forall|k: int|
            0 <= k < block().len() ==> #[trigger] block()[k] != '\r' && block()[k] != '\0',
        block().len() > 0,
        block()[0] == '<',
{
    reveal_strlit("<!-- tpu-mcp:setup:begin -->");
    reveal_strlit("<!-- tpu-mcp:setup:end -->");
    lemma_guidance_is_ordinary();
    lemma_trim_end_is_prefix(GUIDANCE@);
    let body = trim_end(GUIDANCE@);
    let bl = block();
    assert forall|k: int| 0 <= k < bl.len() implies #[trigger] bl[k] != '\r' && bl[k] != '\0' by {
        let j = k - 29;
        if k < 28 {
            assert(bl[k] == BEGIN_MARKER@[k]);
        } else if 0 <= j < body.len() {
            assert(bl[k] == body[j]);
            assert(body[j] == GUIDANCE@[j]);
        } else if j > body.len() {
            assert(bl[k] == END_MARKER@[j - body.len() - 1]);
        }
    }
    assert(bl[0] == BEGIN_MARKER@[0]);
}

/// A text that is read back as it is written remains one when the block is injected.
proof fn lemma_injected_plain(s: Seq<char>, bom: bool)
    requires
        is_plain(s, bom),
    ensures
        is_plain(injected(s), bom),
{
    lemma_block_plain();
    lemma_markers();
    lemma_block_at(s);
    lemma_injected_lacks_cr(s);
    let t = injected(s);
    let bl = block();
    match block_at(s) {
        Some((b, e)) => {
            let rest = s.skip(e + 26);
            assert(t =~= s.take(b) + bl + rest);
            assert forall|k: int| 0 <= k < t.len() implies #[trigger] t[k] != '\0' by {
                if k < b {
                    assert(t[k] == s[k]);
                } else if k < b + bl.len() {
                    assert(t[k] == bl[k - b]);
                } else {
                    assert(t[k] == s[e + 26 + (k - b - bl.len())]);
                }
            }
            if b == 0 {
                assert(t[0] == bl[0]);
            } else {
                assert(t[0] == s[0]);
            }
        },
        None => {
            let n = s.len() as int;
            let sep = separator(s);
            let m = n + sep.len();
            assert(t =~= s + sep + bl + seq!['\n']);
            assert forall|k: int| 0 <= k < t.len() implies #[trigger] t[k] != '\0' by {
                if k < n {
                    assert(t[k] == s[k]);
                } else if k < m {
                    assert(t[k] == sep[k - n]);
                } else if k < m + bl.len() {
                    assert(t[k] == bl[k - m]);
                }
            }
            if n == 0 {
                assert(t[0] == bl[0]);
            } else {
                assert(t[0] == s[0]);
            }
        },
    }
}

proof fn lemma_injected_lacks_cr(s: Seq<char>)
    requires
        lacks_cr(s),
    ensures
        lacks_cr(injected(s)),
{
    lemma_block_plain();
    lemma_markers();
    lemma_block_at(s);
    let t = injected(s);
    let bl = block();
    match block_at(s) {
        Some((b, e)) => {
            assert(t =~= s.take(b) + bl + s.skip(e + 26));
            assert forall|k: int| 0 <= k < t.len() implies #[trigger] t[k] != '\r' by {
                if k < b {
                    assert(t[k] == s[k]);
                } else if k < b + bl.len() {
                    assert(t[k] == bl[k - b]);
                } else {
                    assert(t[k] == s[e + 26 + (k - b - bl.len())]);
                }
            }
        },
        None => {
            let n = s.len() as int;
            let sep = separator(s);
            let m = n + sep.len();
            assert(t =~= s + sep + bl + seq!['\n']);
            assert forall|k: int| 0 <= k < t.len() implies #[trigger] t[k] != '\r' by {
                if k < n {
                    assert(t[k] == s[k]);
                } else if k < m {
                    assert(t[k] == sep[k - n]);
                } else if k < m + bl.len() {
                    assert(t[k] == bl[k - m]);
                }
            }
        },
    }
}

/// A file in UTF-16 that holds the block reads back as a text in which the block is found
/// and takes its own place.
proof fn lemma_holds_injected_utf16(bytes: Seq<u8>)
    requires
        holds_injected_utf16(bytes),
    ensures
        exists|text: Seq<char>, kind: EncodingKind| #[trigger]
            is_utf16_of(bytes, text, kind) && block_at(text_to_lf(text)) is Some && injected(
                text_to_lf(text),
            ) == text_to_lf(text),
{
    let (text, kind, ending) = choose|text: Seq<char>, kind: EncodingKind, ending: LineEnding|
        lacks_cr(injected(text)) && (kind is Utf16Le || kind is Utf16Be)
            && #[trigger] written_bytes(injected(text), kind, ending, true) == Some(bytes);
    law_written_utf16_reads_back(injected(text), kind, ending);
    law_injection_is_idempotent(text);
    assert(is_utf16_of(bytes, text_lf_to(injected(text), ending), kind));
}

/// A file in UTF-8 that holds the block reads back as a text in which the block is found
/// and takes its own place.
proof fn lemma_holds_injected_utf8(bytes: Seq<u8>)
    requires
        holds_injected_utf8(bytes),
    ensures
        valid_utf8(bytes),
        lacks_nul(bytes),
        block_at(content_text(bytes)) is Some,
        injected(content_text(bytes)) == content_text(bytes),
{
    let (text, ending, bom) = choose|text: Seq<char>, ending: LineEnding, bom: bool|
        is_plain(injected(text), bom) && #[trigger] written_bytes(
            injected(text),
            EncodingKind::Utf8,
            ending,
            bom,
        ) == Some(bytes);
    law_written_utf8_reads_back(injected(text), ending, bom);
    law_injection_is_idempotent(text);
}

/// Injecting the block again leaves the file as it is: after an injection into a file in
/// UTF-8 without NUL or in UTF-16 with its byte-order mark, or one that is not there, a
/// second one finds the block in place and writes nothing.
pub proof fn law_injecting_again_leaves_the_file(
    label: Seq<char>,
    old: Option<Seq<u8>>,
    first: Result<InjectPlan, String>,
    left: Seq<u8>,
    second: Result<InjectPlan, String>,
    want_old_text: bool,
)
    requires
        is_unicode_file(old),
        is_injection(first, label, old, want_old_text),
        first matches Ok(p) && (if p.updated {
            left == p.plan->0.bytes@
        } else {
            Some(left) == old
        }),
        left.len() <= VIEW_CEILING,
        is_injection(second, label, Some(left), want_old_text),
    ensures
        second matches Ok(p) && !p.updated && p.replaced && p.plan is None,
{
    let p = first->Ok_0;
    if !p.updated {
        let text = shown_text(left)->Ok_0;
        assert(injected(text) == text);
        if block_at(text) is None {
            assert(injected(text).len() > text.len()) by {
                lemma_block_plain();
            }
        }
    }
}

/// A marker that stands before the appended block stands in the text that was there.
proof fn lemma_behind_text(s: Seq<char>, t: Seq<char>, needle: Seq<char>, b: int, k: int)
    requires
        s.len() <= b <= t.len(),
        s == t.take(s.len() as int),
        forall|j: int| s.len() <= j < b ==> #[trigger] t[j] == '\n',
        b > 0 ==> t[b - 1] == '\n',
        needle.len() > 0,
        forall|j: int| 0 <= j < needle.len() ==> #[trigger] needle[j] != '\n',
        0 <= k < b,
    ensures
        stands_at(t, needle, k) ==> stands_at(s, needle, k),
{
    if stands_at(t, needle, k) {
        let m = needle.len() as int;
        let w = t.subrange(k, k + m);
        if k + m > b {
            assert(w[b - 1 - k] == t[b - 1]);
            assert(needle[b - 1 - k] != '\n');
        } else if k + m > s.len() {
            let j = if k <= s.len() {
                s.len() - k
            } else {
                0
            };
            assert(w[j] == t[k + j]);
            assert(needle[j] != '\n');
        } else {
            assert(s.take(s.len() as int) =~= s);
            lemma_same_standing(s, t, needle, s.len() as int, k);
        }
    }
}

/// What surrounds a block is kept, and what comes of an injection holds the block.
pub proof fn law_injection_keeps_the_surroundings(s: Seq<char>)
    ensures
        match block_at(s) {
            Some((b, e)) => {
                &&& injected(s).take(b) == s.take(b)
                &&& stands_at(injected(s), block(), b)
                &&& injected(s).skip(b + block().len()) == s.skip(e + END_MARKER@.len())
            },
            None => {
                &&& injected(s).take(s.len() as int) == s
                &&& stands_at(injected(s), block(), (s + separator(s)).len() as int)
            },
        },
{
    lemma_markers();
    let t = injected(s);
    match block_at(s) {
        Some((b, e)) => {
            lemma_block_at(s);
            assert(t.take(b) =~= s.take(b));
            assert(t.subrange(b, b + block().len()) =~= block());
            assert(t.skip(b + block().len()) =~= s.skip(e + END_MARKER@.len()));
        },
        None => {
            let b = (s + separator(s)).len() as int;
            assert(t.take(s.len() as int) =~= s);
            assert(t.subrange(b, b + block().len()) =~= block());
        },
    }
}

/// The block is found between its markers, and only there: it ends at the first end marker that
/// has a begin marker before it, and begins at the nearest one before that; it is found where,
/// and only where, there is such an end marker.
pub proof fn law_the_block_stands_between_its_markers(s: Seq<char>)
    ensures
        match block_at(s) {
            Some((b, e)) => {
                &&& stands_at(s, BEGIN_MARKER@, b)
                &&& stands_at(s, END_MARKER@, e)
                &&& b + BEGIN_MARKER@.len() <= e
                &&& forall|k: int| b < k <= e - BEGIN_MARKER@.len() ==> !stands_at(s, BEGIN_MARKER@, k)
                &&& forall|j: int, k: int|
                    #![trigger stands_at(s, BEGIN_MARKER@, j), stands_at(s, END_MARKER@, k)]
                    0 <= j && j + BEGIN_MARKER@.len() <= k < e && stands_at(s, BEGIN_MARKER@, j)
                        ==> !stands_at(s, END_MARKER@, k)
            },
            None => forall|j: int, k: int|
                #![trigger stands_at(s, BEGIN_MARKER@, j), stands_at(s, END_MARKER@, k)]
                0 <= j && j + BEGIN_MARKER@.len() <= k && stands_at(s, BEGIN_MARKER@, j)
                    ==> !stands_at(s, END_MARKER@, k),
        },
{
    lemma_markers();
    lemma_block_at(s);
    lemma_text_pos_is(s, BEGIN_MARKER@, 0);
    let first = text_pos(s, BEGIN_MARKER@, 0);
    if first < s.len() {
        lemma_text_pos_is(s, END_MARKER@, first + 28);
        let e = text_pos(s, END_MARKER@, first + 28);
        if e < s.len() {
            lemma_nearest(s, BEGIN_MARKER@, e - 28);
        }
    }
}

proof fn lemma_nearest(s: Seq<char>, needle: Seq<char>, i: int)
    ensures
        forall|k: int| last_pos(s, needle, i) < k <= i ==> !stands_at(s, needle, k),
    decreases i + 1,
{
    if 0 <= i && !stands_at(s, needle, i) {
        lemma_nearest(s, needle, i - 1);
    }
}

/// The block stands behind a blank line, or at the very beginning; no more LF are added for that
/// than are missing.
pub proof fn law_a_blank_line_stands_before_the_block(s: Seq<char>)
    ensures
        ({
            let t = s + separator(s);
            &&& s.len() == 0 ==> t.len() == 0
            &&& s.len() > 0 ==> t.len() >= 2 && t[t.len() - 1] == '\n' && t[t.len() - 2] == '\n'
            &&& forall|i: int| 0 <= i < separator(s).len() ==> #[trigger] separator(s)[i] == '\n'
            &&& separator(s).len() <= 2
            &&& s.len() >= 2 && s[s.len() - 1] == '\n' && s[s.len() - 2] == '\n' ==> t == s
            &&& s.len() > 0 && s.last() == '\n' ==> separator(s).len() <= 1
        }),
{
    assert(s + Seq::<char>::empty() =~= s);
}

/// The block holds the guidance, without whitespace at its end, on lines of its own between the
/// two markers.
pub proof fn law_the_block_holds_the_guidance()
    ensures
        block() == BEGIN_MARKER@ + seq!['\n'] + trim_end(GUIDANCE@) + seq!['\n'] + END_MARKER@,
        stands_at(block(), BEGIN_MARKER@, 0),
        stands_at(block(), END_MARKER@, block().len() - END_MARKER@.len()),
{
    let b = block();
    let m = BEGIN_MARKER@.len() as int;
    let n = END_MARKER@.len() as int;
    assert(b.subrange(0, m) =~= BEGIN_MARKER@);
    assert(b.subrange(b.len() - n, b.len() as int) =~= END_MARKER@);
}

/// An injection puts the block into the text that the file shows, and into nothing else: a file
/// that is not there gets the block alone; the file is written only where its text changes, and
/// the flags say what became of it.
pub proof fn law_an_injection_writes_the_block(
    r: Result<InjectPlan, String>,
    label: Seq<char>,
    old: Option<Seq<u8>>,
    want_old_text: bool,
)
    requires
        is_injection(r, label, old, want_old_text),
    ensures
        r matches Ok(p) ==> {
            &&& p.updated == (p.plan is Some)
            &&& old is None ==> p.updated && !p.replaced && p.text@ == block() + seq!['\n']
            &&& old matches Some(bytes) ==> shown_text(bytes) is Ok && {
                let text = shown_text(bytes)->Ok_0;
                &&& p.text@ == injected(text)
                &&& p.updated == (injected(text) != text)
                &&& p.replaced == (block_at(text) is Some)
            }
        },
{
}

} // verus!
