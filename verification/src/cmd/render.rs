//! Filling in a template: `{{NAME}}` is replaced by the value of `NAME`.

use vstd::prelude::*;
use vstd::string::*;

use crate::cmd::write::{is_write_plan, opt_bytes, target_of, WritePlan};
use crate::encoding::{BomPolicy, OutputEncoding};
use crate::lines::texts;
use crate::source::{show_text, shown_text};
use crate::text::{
    chars_of, format_str_debug, law_split_finds_the_parts, law_split_loses_nothing, opt_text, same,
    split_at_first, split_once, str_debug, string_of, trim, trim_range, trimmed,
};

verus! {

/// What to do with a token that has no value.
#[derive(Debug, Clone, Copy, PartialEq, Eq, Structural)]
pub enum MissingPolicy {
    /// Fail, telling of all such tokens (default).
    Error,
    /// Put nothing in its place.
    Empty,
    /// Leave it as it stands.
    Leave,
}

impl Default for MissingPolicy {
    fn default() -> (r: Self)
        ensures
            r == MissingPolicy::Error,
    {
        MissingPolicy::Error
    }
}

/// What filling in a template came to.
#[derive(Debug)]
pub struct RenderResult {
    /// The number of tokens replaced by a value.
    pub substitutions: usize,
    /// The tokens without a value, each once, in the order they occur.
    pub missing: Vec<String>,
    /// The number of different tokens.
    pub referenced: usize,
}

// ── Values ──────────────────────────────────────────────────────────────────

/// The values of tokens. No token is given twice.
#[derive(Debug)]
pub struct Vars {
    pairs: Vec<(String, String)>,
}

impl Vars {
    /// The value of each token.
    pub closed spec fn values(&self) -> Map<Seq<char>, Seq<char>> {
        Map::new(
            |k: Seq<char>| exists|i: int| 0 <= i < self.pairs@.len() && (#[trigger] self.pairs@[i]).0@ == k,
            |k: Seq<char>|
                {
                    let i = choose|i: int|
                        0 <= i < self.pairs@.len() && (#[trigger] self.pairs@[i]).0@ == k;
                    self.pairs@[i].1@
                },
        )
    }

    /// No token is given twice.
    #[verifier::type_invariant]
    closed spec fn distinct(&self) -> bool {
        forall|i: int, j: int|
            0 <= i < j < self.pairs@.len() ==> (#[trigger] self.pairs@[i]).0@ != (
            #[trigger] self.pairs@[j]).0@
    }

    /// No values.
    pub fn new() -> (r: Vars)
        ensures
            r.values() =~= Map::<Seq<char>, Seq<char>>::empty(),
    {
        Vars { pairs: Vec::new() }
    }

    /// The value of a token.
    pub fn get(&self, key: &str) -> (r: Option<&String>)
        ensures
            match r {
                Some(v) => self.values().dom().contains(key@) && self.values()[key@] == v@,
                None => !self.values().dom().contains(key@),
            },
    {
        proof {
            use_type_invariant(self);
        }
        let mut i: usize = 0;
        while i < self.pairs.len()
            invariant
                i <= self.pairs@.len(),
                self.distinct(),
                forall|k: int| 0 <= k < i ==> (#[trigger] self.pairs@[k]).0@ != key@,
            decreases self.pairs@.len() - i,
        {
            if same(self.pairs[i].0.as_str(), key) {
                proof {
                    assert(self.pairs@[i as int].0@ == key@);
                    let j = choose|j: int|
                        0 <= j < self.pairs@.len() && (#[trigger] self.pairs@[j]).0@ == key@;
                    assert(j == i);
                }
                return Some(&self.pairs[i].1);
            }
            i = i + 1;
        }
        None
    }

    /// Give a token a value, in place of any it had.
    pub fn insert(&mut self, key: String, value: String)
        ensures
            final(self).values() =~= old(self).values().insert(key@, value@),
    {
        proof {
            use_type_invariant(&*self);
        }
        let ghost before = self.pairs@;
        let mut kept: Vec<(String, String)> = Vec::new();
        let mut i: usize = 0;
        while i < self.pairs.len()
            invariant
                i <= self.pairs@.len(),
                self.pairs@ == before,
                self.distinct(),
                forall|k: int|
                    0 <= k < kept@.len() ==> (#[trigger] kept@[k]).0@ != key@ && exists|j: int|
                        0 <= j < i && (#[trigger] before[j]).0@ == kept@[k].0@ && before[j].1@
                            == kept@[k].1@,
                forall|j: int|
                    0 <= j < i && (#[trigger] before[j]).0@ != key@ ==> exists|k: int|
                        0 <= k < kept@.len() && (#[trigger] kept@[k]).0@ == before[j].0@
                            && kept@[k].1@ == before[j].1@,
                forall|k: int, l: int|
                    0 <= k < l < kept@.len() ==> (#[trigger] kept@[k]).0@ != (
                    #[trigger] kept@[l]).0@,
            decreases self.pairs@.len() - i,
        {
            if !same(self.pairs[i].0.as_str(), key.as_str()) {
                let ghost had = kept@;
                kept.push((self.pairs[i].0.clone(), self.pairs[i].1.clone()));
                proof {
                    let n = had.len() as int;
                    assert(kept@[n].0@ == before[i as int].0@);
                    assert forall|k: int, l: int| 0 <= k < l < kept@.len() implies (
                    #[trigger] kept@[k]).0@ != (#[trigger] kept@[l]).0@ by {
                        assert(kept@[k] == had[k]);
                        if l < n {
                            assert(kept@[l] == had[l]);
                        } else {
                            let j = choose|j: int|
                                0 <= j < i && (#[trigger] before[j]).0@ == had[k].0@ && before[j].1@
                                    == had[k].1@;
                            assert(before[j].0@ != before[i as int].0@);
                        }
                    }
                    assert forall|k: int| 0 <= k < kept@.len() implies (#[trigger] kept@[k]).0@
                        != key@ && exists|j: int|
                        0 <= j < i + 1 && (#[trigger] before[j]).0@ == kept@[k].0@ && before[j].1@
                            == kept@[k].1@ by {
                        if k < n {
                            assert(kept@[k] == had[k]);
                            let j = choose|j: int|
                                0 <= j < i && (#[trigger] before[j]).0@ == had[k].0@ && before[j].1@
                                    == had[k].1@;
                            assert(0 <= j < i + 1 && before[j].0@ == kept@[k].0@);
                        } else {
                            assert(before[i as int].0@ == kept@[k].0@ && before[i as int].1@
                                == kept@[k].1@);
                        }
                    }
                    assert forall|j: int|
                        0 <= j < i + 1 && (#[trigger] before[j]).0@ != key@ implies exists|k: int|
                        0 <= k < kept@.len() && (#[trigger] kept@[k]).0@ == before[j].0@
                            && kept@[k].1@ == before[j].1@ by {
                        if j < i {
                            let k = choose|k: int|
                                0 <= k < had.len() && (#[trigger] had[k]).0@ == before[j].0@
                                    && had[k].1@ == before[j].1@;
                            assert(kept@[k] == had[k]);
                        } else {
                            assert(kept@[n].0@ == before[j].0@ && kept@[n].1@ == before[j].1@);
                        }
                    }
                }
            }
            i = i + 1;
        }
        let ghost had = kept@;
        let ghost kv = key@;
        let ghost vv = value@;
        kept.push((key, value));
        proof {
            let n = had.len() as int;
            assert forall|k: int, l: int| 0 <= k < l < kept@.len() implies (
            #[trigger] kept@[k]).0@ != (#[trigger] kept@[l]).0@ by {
                assert(kept@[k] == had[k]);
                if l < n {
                    assert(kept@[l] == had[l]);
                }
            }
        }
        let ghost old_values = self.values();
        self.pairs = kept;
        proof {
            let n = had.len() as int;
            let new_values = self.values();
            assert(self.pairs@[n].0@ == kv);
            assert forall|k: Seq<char>| new_values.dom().contains(k) <==> #[trigger] old_values.insert(
                kv,
                vv,
            ).dom().contains(k) by {
                if new_values.dom().contains(k) {
                    let i = choose|i: int|
                        0 <= i < self.pairs@.len() && (#[trigger] self.pairs@[i]).0@ == k;
                    if i < n {
                        assert(self.pairs@[i] == had[i]);
                        let j = choose|j: int|
                            0 <= j < before.len() && (#[trigger] before[j]).0@ == had[i].0@
                                && before[j].1@ == had[i].1@;
                        assert(before[j].0@ == k);
                    }
                }
                if old_values.dom().contains(k) && k != kv {
                    let j = choose|j: int| 0 <= j < before.len() && (#[trigger] before[j]).0@ == k;
                    let i = choose|i: int|
                        0 <= i < had.len() && (#[trigger] had[i]).0@ == before[j].0@ && had[i].1@
                            == before[j].1@;
                    assert(self.pairs@[i] == had[i]);
                }
            }
            assert forall|k: Seq<char>| new_values.dom().contains(k) implies
                #[trigger] new_values[k] == old_values.insert(kv, vv)[k] by {
                let i = choose|i: int|
                    0 <= i < self.pairs@.len() && (#[trigger] self.pairs@[i]).0@ == k;
                if k == kv {
                    if i < n {
                        assert(self.pairs@[i] == had[i]);
                    }
                    assert(i == n);
                } else {
                    assert(i < n);
                    assert(self.pairs@[i] == had[i]);
                    let j = choose|j: int|
                        0 <= j < before.len() && (#[trigger] before[j]).0@ == had[i].0@
                            && before[j].1@ == had[i].1@;
                    let j2 = choose|j2: int|
                        0 <= j2 < before.len() && (#[trigger] before[j2]).0@ == k;
                    assert(before[j].0@ == before[j2].0@);
                    assert(j == j2);
                }
            }
        }
    }
}

// ── Templates ───────────────────────────────────────────────────────────────

/// A part of a template.
pub enum Piece {
    /// Text that stands for itself.
    Text(Seq<char>),
    /// A token: how it is written, and its name.
    Token(Seq<char>, Seq<char>),
}

/// The first position from `j` on where `}}` stands; the length where there is none.
pub open spec fn close_pos(s: Seq<char>, j: int) -> int
    decreases s.len() - j,
{
    if j < 0 || j + 1 >= s.len() {
        s.len() as int
    } else if s[j] == '}' && s[j + 1] == '}' {
        j
    } else {
        close_pos(s, j + 1)
    }
}

/// The message for a token without a name.
pub open spec fn empty_token() -> Seq<char> {
    "render: empty `{{}}` placeholder is not allowed"@
}

/// The message for a token without an end.
pub open spec fn open_token() -> Seq<char> {
    "render: unterminated `{{` placeholder (no matching `}}`)"@
}

/// Parts, and behind them those of the rest.
pub open spec fn before(v: Seq<Piece>, rest: Result<Seq<Piece>, Seq<char>>) -> Result<
    Seq<Piece>,
    Seq<char>,
> {
    match rest {
        Ok(more) => Ok(v + more),
        Err(m) => Err(m),
    }
}

/// `\\{{` stands at the start.
pub open spec fn starts_escape(s: Seq<char>) -> bool {
    s.len() >= 3 && s[0] == '\\' && s[1] == '{' && s[2] == '{'
}

/// `{{` stands at the start.
pub open spec fn starts_token(s: Seq<char>) -> bool {
    s.len() >= 2 && s[0] == '{' && s[1] == '{'
}

/// The parts of a template, or the message of the first error in it. A token without a
/// name is an error where `strict`.
pub open spec fn pieces(s: Seq<char>, strict: bool) -> Result<Seq<Piece>, Seq<char>>
    decreases s.len(),
{
    if s.len() == 0 {
        Ok(seq![])
    } else if starts_escape(s) {
        before(seq![Piece::Text(seq!['{', '{'])], pieces(s.skip(3), strict))
    } else if starts_token(s) {
        let k = close_pos(s, 2);
        if k < 2 || k + 2 > s.len() {
            Err(open_token())
        } else if strict && trimmed(s.subrange(2, k)).len() == 0 {
            Err(empty_token())
        } else {
            before(
                seq![Piece::Token(s.take(k + 2), trimmed(s.subrange(2, k)))],
                pieces(s.skip(k + 2), strict),
            )
        }
    } else {
        before(seq![Piece::Text(s.take(1))], pieces(s.skip(1), strict))
    }
}

/// What stands for a part in the result.
pub open spec fn piece_text(
    p: Piece,
    vars: Map<Seq<char>, Seq<char>>,
    policy: MissingPolicy,
) -> Seq<char> {
    match p {
        Piece::Text(t) => t,
        Piece::Token(raw, name) => if vars.dom().contains(name) {
            vars[name]
        } else if policy == MissingPolicy::Leave {
            raw
        } else {
            seq![]
        },
    }
}

/// The template filled in.
pub open spec fn filled(
    v: Seq<Piece>,
    vars: Map<Seq<char>, Seq<char>>,
    policy: MissingPolicy,
) -> Seq<char>
    decreases v.len(),
{
    if v.len() == 0 {
        seq![]
    } else {
        filled(v.drop_last(), vars, policy) + piece_text(v.last(), vars, policy)
    }
}

/// The number of tokens that have a value.
pub open spec fn replaced_count(v: Seq<Piece>, vars: Map<Seq<char>, Seq<char>>) -> nat
    decreases v.len(),
{
    if v.len() == 0 {
        0
    } else {
        replaced_count(v.drop_last(), vars) + (match v.last() {
            Piece::Token(_, name) if vars.dom().contains(name) => 1nat,
            _ => 0,
        })
    }
}

/// A text added at the end where it does not occur yet.
pub open spec fn noted(v: Seq<Seq<char>>, name: Seq<char>) -> Seq<Seq<char>> {
    if v.contains(name) {
        v
    } else {
        v.push(name)
    }
}

/// The different tokens, in the order they first occur.
pub open spec fn token_names(v: Seq<Piece>) -> Seq<Seq<char>>
    decreases v.len(),
{
    if v.len() == 0 {
        seq![]
    } else {
        match v.last() {
            Piece::Token(_, name) => noted(token_names(v.drop_last()), name),
            Piece::Text(_) => token_names(v.drop_last()),
        }
    }
}

/// The different tokens without a value, in the order they first occur.
pub open spec fn missing_names(v: Seq<Piece>, vars: Map<Seq<char>, Seq<char>>) -> Seq<Seq<char>>
    decreases v.len(),
{
    if v.len() == 0 {
        seq![]
    } else {
        match v.last() {
            Piece::Token(_, name) if !vars.dom().contains(name) => noted(
                missing_names(v.drop_last(), vars),
                name,
            ),
            _ => missing_names(v.drop_last(), vars),
        }
    }
}

/// Texts with `, ` between them.
pub open spec fn listed(v: Seq<Seq<char>>) -> Seq<char>
    decreases v.len(),
{
    if v.len() == 0 {
        seq![]
    } else if v.len() == 1 {
        v[0]
    } else {
        listed(v.drop_last()) + ", "@ + v.last()
    }
}

/// The message for tokens without a value.
pub open spec fn undefined_message(names: Seq<Seq<char>>) -> Seq<char> {
    "render: template references undefined token"@ + (if names.len() == 1 {
        ""@
    } else {
        "s"@
    }) + ": "@ + listed(names)
}

/// A token without a name is an error: it has no value, and such tokens are errors.
pub open spec fn refuses_empty(vars: Map<Seq<char>, Seq<char>>, policy: MissingPolicy) -> bool {
    policy == MissingPolicy::Error && !vars.dom().contains(Seq::<char>::empty())
}

/// The message that filling in a template with the given parts fails with.
pub open spec fn render_failure(
    template: Seq<char>,
    vars: Map<Seq<char>, Seq<char>>,
    policy: MissingPolicy,
) -> Option<Seq<char>> {
    match pieces(template, refuses_empty(vars, policy)) {
        Err(m) => Some(m),
        Ok(v) => if policy == MissingPolicy::Error && missing_names(v, vars).len() > 0 {
            Some(undefined_message(missing_names(v, vars)))
        } else {
            None
        },
    }
}

/// What filling in a template comes to.
pub open spec fn is_rendering(
    text: Seq<char>,
    report: RenderResult,
    template: Seq<char>,
    vars: Map<Seq<char>, Seq<char>>,
    policy: MissingPolicy,
) -> bool {
    match pieces(template, refuses_empty(vars, policy)) {
        Ok(v) => {
            &&& text == filled(v, vars, policy)
            &&& report.substitutions == replaced_count(v, vars)
            &&& texts(report.missing@) == missing_names(v, vars)
            &&& report.referenced == token_names(v).len()
        },
        Err(_) => false,
    }
}

/// The position of the first `}}` from `from` on.
fn find_close(v: &Vec<char>, from: usize) -> (r: Option<usize>)
    requires
        from <= v@.len(),
    ensures
        match r {
            Some(k) => from <= k && k + 2 <= v@.len() && close_pos(v@, from as int) == k,
            None => close_pos(v@, from as int) == v@.len(),
        },
{
    let len: usize = v.len();
    let mut j: usize = from;
    while j < len && len - j > 1
        invariant
            from <= j <= len,
            len == v@.len(),
            close_pos(v@, j as int) == close_pos(v@, from as int),
        decreases len - j,
    {
        if v[j] == '}' && v[j + 1] == '}' {
            return Some(j);
        }
        j = j + 1;
    }
    None
}

proof fn lemma_close_shifts(s: Seq<char>, i: int, j: int)
    requires
        0 <= i <= s.len(),
        0 <= j,
    ensures
        close_pos(s, i + j) - i == close_pos(s.skip(i), j),
    decreases s.len() - i - j,
{
    if i + j + 1 < s.len() {
        lemma_close_shifts(s, i, j + 1);
    }
}

/// Adds a text to a list where it does not occur yet.
fn note(names: &mut Vec<String>, name: &str)
    ensures
        texts(final(names)@) == noted(texts(old(names)@), name@),
{
    let ghost before_ = texts(names@);
    let mut i: usize = 0;
    while i < names.len()
        invariant
            i <= names@.len(),
            before_ == texts(names@),
            forall|k: int| 0 <= k < i ==> #[trigger] before_[k] != name@,
        decreases names@.len() - i,
    {
        if same(names[i].as_str(), name) {
            proof {
                assert(before_[i as int] == name@);
            }
            return;
        }
        i = i + 1;
    }
    names.push(name.to_owned());
    proof {
        assert(texts(names@) =~= before_.push(name@));
        assert(!before_.contains(name@));
    }
}

fn undefined(names: &Vec<String>) -> (r: String)
    ensures
        r@ == undefined_message(texts(names@)),
{
    let ghost views = texts(names@);
    let mut list = String::new();
    let mut i: usize = 0;
    proof {
        assert(views.take(0) =~= seq![]);
        assert(list@ =~= listed(views.take(0)));
    }
    while i < names.len()
        invariant
            i <= names@.len(),
            views == texts(names@),
            list@ == listed(views.take(i as int)),
        decreases names@.len() - i,
    {
        proof {
            assert(views.take(i + 1).drop_last() =~= views.take(i as int));
            assert(views.take(i + 1).last() == names@[i as int]@);
        }
        if i > 0 {
            list.push_str(", ");
        }
        list.push_str(names[i].as_str());
        proof {
            assert(list@ =~= listed(views.take(i + 1)));
        }
        i = i + 1;
    }
    proof {
        assert(views.take(views.len() as int) =~= views);
    }
    let mut m = "render: template references undefined token".to_owned();
    m.push_str(
        if names.len() == 1 {
            ""
        } else {
            "s"
        },
    );
    m.push_str(": ");
    m.push_str(list.as_str());
    m
}

proof fn lemma_before(done: Seq<Piece>, p: Piece, rest: Result<Seq<Piece>, Seq<char>>)
    ensures
        before(done, before(seq![p], rest)) == before(done.push(p), rest),
        done.push(p).drop_last() == done,
        done.push(p).last() == p,
{
    assert(done.push(p).drop_last() =~= done);
    match rest {
        Ok(more) => {
            assert(done + (seq![p] + more) =~= done.push(p) + more);
        },
        Err(_) => {},
    }
}

/// Fill in a template. It fails where a `{{` is not closed and, under
/// [`MissingPolicy::Error`], where tokens have no value, among them those without a name.
pub fn render_str(template: &str, vars: &Vars, missing: MissingPolicy) -> (r: Result<
    (String, RenderResult),
    String,
>)
    ensures
        match render_failure(template@, vars.values(), missing) {
            Some(m) => r is Err && r->Err_0@ == m,
            None => r matches Ok((text, report)) && is_rendering(
                text@,
                report,
                template@,
                vars.values(),
                missing,
            ),
        },
{
    let v = chars_of(template);
    let len: usize = v.len();
    let ghost values = vars.values();
    let strict = matches!(missing, MissingPolicy::Error) && vars.get("").is_none();
    proof {
        reveal_strlit("");
        assert(""@ =~= Seq::<char>::empty());
        assert(strict == refuses_empty(values, missing));
    }
    let mut out = String::new();
    let mut substitutions: usize = 0;
    let mut absent: Vec<String> = Vec::new();
    let mut seen: Vec<String> = Vec::new();
    let ghost mut done: Seq<Piece> = seq![];
    let mut i: usize = 0;
    proof {
        assert(v@.skip(0) =~= v@);
        assert(before(done, pieces(v@, strict)) == pieces(v@, strict)) by {
            match pieces(v@, strict) {
                Ok(more) => {
                    assert(done + more =~= more);
                },
                Err(_) => {},
            }
        }
        assert(texts(absent@) =~= seq![]);
        assert(texts(seen@) =~= seq![]);
    }
    while i < len
        invariant
            i <= len,
            len == v@.len(),
            v@ == template@,
            values == vars.values(),
            strict == refuses_empty(values, missing),
            pieces(v@, strict) == before(done, pieces(v@.skip(i as int), strict)),
            out@ == filled(done, values, missing),
            substitutions == replaced_count(done, values),
            substitutions <= i,
            texts(absent@) == missing_names(done, values),
            texts(seen@) == token_names(done),
        decreases len - i,
    {
        let ghost rest = v@.skip(i as int);
        proof {
            assert(rest[0] == v@[i as int]);
            assert(len - i > 1 ==> rest[1] == v@[i + 1]);
            assert(len - i > 2 ==> rest[2] == v@[i + 2]);
        }
        if len - i > 2 && v[i] == '\\' && v[i + 1] == '{' && v[i + 2] == '{' {
            out.push_str("{{");
            proof {
                reveal_strlit("{{");
                let p = Piece::Text(seq!['{', '{']);
                assert("{{"@ =~= seq!['{', '{']);
                lemma_before(done, p, pieces(rest.skip(3), strict));
                assert(rest.skip(3) =~= v@.skip(i + 3));
                done = done.push(p);
            }
            i = i + 3;
        } else if len - i > 1 && v[i] == '{' && v[i + 1] == '{' {
            proof {
                lemma_close_shifts(v@, i as int, 2);
                assert(starts_token(rest));
            }
            let end: usize = match find_close(&v, i + 2) {
                Some(k) => k,
                None => {
                    return Err("render: unterminated `{{` placeholder (no matching `}}`)".to_owned());
                },
            };
            let (a, b) = trim_range(&v, i + 2, end);
            let ghost k = end - i;
            proof {
                assert(close_pos(rest, 2) == k);
                assert(rest.subrange(2, k) =~= v@.subrange(i + 2, end as int));
                assert(rest.take(k + 2) =~= v@.subrange(i as int, end + 2));
                assert(rest.skip(k + 2) =~= v@.skip(end + 2));
            }
            if strict && a == b {
                return Err("render: empty `{{}}` placeholder is not allowed".to_owned());
            }
            let key = string_of(&v, a, b);
            proof {
                let p = Piece::Token(rest.take(k + 2), key@);
                lemma_before(done, p, pieces(rest.skip(k + 2), strict));
                done = done.push(p);
            }
            match vars.get(key.as_str()) {
                Some(value) => {
                    out.push_str(value.as_str());
                    substitutions = substitutions + 1;
                },
                None => {
                    note(&mut absent, key.as_str());
                    if matches!(missing, MissingPolicy::Leave) {
                        out.push_str(string_of(&v, i, end + 2).as_str());
                    }
                },
            }
            proof {
                assert(out@ =~= filled(done, values, missing));
            }
            note(&mut seen, key.as_str());
            i = end + 2;
        } else {
            out.push(v[i]);
            proof {
                let p = Piece::Text(rest.take(1));
                assert(rest.take(1) =~= seq![v@[i as int]]);
                lemma_before(done, p, pieces(rest.skip(1), strict));
                assert(rest.skip(1) =~= v@.skip(i + 1));
                done = done.push(p);
                assert(out@ =~= filled(done, values, missing));
            }
            i = i + 1;
        }
    }
    proof {
        assert(v@.skip(len as int) =~= seq![]);
        assert(done + Seq::<Piece>::empty() =~= done);
        assert(pieces(template@, strict) == Ok::<Seq<Piece>, Seq<char>>(done));
        assert(texts(absent@).len() == absent@.len());
        assert(texts(seen@).len() == seen@.len());
    }
    if matches!(missing, MissingPolicy::Error) && absent.len() > 0 {
        return Err(undefined(&absent));
    }
    let referenced: usize = seen.len();
    Ok((out, RenderResult { substitutions, missing: absent, referenced }))
}

/// The text of a template file: decoded as for reading, with LF line endings.
pub fn load_template_file(bytes: &[u8]) -> (r: Result<String, String>)
    ensures
        match r {
            Ok(t) => shown_text(bytes@) == Ok::<Seq<char>, Seq<char>>(t@),
            Err(m) => shown_text(bytes@) == Err::<Seq<char>, Seq<char>>(m@),
        },
{
    match show_text(bytes) {
        Ok(d) => Ok(d.text),
        Err(m) => Err(m),
    }
}

// ── Arguments ───────────────────────────────────────────────────────────────

/// A character that the name of a token may hold.
pub open spec fn is_name_char(c: char) -> bool {
    'a' <= c <= 'z' || 'A' <= c <= 'Z' || '0' <= c <= '9' || c == '_' || c == '-'
}

/// The name and value that `KEY=VALUE` gives, or the message of the error.
pub open spec fn var_of(arg: Seq<char>) -> Result<(Seq<char>, Seq<char>), Seq<char>> {
    let prefix = "--var "@ + str_debug(arg);
    match split_at_first(arg, '=') {
        None => Err(prefix + ": expected KEY=VALUE form"@),
        Some((k, v)) => {
            let key = trimmed(k);
            if key.len() == 0 {
                Err(prefix + ": KEY is empty"@)
            } else if exists|i: int| 0 <= i < key.len() && !is_name_char(#[trigger] key[i]) {
                Err(prefix + ": KEY may only contain ASCII letters, digits, '_' or '-'"@)
            } else {
                Ok((key, v))
            }
        },
    }
}

fn var_error(arg: &str, what: &str) -> (r: String)
    ensures
        r@ == "--var "@ + str_debug(arg@) + what@,
{
    let mut m = "--var ".to_owned();
    m.push_str(format_str_debug(arg).as_str());
    m.push_str(what);
    m
}

/// Read a `KEY=VALUE` argument; the value may hold `=`.
pub fn parse_var(arg: &str) -> (r: Result<(String, String), String>)
    ensures
        match r {
            Ok((k, v)) => var_of(arg@) == Ok::<(Seq<char>, Seq<char>), Seq<char>>((k@, v@)),
            Err(m) => var_of(arg@) == Err::<(Seq<char>, Seq<char>), Seq<char>>(m@),
        },
{
    let (k, value) = match split_once(arg, '=') {
        Some(kv) => kv,
        None => {
            return Err(var_error(arg, ": expected KEY=VALUE form"));
        },
    };
    let key = trim(k.as_str());
    let v = chars_of(key.as_str());
    if v.len() == 0 {
        return Err(var_error(arg, ": KEY is empty"));
    }
    let mut i: usize = 0;
    while i < v.len()
        invariant
            i <= v@.len(),
            v@ == key@,
            key@.len() > 0,
            key@ == trimmed(k@),
            split_at_first(arg@, '=') == Some((k@, value@)),
            forall|j: int| 0 <= j < i ==> is_name_char(#[trigger] key@[j]),
        decreases v@.len() - i,
    {
        let c = v[i];
        if !(('a' <= c && c <= 'z') || ('A' <= c && c <= 'Z') || ('0' <= c && c <= '9') || c == '_'
            || c == '-') {
            proof {
                assert(!is_name_char(key@[i as int]));
            }
            return Err(
                var_error(arg, ": KEY may only contain ASCII letters, digits, '_' or '-'"),
            );
        }
        i = i + 1;
    }
    Ok((key, value))
}

/// The template to fill in, or the message of the error: one of an inline text, the
/// content of a file and standard input is to be given.
pub open spec fn template_of(
    inline_text: Option<Seq<char>>,
    file: Option<Seq<u8>>,
    stdin: Option<Seq<char>>,
) -> Result<Seq<char>, Seq<char>> {
    match (inline_text, file, stdin) {
        (Some(s), None, None) => Ok(s),
        (None, Some(bytes), None) => shown_text(bytes),
        (None, None, Some(s)) => Ok(s),
        (None, None, None) => Err(
            "render: must supply --template, --template-file, or pipe a template on stdin"@,
        ),
        _ => Err("render: --template, --template-file, and stdin are mutually exclusive"@),
    }
}

/// The text of the one template that is given.
pub fn choose_template(
    template_inline: Option<&str>,
    template_file: Option<&[u8]>,
    template_stdin: Option<&str>,
) -> (r: Result<String, String>)
    ensures
        match r {
            Ok(t) => template_of(
                opt_text(template_inline),
                opt_bytes(template_file),
                opt_text(template_stdin),
            ) == Ok::<Seq<char>, Seq<char>>(t@),
            Err(m) => template_of(
                opt_text(template_inline),
                opt_bytes(template_file),
                opt_text(template_stdin),
            ) == Err::<Seq<char>, Seq<char>>(m@),
        },
{
    match (template_inline, template_file, template_stdin) {
        (Some(s), None, None) => Ok(s.to_owned()),
        (None, Some(bytes), None) => load_template_file(bytes),
        (None, None, Some(s)) => Ok(s.to_owned()),
        (None, None, None) => Err(
            "render: must supply --template, --template-file, or pipe a template on stdin".to_owned(),
        ),
        _ => Err(
            "render: --template, --template-file, and stdin are mutually exclusive".to_owned(),
        ),
    }
}

/// Fill in a template and plan the write of the result to a file, whose content
/// before is given; `None` where it is not there.
pub fn run(
    label: &str,
    old: Option<&[u8]>,
    template_inline: Option<&str>,
    template_file: Option<&[u8]>,
    template_stdin: Option<&str>,
    vars: &Vars,
    missing: MissingPolicy,
    want_old_text: bool,
) -> (r: Result<(RenderResult, WritePlan), String>)
    ensures
        match template_of(
            opt_text(template_inline),
            opt_bytes(template_file),
            opt_text(template_stdin),
        ) {
            Err(m) => r is Err && r->Err_0@ == m,
            Ok(template) => match render_failure(template, vars.values(), missing) {
                Some(m) => r is Err && r->Err_0@ == m,
                None => match target_of(opt_bytes(old)) {
                    Err(m) => r is Err && r->Err_0@ == m,
                    Ok(target) => {
                        let text = filled(
                            pieces(template, refuses_empty(vars.values(), missing))->Ok_0,
                            vars.values(),
                            missing,
                        );
                        r matches Ok((report, plan)) && {
                            &&& is_rendering(text, report, template, vars.values(), missing)
                            &&& is_write_plan(
                                plan,
                                label@,
                                opt_bytes(old),
                                text,
                                target,
                                OutputEncoding::Preserve,
                                BomPolicy::Strip,
                                None,
                                want_old_text,
                                false,
                            )
                        }
                    },
                },
            },
        },
{
    let template = match choose_template(template_inline, template_file, template_stdin) {
        Ok(t) => t,
        Err(m) => {
            return Err(m);
        },
    };
    let (text, report) = match render_str(template.as_str(), vars, missing) {
        Ok(v) => v,
        Err(m) => {
            return Err(m);
        },
    };
    match crate::cmd::write::run(
        label,
        old,
        text.as_str(),
        OutputEncoding::Preserve,
        BomPolicy::Strip,
        None,
        want_old_text,
        false,
    ) {
        Ok(plan) => Ok((report, plan)),
        Err(m) => Err(m),
    }
}

// ── Laws ────────────────────────────────────────────────────────────────────

/// The tokens without a value are among the tokens, and none is listed twice.
pub proof fn law_missing_tokens_are_listed_once(v: Seq<Piece>, vars: Map<Seq<char>, Seq<char>>)
    ensures
        missing_names(v, vars).no_duplicates(),
        token_names(v).no_duplicates(),
        forall|name: Seq<char>| #[trigger]
            missing_names(v, vars).contains(name) <==> token_names(v).contains(name)
                && !vars.dom().contains(name),
    decreases v.len(),
{
    if v.len() > 0 {
        let w = v.drop_last();
        law_missing_tokens_are_listed_once(w, vars);
        match v.last() {
            Piece::Token(_, name) => {
                lemma_noted(token_names(w), name);
                lemma_noted(missing_names(w, vars), name);
            },
            Piece::Text(_) => {},
        }
    }
}

proof fn lemma_noted(v: Seq<Seq<char>>, name: Seq<char>)
    ensures
        v.no_duplicates() ==> noted(v, name).no_duplicates(),
        forall|x: Seq<char>| #[trigger]
            noted(v, name).contains(x) <==> v.contains(x) || x == name,
{
    if !v.contains(name) {
        let w = v.push(name);
        assert(w[v.len() as int] == name);
        assert forall|x: Seq<char>| v.contains(x) implies #[trigger] w.contains(x) by {
            let i = choose|i: int| 0 <= i < v.len() && v[i] == x;
            assert(w[i] == x);
        }
    }
}

/// A template without tokens or escapes is its own result.
pub proof fn law_plain_text_is_kept(
    s: Seq<char>,
    vars: Map<Seq<char>, Seq<char>>,
    policy: MissingPolicy,
)
    requires
        forall|i: int| 0 <= i && i + 1 < s.len() ==> !(#[trigger] s[i] == '{' && s[i + 1] == '{'),
    ensures
        pieces(s, refuses_empty(vars, policy)) matches Ok(v) && filled(v, vars, policy) == s
            && token_names(v).len() == 0,
    decreases s.len(),
{
    if s.len() > 0 {
        let rest = s.skip(1);
        assert forall|i: int| 0 <= i && i + 1 < rest.len() implies !(#[trigger] rest[i] == '{'
            && rest[i + 1] == '{') by {
            assert(s[i + 1] == rest[i]);
        }
        law_plain_text_is_kept(rest, vars, policy);
        assert(!starts_token(s));
        assert(!starts_escape(s)) by {
            if starts_escape(s) {
                let i: int = 1;
                assert(s[i] == '{' && s[i + 1] == '{');
            }
        }
        lemma_text_first(
            s.take(1),
            pieces(rest, refuses_empty(vars, policy))->Ok_0,
            vars,
            policy,
        );
        assert(s.take(1) + s.skip(1) =~= s);
    }
}

proof fn lemma_text_first(
    t: Seq<char>,
    v: Seq<Piece>,
    vars: Map<Seq<char>, Seq<char>>,
    policy: MissingPolicy,
)
    ensures
        filled(seq![Piece::Text(t)] + v, vars, policy) == t + filled(v, vars, policy),
        token_names(seq![Piece::Text(t)] + v) == token_names(v),
    decreases v.len(),
{
    let w = seq![Piece::Text(t)] + v;
    if v.len() == 0 {
        reveal_with_fuel(filled, 2);
        reveal_with_fuel(token_names, 2);
        assert(w.drop_last().len() == 0);
        assert(w.last() == Piece::Text(t));
        assert(token_names(w) =~= token_names(v));
        assert(filled(w, vars, policy) =~= t + filled(v, vars, policy));
    } else {
        assert(w.drop_last() =~= seq![Piece::Text(t)] + v.drop_last());
        assert(w.last() == v.last());
        lemma_text_first(t, v.drop_last(), vars, policy);
        assert(filled(w, vars, policy) =~= t + filled(v, vars, policy));
    }
}

proof fn lemma_close_pos_add(a: Seq<char>, b: Seq<char>, j: int)
    requires
        0 <= j,
        close_pos(a, j) + 2 <= a.len(),
    ensures
        close_pos(a + b, j) == close_pos(a, j),
    decreases a.len() - j,
{
    let s = a + b;
    if j + 1 < a.len() {
        assert(s[j] == a[j] && s[j + 1] == a[j + 1]);
        if !(a[j] == '}' && a[j + 1] == '}') {
            lemma_close_pos_add(a, b, j + 1);
        }
    }
}

/// A template can be filled in piece by piece: cut where no token or escape is cut through,
/// its parts are those of the front and behind them those of the back.
pub proof fn law_parts_follow_each_other(a: Seq<char>, b: Seq<char>, strict: bool)
    requires
        pieces(a, strict) is Ok,
        a.len() > 0 && b.len() > 0 && b[0] == '{' ==> a.last() != '{' && a.last() != '\\',
    ensures
        pieces(a + b, strict) == before(pieces(a, strict)->Ok_0, pieces(b, strict)),
    decreases a.len(),
{
    let s = a + b;
    if a.len() == 0 {
        assert(s =~= b);
        if pieces(b, strict) is Ok {
            assert(Seq::<Piece>::empty() + pieces(b, strict)->Ok_0 =~= pieces(b, strict)->Ok_0);
        }
    } else {
        let n: int = if starts_escape(a) {
            3
        } else if starts_token(a) {
            close_pos(a, 2) + 2
        } else {
            1
        };
        assert(forall|i: int| 0 <= i < a.len() ==> s[i] == a[i]);
        assert(a.len() < 3 ==> a.last() == s[a.len() - 1]);
        assert(starts_escape(s) == starts_escape(a));
        assert(starts_token(s) == starts_token(a));
        if starts_token(a) && !starts_escape(a) {
            lemma_close_pos_add(a, b, 2);
            assert(s.subrange(2, n - 2) =~= a.subrange(2, n - 2));
            assert(s.take(n) =~= a.take(n));
        } else if !starts_escape(a) {
            assert(s.take(1) =~= a.take(1));
        }
        assert(pieces(a.skip(n), strict) is Ok);
        assert(s.skip(n) =~= a.skip(n) + b);
        if a.skip(n).len() > 0 {
            assert(a.skip(n).last() == a.last());
        }
        law_parts_follow_each_other(a.skip(n), b, strict);
        let head = if starts_escape(a) {
            seq![Piece::Text(seq!['{', '{'])]
        } else if starts_token(a) {
            seq![Piece::Token(a.take(n), trimmed(a.subrange(2, n - 2)))]
        } else {
            seq![Piece::Text(a.take(1))]
        };
        assert(pieces(a, strict) == before(head, pieces(a.skip(n), strict)));
        assert(pieces(s, strict) == before(head, pieces(s.skip(n), strict)));
        if pieces(b, strict) is Ok {
            let mid = pieces(a.skip(n), strict)->Ok_0;
            let tail = pieces(b, strict)->Ok_0;
            assert(pieces(a, strict)->Ok_0 =~= head + mid);
            assert(head + (mid + tail) =~= (head + mid) + tail);
        }
    }
}

proof fn lemma_filled_add(
    v: Seq<Piece>,
    w: Seq<Piece>,
    vars: Map<Seq<char>, Seq<char>>,
    policy: MissingPolicy,
)
    ensures
        filled(v + w, vars, policy) == filled(v, vars, policy) + filled(w, vars, policy),
        replaced_count(v + w, vars) == replaced_count(v, vars) + replaced_count(w, vars),
    decreases w.len(),
{
    if w.len() == 0 {
        assert(v + w =~= v);
        assert(filled(v, vars, policy) + filled(w, vars, policy) =~= filled(v, vars, policy));
    } else {
        lemma_filled_add(v, w.drop_last(), vars, policy);
        assert((v + w).drop_last() =~= v + w.drop_last());
        assert((v + w).last() == w.last());
        assert(filled(v + w, vars, policy) =~= filled(v, vars, policy) + filled(w, vars, policy));
    }
}

/// Two templates one behind the other are filled in to their results one behind the other,
/// with as many tokens replaced as in both, where the cut is through no token or escape.
pub proof fn law_templates_are_filled_in_piece_by_piece(
    a: Seq<char>,
    b: Seq<char>,
    vars: Map<Seq<char>, Seq<char>>,
    policy: MissingPolicy,
    whole: (Seq<char>, RenderResult),
    front: (Seq<char>, RenderResult),
    back: (Seq<char>, RenderResult),
)
    requires
        a.len() > 0 && b.len() > 0 && b[0] == '{' ==> a.last() != '{' && a.last() != '\\',
        is_rendering(whole.0, whole.1, a + b, vars, policy),
        is_rendering(front.0, front.1, a, vars, policy),
        is_rendering(back.0, back.1, b, vars, policy),
    ensures
        whole.0 == front.0 + back.0,
        whole.1.substitutions == front.1.substitutions + back.1.substitutions,
{
    let strict = refuses_empty(vars, policy);
    law_parts_follow_each_other(a, b, strict);
    lemma_filled_add(pieces(a, strict)->Ok_0, pieces(b, strict)->Ok_0, vars, policy);
}

proof fn lemma_token(raw: Seq<char>, strict: bool)
    requires
        !raw.contains('}'),
        strict ==> trimmed(raw).len() > 0,
    ensures
        pieces(seq!['{', '{'] + raw + seq!['}', '}'], strict) == Ok::<Seq<Piece>, Seq<char>>(
            seq![Piece::Token(seq!['{', '{'] + raw + seq!['}', '}'], trimmed(raw))],
        ),
{
    let s = seq!['{', '{'] + raw + seq!['}', '}'];
    let k = 2 + raw.len() as int;
    assert forall|i: int| 2 <= i < k implies s[i] != '}' by {
        assert(s[i] == raw[i - 2]);
    }
    lemma_close_pos_is(s, 2, k);
    assert(s.subrange(2, k) =~= raw);
    assert(s.take(k + 2) =~= s);
    assert(s.skip(k + 2) =~= seq![]);
    let token = seq![Piece::Token(s, trimmed(raw))];
    assert(pieces(s.skip(k + 2), strict) == Ok::<Seq<Piece>, Seq<char>>(seq![]));
    assert(token + Seq::<Piece>::empty() =~= token);
}

proof fn lemma_close_pos_is(s: Seq<char>, j: int, k: int)
    requires
        0 <= j <= k,
        k + 2 <= s.len(),
        s[k] == '}' && s[k + 1] == '}',
        forall|i: int| j <= i < k ==> s[i] != '}',
    ensures
        close_pos(s, j) == k,
    decreases k - j,
{
    if j < k {
        assert(s[j] != '}');
        lemma_close_pos_is(s, j + 1, k);
    }
}

/// A token stands for the value that its name, without whitespace around it, has. Where it
/// has none it is listed as missing, and stays as it is or stands for nothing, as asked for.
pub proof fn law_a_token_stands_for_its_value(
    raw: Seq<char>,
    vars: Map<Seq<char>, Seq<char>>,
    policy: MissingPolicy,
    r: (Seq<char>, RenderResult),
)
    requires
        !raw.contains('}'),
        is_rendering(r.0, r.1, seq!['{', '{'] + raw + seq!['}', '}'], vars, policy),
    ensures
        ({
            let name = trimmed(raw);
            if vars.dom().contains(name) {
                r.0 == vars[name] && r.1.substitutions == 1 && r.1.missing@.len() == 0
            } else {
                &&& r.1.substitutions == 0
                &&& texts(r.1.missing@) == seq![name]
                &&& policy == MissingPolicy::Leave ==> r.0 == seq!['{', '{'] + raw + seq!['}', '}']
                &&& policy == MissingPolicy::Empty ==> r.0.len() == 0
            }
        }),
        r.1.referenced == 1,
{
    let strict = refuses_empty(vars, policy);
    let s = seq!['{', '{'] + raw + seq!['}', '}'];
    if strict && trimmed(raw).len() == 0 {
        let k = 2 + raw.len() as int;
        assert forall|i: int| 2 <= i < k implies s[i] != '}' by {
            assert(s[i] == raw[i - 2]);
        }
        lemma_close_pos_is(s, 2, k);
        assert(s.subrange(2, k) =~= raw);
    } else {
        lemma_token(raw, strict);
        let v = seq![Piece::Token(s, trimmed(raw))];
        let none = Seq::<Piece>::empty();
        assert(v.drop_last() =~= none);
        assert(filled(none, vars, policy) =~= seq![]);
        assert(filled(v, vars, policy) =~= piece_text(v[0], vars, policy));
        assert(replaced_count(none, vars) == 0);
        assert(missing_names(none, vars) =~= seq![]);
        assert(token_names(none) =~= seq![]);
        assert(token_names(v) =~= seq![trimmed(raw)]);
        assert(missing_names(v, vars) =~= (if vars.dom().contains(trimmed(raw)) {
            seq![]
        } else {
            seq![trimmed(raw)]
        }));
        assert(texts(r.1.missing@).len() == r.1.missing@.len());
    }
}

/// Under the policy that asks for it a token without a value is refused, and is no reason
/// for a refusal under the others.
pub proof fn law_missing_values_are_refused(
    raw: Seq<char>,
    vars: Map<Seq<char>, Seq<char>>,
    policy: MissingPolicy,
)
    requires
        !raw.contains('}'),
    ensures
        render_failure(seq!['{', '{'] + raw + seq!['}', '}'], vars, policy) is Some <==> policy
            == MissingPolicy::Error && !vars.dom().contains(trimmed(raw)),
{
    let strict = refuses_empty(vars, policy);
    let s = seq!['{', '{'] + raw + seq!['}', '}'];
    if strict && trimmed(raw).len() == 0 {
        assert(trimmed(raw) =~= seq![]);
        let k = 2 + raw.len() as int;
        assert forall|i: int| 2 <= i < k implies s[i] != '}' by {
            assert(s[i] == raw[i - 2]);
        }
        lemma_close_pos_is(s, 2, k);
        assert(s.subrange(2, k) =~= raw);
    } else {
        lemma_token(raw, strict);
        let v = seq![Piece::Token(s, trimmed(raw))];
        assert(v.drop_last() =~= seq![]);
        assert(missing_names(Seq::<Piece>::empty(), vars) =~= seq![]);
        assert(missing_names(v, vars) =~= (if vars.dom().contains(trimmed(raw)) {
            seq![]
        } else {
            seq![trimmed(raw)]
        }));
    }
}

/// An escaped opening stands for two braces and begins no token; a token that is not closed
/// is refused, whatever the values and the policy.
pub proof fn law_escapes_and_open_tokens(
    rest: Seq<char>,
    vars: Map<Seq<char>, Seq<char>>,
    policy: MissingPolicy,
)
    ensures
        match pieces(rest, refuses_empty(vars, policy)) {
            Ok(v) => pieces(
                seq!['\\', '{', '{'] + rest,
                refuses_empty(vars, policy),
            ) matches Ok(w) && filled(w, vars, policy) == seq!['{', '{'] + filled(v, vars, policy),
            Err(m) => render_failure(seq!['\\', '{', '{'] + rest, vars, policy) == Some(m),
        },
        !rest.contains('}') ==> render_failure(seq!['{', '{'] + rest, vars, policy) is Some,
{
    let strict = refuses_empty(vars, policy);
    let s = seq!['\\', '{', '{'] + rest;
    assert(s.skip(3) =~= rest);
    let text = seq![Piece::Text(seq!['{', '{'])];
    if pieces(rest, strict) is Ok {
        let v = pieces(rest, strict)->Ok_0;
        lemma_filled_add(text, v, vars, policy);
        assert(text.drop_last() =~= seq![]);
        assert(filled(Seq::<Piece>::empty(), vars, policy) =~= seq![]);
        assert(filled(text, vars, policy) =~= seq!['{', '{']);
    }
    if !rest.contains('}') {
        let t = seq!['{', '{'] + rest;
        assert forall|i: int| 2 <= i < t.len() implies t[i] != '}' by {
            assert(t[i] == rest[i - 2]);
        }
        lemma_never_closed(t, 2);
    }
}

proof fn lemma_never_closed(s: Seq<char>, j: int)
    requires
        0 <= j,
        forall|i: int| j <= i < s.len() ==> s[i] != '}',
    ensures
        close_pos(s, j) == s.len(),
    decreases s.len() - j,
{
    if j + 1 < s.len() {
        assert(s[j] != '}');
        lemma_never_closed(s, j + 1);
    }
}

/// `KEY=VALUE` gives the key, without whitespace around it, the whole value, in which `=`
/// may occur; it is refused where, and only where, the key is missing or holds a character
/// that a name may not.
pub proof fn law_values_are_given_by_name(key: Seq<char>, value: Seq<char>)
    requires
        !key.contains('='),
    ensures
        match var_of(key + seq!['='] + value) {
            Ok((k, v)) => k == trimmed(key) && v == value && k.len() > 0 && forall|i: int|
                0 <= i < k.len() ==> is_name_char(#[trigger] k[i]),
            Err(_) => trimmed(key).len() == 0 || exists|i: int|
                0 <= i < trimmed(key).len() && !is_name_char(#[trigger] trimmed(key)[i]),
        },
        var_of(key) is Err,
{
    law_split_finds_the_parts(key, '=', value);
    law_split_loses_nothing(key, '=');
}

/// A template is taken from the one place that gives it, and refused where more than one or
/// none does.
pub proof fn law_there_is_one_template(
    inline_text: Option<Seq<char>>,
    file: Option<Seq<u8>>,
    stdin: Option<Seq<char>>,
)
    ensures
        template_of(inline_text, file, stdin) matches Ok(t) ==> {
            ||| inline_text == Some(t) && file is None && stdin is None
            ||| inline_text is None && file is None && stdin == Some(t)
            ||| inline_text is None && stdin is None && file is Some && shown_text(file->0) == Ok::<
                Seq<char>,
                Seq<char>,
            >(t)
        },
        inline_text is Some && file is None && stdin is None ==> template_of(
            inline_text,
            file,
            stdin,
        ) is Ok,
        inline_text is None && file is None && stdin is Some ==> template_of(
            inline_text,
            file,
            stdin,
        ) is Ok,
        inline_text is None && stdin is None && file is Some && shown_text(file->0) is Ok
            ==> template_of(inline_text, file, stdin) is Ok,
{
}

/// The tokens without a value are told of one behind the other, in the order given.
pub proof fn law_undefined_tokens_are_listed(names: Seq<Seq<char>>, name: Seq<char>)
    ensures
        undefined_message(seq![name]) == "render: template references undefined token"@ + ": "@
            + name,
        names.len() > 0 ==> undefined_message(names.push(name))
            == "render: template references undefined tokens"@ + ": "@ + listed(names) + ", "@
            + name,
        listed(seq![name]) == name,
{
    reveal_strlit("");
    reveal_strlit("s");
    reveal_strlit("render: template references undefined token");
    reveal_strlit("render: template references undefined tokens");
    let one = "render: template references undefined token"@;
    assert(one + ""@ + ": "@ + name =~= one + ": "@ + name);
    if names.len() > 0 {
        let many = "render: template references undefined tokens"@;
        assert(names.push(name).drop_last() =~= names);
        assert(names.push(name).last() == name);
        assert(one + "s"@ =~= many);
        assert(many + ": "@ + (listed(names) + ", "@ + name) =~= many + ": "@ + listed(names) + ", "@
            + name);
    }
}

} // verus!
