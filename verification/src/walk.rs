//! What a walk through a directory tree comes upon.

use vstd::prelude::*;
use vstd::string::*;

use crate::glob::{glob_match, glob_matches, glob_pattern};
use crate::lines::texts;

verus! {

/// What stands at a path.
#[derive(Debug, Clone, Copy, PartialEq, Eq, Structural)]
pub enum EntryKind {
    /// A regular file.
    File,
    /// A directory.
    Directory,
    /// Anything else.
    Other,
}

/// One entry of a walk.
#[derive(Debug)]
pub enum WalkEntry {
    /// Something was found.
    Found {
        /// What it is.
        kind: EntryKind,
        /// Its path relative to where the walk began.
        rel: String,
        /// Its path.
        path: String,
    },
    /// Something could not be read.
    Failed {
        /// Where, as far as is known.
        hint: String,
        /// Why.
        message: String,
    },
}

/// The entry is a file that a glob selects.
pub open spec fn is_selected(e: WalkEntry, pattern: Seq<char>) -> bool {
    match e {
        WalkEntry::Found { kind, rel, .. } => kind == EntryKind::File && glob_match(pattern, rel@),
        WalkEntry::Failed { .. } => false,
    }
}

/// The paths of the files that a glob selects.
pub open spec fn selected(entries: Seq<WalkEntry>, pattern: Seq<char>) -> Seq<Seq<char>>
    decreases entries.len(),
{
    if entries.len() == 0 {
        seq![]
    } else {
        let rest = selected(entries.drop_last(), pattern);
        if is_selected(entries.last(), pattern) {
            rest.push(entries.last()->path@)
        } else {
            rest
        }
    }
}

/// The warnings for what could not be read.
pub open spec fn access_warnings(entries: Seq<WalkEntry>, who: Seq<char>) -> Seq<Seq<char>>
    decreases entries.len(),
{
    if entries.len() == 0 {
        seq![]
    } else {
        let rest = access_warnings(entries.drop_last(), who);
        match entries.last() {
            WalkEntry::Failed { hint, message } => rest.push(
                who + ": cannot access "@ + hint@ + ": "@ + message@,
            ),
            _ => rest,
        }
    }
}

/// The message of the first thing, from position `i` on, that could not be read.
pub open spec fn first_access_error(entries: Seq<WalkEntry>, i: int) -> Option<Seq<char>>
    decreases entries.len() - i,
{
    if i < 0 || i >= entries.len() {
        None
    } else {
        match entries[i] {
            WalkEntry::Failed { message, .. } => Some(message@),
            _ => first_access_error(entries, i + 1),
        }
    }
}

/// Whether a glob selects an entry.
pub fn selects(m: &globset::GlobSet, e: &WalkEntry) -> (r: bool)
    ensures
        r == is_selected(*e, glob_pattern(*m)),
{
    match e {
        WalkEntry::Found { kind, rel, .. } => match kind {
            EntryKind::File => glob_matches(m, rel.as_str()),
            _ => false,
        },
        WalkEntry::Failed { .. } => false,
    }
}

/// The message of the first thing that could not be read.
pub fn find_access_error(entries: &Vec<WalkEntry>) -> (r: Option<String>)
    ensures
        match r {
            Some(m) => first_access_error(entries@, 0) == Some(m@),
            None => first_access_error(entries@, 0) is None,
        },
{
    let mut i: usize = 0;
    while i < entries.len()
        invariant
            i <= entries@.len(),
            first_access_error(entries@, i as int) == first_access_error(entries@, 0),
        decreases entries@.len() - i,
    {
        match &entries[i] {
            WalkEntry::Failed { message, .. } => {
                return Some(message.clone());
            },
            _ => {},
        }
        i = i + 1;
    }
    None
}

/// Appends the warnings for what could not be read.
pub fn push_access_warnings(entries: &Vec<WalkEntry>, who: &str, warnings: &mut Vec<String>)
    ensures
        texts(final(warnings)@) == texts(old(warnings)@) + access_warnings(entries@, who@),
{
    let ghost w0 = texts(warnings@);
    let mut i: usize = 0;
    proof {
        assert(entries@.take(0) =~= seq![]);
        assert(w0 + access_warnings(entries@.take(0), who@) =~= w0);
    }
    while i < entries.len()
        invariant
            i <= entries@.len(),
            texts(warnings@) == w0 + access_warnings(entries@.take(i as int), who@),
        decreases entries@.len() - i,
    {
        let ghost wv = texts(warnings@);
        proof {
            assert(entries@.take(i + 1).drop_last() =~= entries@.take(i as int));
            assert(entries@.take(i + 1).last() == entries@[i as int]);
        }
        match &entries[i] {
            WalkEntry::Found { .. } => {},
            WalkEntry::Failed { hint, message } => {
                let mut w = who.to_owned();
                w.push_str(": cannot access ");
                w.push_str(hint.as_str());
                w.push_str(": ");
                w.push_str(message.as_str());
                let ghost shown = w@;
                warnings.push(w);
                proof {
                    assert(texts(warnings@) =~= wv.push(shown));
                    assert(texts(warnings@) =~= w0 + access_warnings(entries@.take(i + 1), who@));
                }
            },
        }
        i = i + 1;
    }
    proof {
        assert(entries@.take(i as int) =~= entries@);
    }
}

/// Appends the paths of the files that a glob selects.
pub fn collect_selected(
    entries: &Vec<WalkEntry>,
    m: &globset::GlobSet,
    paths: &mut Vec<String>,
)
    ensures
        texts(final(paths)@) == texts(old(paths)@) + selected(entries@, glob_pattern(*m)),
{
    let ghost p0 = texts(paths@);
    let ghost pattern = glob_pattern(*m);
    let mut i: usize = 0;
    proof {
        assert(entries@.take(0) =~= seq![]);
        assert(p0 + selected(entries@.take(0), pattern) =~= p0);
    }
    while i < entries.len()
        invariant
            i <= entries@.len(),
            pattern == glob_pattern(*m),
            texts(paths@) == p0 + selected(entries@.take(i as int), pattern),
        decreases entries@.len() - i,
    {
        let ghost pv = texts(paths@);
        proof {
            assert(entries@.take(i + 1).drop_last() =~= entries@.take(i as int));
            assert(entries@.take(i + 1).last() == entries@[i as int]);
        }
        match &entries[i] {
            WalkEntry::Found { path, .. } => {
                if selects(m, &entries[i]) {
                    paths.push(path.clone());
                    proof {
                        assert(texts(paths@) =~= pv.push(path@));
                        assert(texts(paths@) =~= p0 + selected(entries@.take(i + 1), pattern));
                    }
                }
            },
            WalkEntry::Failed { .. } => {},
        }
        i = i + 1;
    }
    proof {
        assert(entries@.take(i as int) =~= entries@);
    }
}

// ── Laws ────────────────────────────────────────────────────────────────────

/// The files that a glob selects are listed by their paths, in the order the walk came upon
/// them, and nothing else is: each is a regular file whose path relative to where the walk
/// began the glob matches.
pub proof fn law_globs_select_files(entries: Seq<WalkEntry>, pattern: Seq<char>)
    ensures
        selected(entries, pattern) == entries.filter(
            |e: WalkEntry|
                e is Found && e->kind == EntryKind::File && glob_match(pattern, e->rel@),
        ).map_values(|e: WalkEntry| e->path@),
    decreases entries.len(),
{
    let want = |e: WalkEntry|
        e is Found && e->kind == EntryKind::File && glob_match(pattern, e->rel@);
    reveal(Seq::filter);
    if entries.len() > 0 {
        law_globs_select_files(entries.drop_last(), pattern);
    }
    assert(selected(entries, pattern) =~= entries.filter(want).map_values(
        |e: WalkEntry| e->path@,
    ));
}

/// There is one warning for each thing that could not be read, in order, and each tells of
/// it; and an error where, and only where, there is such a thing.
pub proof fn law_each_failure_is_told_of(entries: Seq<WalkEntry>, who: Seq<char>)
    ensures
        access_warnings(entries, who) == entries.filter(|e: WalkEntry| e is Failed).map_values(
            |e: WalkEntry| who + ": cannot access "@ + e->hint@ + ": "@ + e->message@,
        ),
        first_access_error(entries, 0) is None <==> access_warnings(entries, who).len() == 0,
    decreases entries.len(),
{
    lemma_warnings(entries, who);
    lemma_first_error(entries, 0);
    let fails = entries.filter(|e: WalkEntry| e is Failed);
    assert(access_warnings(entries, who).len() == fails.len());
    if first_access_error(entries, 0) is Some {
        let k = choose|k: int| 0 <= k < entries.len() && (#[trigger] entries[k]) is Failed;
        entries.lemma_filter_contains(|e: WalkEntry| e is Failed, k);
        assert(fails.contains(entries[k]));
    } else if fails.len() > 0 {
        entries.lemma_filter_pred(|e: WalkEntry| e is Failed, 0);
        assert(fails.contains(fails[0]));
        entries.lemma_filter_contains_rev(|e: WalkEntry| e is Failed, fails[0]);
        let k = choose|k: int| 0 <= k < entries.len() && entries[k] == fails[0];
        assert(entries[k] is Failed);
    }
}

proof fn lemma_warnings(entries: Seq<WalkEntry>, who: Seq<char>)
    ensures
        access_warnings(entries, who) == entries.filter(|e: WalkEntry| e is Failed).map_values(
            |e: WalkEntry| who + ": cannot access "@ + e->hint@ + ": "@ + e->message@,
        ),
    decreases entries.len(),
{
    reveal(Seq::filter);
    if entries.len() > 0 {
        lemma_warnings(entries.drop_last(), who);
    }
    assert(access_warnings(entries, who) =~= entries.filter(
        |e: WalkEntry| e is Failed,
    ).map_values(|e: WalkEntry| who + ": cannot access "@ + e->hint@ + ": "@ + e->message@));
}

proof fn lemma_first_error(entries: Seq<WalkEntry>, i: int)
    requires
        0 <= i,
    ensures
        match first_access_error(entries, i) {
            Some(m) => exists|k: int|
                i <= k < entries.len() && (#[trigger] entries[k]) is Failed && entries[k]->message@
                    == m && forall|j: int| i <= j < k ==> (#[trigger] entries[j]) is Found,
            None => forall|k: int| i <= k < entries.len() ==> (#[trigger] entries[k]) is Found,
        },
    decreases entries.len() - i,
{
    if i < entries.len() {
        lemma_first_error(entries, i + 1);
        match entries[i] {
            WalkEntry::Failed { .. } => {
                assert(entries[i] is Failed);
            },
            WalkEntry::Found { .. } => {
                match first_access_error(entries, i + 1) {
                    Some(m) => {
                        let k = choose|k: int|
                            i + 1 <= k < entries.len() && (#[trigger] entries[k]) is Failed
                                && entries[k]->message@ == m && forall|j: int|
                                i + 1 <= j < k ==> (#[trigger] entries[j]) is Found;
                        assert(entries[k] is Failed);
                    },
                    None => {},
                }
            },
        }
    }
}

/// The error told of is that of the first thing that could not be read.
pub proof fn law_the_first_failure_is_the_error(entries: Seq<WalkEntry>)
    ensures
        match first_access_error(entries, 0) {
            Some(m) => exists|k: int|
                0 <= k < entries.len() && (#[trigger] entries[k]) is Failed && entries[k]->message@
                    == m && forall|j: int| 0 <= j < k ==> (#[trigger] entries[j]) is Found,
            None => forall|k: int| 0 <= k < entries.len() ==> (#[trigger] entries[k]) is Found,
        },
{
    lemma_first_error(entries, 0);
}

} // verus!
