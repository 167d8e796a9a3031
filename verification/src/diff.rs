//! Line diffs of two texts.

use vstd::prelude::*;
use vstd::string::*;
use vstd::utf8::*;

verus! {

/// The unified diff that `similar` makes of two texts, line by line, with the
/// given names in its header.
pub uninterp spec fn similar_unified(
    old_text: Seq<char>,
    new_text: Seq<char>,
    old_name: Seq<char>,
    new_name: Seq<char>,
) -> Seq<char>;

/// `similar::TextDiff::from_lines` with `unified_diff` and `header`: the diff is
/// a function of the two texts and the two names.
#[verifier::external_body]
fn similar_diff(old_text: &str, new_text: &str, old_name: &str, new_name: &str) -> (r: String)
    ensures
        r@ == similar_unified(old_text@, new_text@, old_name@, new_name@),
{
    similar::TextDiff::from_lines(old_text, new_text)
        .unified_diff()
        .header(old_name, new_name)
        .to_string()
}

/// The unified diff of two versions of the file called `label`.
pub open spec fn file_diff(
    label: Seq<char>,
    old_text: Seq<char>,
    new_text: Seq<char>,
) -> Seq<char> {
    similar_unified(old_text, new_text, "a/"@ + label, "b/"@ + label)
}

/// The unified diff of two versions of the file called `label`.
pub fn unified_diff(label: &str, old_text: &str, new_text: &str) -> (r: String)
    ensures
        r@ == file_diff(label@, old_text@, new_text@),
{
    let mut a = "a/".to_owned();
    a.push_str(label);
    let mut b = "b/".to_owned();
    b.push_str(label);
    similar_diff(old_text, new_text, a.as_str(), b.as_str())
}

// ── Line changes ────────────────────────────────────────────────────────────

/// What became of a line.
#[derive(Debug, Clone, Copy, PartialEq, Eq, Structural)]
pub enum LineTag {
    /// It stands in both texts.
    Equal,
    /// It stands in the old text alone.
    Delete,
    /// It stands in the new text alone.
    Insert,
}

/// A line of a diff.
#[derive(Debug)]
pub struct LineChange {
    /// What became of it.
    pub tag: LineTag,
    /// Its index in the old text.
    pub old_index: Option<usize>,
    /// Its index in the new text.
    pub new_index: Option<usize>,
    /// The line, with its line ending.
    pub text: String,
}

/// The abstract value of a [`LineChange`].
pub struct ChangeModel {
    /// What became of the line.
    pub tag: LineTag,
    /// Its index in the old text.
    pub old_index: Option<nat>,
    /// Its index in the new text.
    pub new_index: Option<nat>,
    /// The line, with its line ending.
    pub text: Seq<char>,
}

impl View for LineChange {
    type V = ChangeModel;

    open spec fn view(&self) -> ChangeModel {
        ChangeModel {
            tag: self.tag,
            old_index: match self.old_index {
                Some(i) => Some(i as nat),
                None => None,
            },
            new_index: match self.new_index {
                Some(i) => Some(i as nat),
                None => None,
            },
            text: self.text@,
        }
    }
}

/// The lines of the diff that `similar` makes of two texts.
pub uninterp spec fn similar_changes(old_text: Seq<char>, new_text: Seq<char>) -> Seq<ChangeModel>;

/// The abstract values of the lines of a diff.
pub open spec fn change_views(v: Seq<LineChange>) -> Seq<ChangeModel> {
    v.map_values(|c: LineChange| c@)
}

/// Each index of a line is below the length of the text in bytes.
pub open spec fn indices_within(v: Seq<LineChange>, old_len: nat, new_len: nat) -> bool {
    forall|i: int|
        0 <= i < v.len() ==> ((#[trigger] v[i]).old_index matches Some(k) ==> k < old_len) && (
        v[i].new_index matches Some(k) ==> k < new_len)
}

/// `similar::TextDiff::from_lines` with `iter_all_changes`: the lines of the
/// diff are a function of the two texts, and a line's index is less than the
/// number of lines, hence than the number of bytes.
#[verifier::external_body]
pub(crate) fn line_changes(old_text: &str, new_text: &str) -> (r: Vec<LineChange>)
    ensures
        change_views(r@) == similar_changes(old_text@, new_text@),
        indices_within(r@, encode_utf8(old_text@).len(), encode_utf8(new_text@).len()),
{
    let diff = similar::TextDiff::from_lines(old_text, new_text);
    diff.iter_all_changes().map(|c| {
        let tag = match c.tag() {
            similar::ChangeTag::Equal => LineTag::Equal,
            similar::ChangeTag::Delete => LineTag::Delete,
            similar::ChangeTag::Insert => LineTag::Insert,
        };
        let (old_index, new_index) = (c.old_index(), c.new_index());
        LineChange { tag, old_index, new_index, text: c.value().to_owned() }
    }).collect()
}

} // verus!
