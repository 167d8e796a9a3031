//! The byte stream that edits are spliced into: a `redwing` thicket, held by
//! one owner, and what it contains.

use vstd::prelude::*;

verus! {

/// `redwing::Thicket`, a byte stream with a log of changes.
#[verifier::external_type_specification]
#[verifier::external_body]
pub struct ExThicket(redwing::Thicket);

/// The bytes that a thicket's main branch holds.
pub uninterp spec fn thicket_bytes(t: redwing::Thicket) -> Seq<u8>;

/// `redwing::make_thicket_from_bytes` makes a thicket that holds the given
/// bytes.
#[verifier::external_body]
pub(crate) fn thicket_of(bytes: &[u8]) -> (r: redwing::Thicket)
    ensures
        thicket_bytes(r) == bytes@,
{
    redwing::make_thicket_from_bytes(bytes)
}

/// `redwing::Branch::splice` on the main branch replaces `len` bytes at
/// `offset` by `data`, and succeeds where those bytes are there.
#[verifier::external_body]
pub(crate) fn thicket_splice(
    t: &mut redwing::Thicket,
    offset: u64,
    len: u64,
    data: &[u8],
) -> (r: Result<(), String>)
    requires
        offset + len <= thicket_bytes(*old(t)).len(),
    ensures
        r is Ok,
        thicket_bytes(*final(t)) == thicket_bytes(*old(t)).take(offset as int) + data@
            + thicket_bytes(*old(t)).skip(offset + len),
{
    t.main().splice(offset, len, data).map_err(|e| e.to_string())
}

/// `redwing::materialize` copies the bytes of the main branch, and succeeds
/// where there are no more of them than the platform can address.
#[verifier::external_body]
pub(crate) fn thicket_content(t: &redwing::Thicket) -> (r: Result<Vec<u8>, String>)
    ensures
        r matches Ok(bytes) ==> bytes@ == thicket_bytes(*t),
        thicket_bytes(*t).len() <= usize::MAX ==> r is Ok,
{
    redwing::materialize(&*t.main()).map_err(|e| e.to_string())
}

} // verus!
