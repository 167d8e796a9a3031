//! JSON values as they are handed in.

use vstd::prelude::*;
use vstd::string::*;

use crate::text::same;

verus! {

/// A JSON value, together with its compact text.
#[derive(Debug)]
pub struct Json {
    /// The value.
    pub value: JsonValue,
    /// The value as compact JSON text.
    pub text: String,
}

/// What a JSON value is.
#[derive(Debug)]
pub enum JsonValue {
    /// `null`.
    Null,
    /// `true` or `false`.
    Bool(bool),
    /// A number.
    Number,
    /// A string.
    Text(String),
    /// An array.
    Array(Vec<Json>),
    /// An object: its fields in order, with no key twice.
    Object(Vec<(String, Json)>),
}

/// The value of the first field with the given key.
pub open spec fn field(fields: Seq<(String, Json)>, key: Seq<char>) -> Option<Json>
    decreases fields.len(),
{
    if fields.len() == 0 {
        None
    } else if fields[0].0@ == key {
        Some(fields[0].1)
    } else {
        field(fields.drop_first(), key)
    }
}

/// The value of the first field with the given key.
pub fn get_field<'a>(fields: &'a Vec<(String, Json)>, key: &str) -> (r: Option<&'a Json>)
    ensures
        match r {
            Some(v) => field(fields@, key@) == Some(*v),
            None => field(fields@, key@) is None,
        },
{
    let mut i: usize = 0;
    proof {
        assert(fields@.skip(0) =~= fields@);
    }
    while i < fields.len()
        invariant
            i <= fields@.len(),
            field(fields@.skip(i as int), key@) == field(fields@, key@),
        decreases fields@.len() - i,
    {
        proof {
            assert(fields@.skip(i as int)[0] == fields@[i as int]);
            assert(fields@.skip(i as int).drop_first() =~= fields@.skip(i + 1));
        }
        if same(fields[i].0.as_str(), key) {
            return Some(&fields[i].1);
        }
        i = i + 1;
    }
    None
}

/// The value of a field is that of the first with its key, and there is none where, and
/// only where, no field has the key.
pub proof fn law_the_first_field_counts(fields: Seq<(String, Json)>, key: Seq<char>)
    ensures
        match field(fields, key) {
            Some(v) => exists|k: int|
                0 <= k < fields.len() && (#[trigger] fields[k]).0@ == key && fields[k].1 == v
                    && forall|j: int| 0 <= j < k ==> (#[trigger] fields[j]).0@ != key,
            None => forall|k: int| 0 <= k < fields.len() ==> (#[trigger] fields[k]).0@ != key,
        },
    decreases fields.len(),
{
    if fields.len() > 0 && fields[0].0@ != key {
        let rest = fields.drop_first();
        law_the_first_field_counts(rest, key);
        match field(rest, key) {
            Some(v) => {
                let k = choose|k: int|
                    0 <= k < rest.len() && (#[trigger] rest[k]).0@ == key && rest[k].1 == v
                        && forall|j: int| 0 <= j < k ==> (#[trigger] rest[j]).0@ != key;
                assert(fields[k + 1] == rest[k]);
                assert forall|j: int| 0 <= j < k + 1 implies (#[trigger] fields[j]).0@ != key by {
                    if j > 0 {
                        assert(fields[j] == rest[j - 1]);
                    }
                }
            },
            None => {
                assert forall|k: int| 0 <= k < fields.len() implies (#[trigger] fields[k]).0@
                    != key by {
                    if k > 0 {
                        assert(fields[k] == rest[k - 1]);
                    }
                }
            },
        }
    } else if fields.len() > 0 {
        assert(fields[0].0@ == key);
    }
}

} // verus!
