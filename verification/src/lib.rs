//! Text-processing utilities: escape and data-format codecs, encoding- and
//! line-ending-aware transformations, and the decision logic of the file
//! subcommands built on them.

use vstd::prelude::*;

pub mod branch;
pub mod cmd;
pub mod data_format;
pub mod diff;
pub mod encoding;
pub mod encoding_laws;
pub mod escape;
pub mod glob;
pub mod hash;
pub mod json;
pub mod layout;
pub mod lines;
pub mod num;
pub mod paths;
pub mod pattern;
pub mod source;
pub mod text;
pub mod walk;

verus! {

} // verus!
