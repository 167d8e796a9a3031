//! Creating a file that is not there yet.

use vstd::prelude::*;
use vstd::string::*;

use crate::cmd::write::{encode_new_file_content, new_file_bytes};
use crate::encoding::{BomPolicy, LineEnding, OutputEncoding};

verus! {

/// The content of the file called `label`, which must not exist.
pub fn run(
    label: &str,
    exists: bool,
    content: &str,
    output_encoding: OutputEncoding,
    bom_policy: BomPolicy,
    line_ending_override: Option<LineEnding>,
) -> (r: Result<Vec<u8>, String>)
    ensures
        match r {
            Ok(b) => !exists && b@ == new_file_bytes(
                content@,
                output_encoding,
                bom_policy,
                line_ending_override,
            ),
            Err(m) => exists && m@ == "create: "@ + label@
                + ": file already exists (use write to overwrite)"@,
        },
{
    if exists {
        let mut m = "create: ".to_owned();
        m.push_str(label);
        m.push_str(": file already exists (use write to overwrite)");
        return Err(m);
    }
    Ok(encode_new_file_content(content, output_encoding, bom_policy, line_ending_override))
}

} // verus!
