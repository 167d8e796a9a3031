//! What a file is like: size, lines, encoding, line endings and byte-order mark.

use vstd::prelude::*;
use vstd::string::*;

use crate::layout::{census, crlf_marks, law_census_counts_each_ending_once, lines_of};
use crate::source::{bom_length, read_text, source_of, text_of};

verus! {

/// What a file is like.
#[derive(Debug)]
pub struct DescribeResult {
    /// The path as given.
    pub file: String,
    /// The size in bytes.
    pub byte_count: u64,
    /// The number of lines; a line ending at the very end begins no further one.
    pub line_count: u64,
    /// The name of the encoding.
    pub encoding: String,
    /// `LF`, `CRLF`, `CR`, `Mixed` or `None`.
    pub line_ending: &'static str,
    /// Whether the file begins with a byte-order mark.
    pub bom: bool,
}

/// The kinds of line ending that occur.
#[derive(Debug, Clone, Copy, PartialEq, Eq, Structural)]
pub struct LineEndingSeen {
    /// LF occurs.
    pub lf: bool,
    /// CR LF occurs.
    pub crlf: bool,
    /// CR occurs.
    pub cr: bool,
}

impl LineEndingSeen {
    /// The name of the one kind that occurs, `None` without any, and `Mixed` with
    /// more than one.
    pub open spec fn name(self) -> Seq<char> {
        if !self.lf && !self.crlf && !self.cr {
            "None"@
        } else if self.lf && !self.crlf && !self.cr {
            "LF"@
        } else if self.crlf && !self.lf && !self.cr {
            "CRLF"@
        } else if self.cr && !self.lf && !self.crlf {
            "CR"@
        } else {
            "Mixed"@
        }
    }

    /// The name of the one kind that occurs, `None` without any, and `Mixed` with
    /// more than one.
    pub fn as_str(&self) -> (r: &'static str)
        ensures
            r@ == self.name(),
    {
        match (self.lf, self.crlf, self.cr) {
            (false, false, false) => "None",
            (true, false, false) => "LF",
            (false, true, false) => "CRLF",
            (false, false, true) => "CR",
            _ => "Mixed",
        }
    }
}

/// The kinds of line ending that occur in a text.
pub open spec fn seen_in(text: Seq<char>) -> LineEndingSeen {
    let c = census(text);
    LineEndingSeen { lf: c.lf > 0, crlf: c.crlf > 0, cr: c.cr > 0 }
}

/// Describe a file, called `file`, with the given content.
pub fn run(file: &str, content: &[u8]) -> (r: Result<DescribeResult, String>)
    ensures
        match (source_of(content@), text_of(content@)) {
            (Ok(info), Ok(text)) => r matches Ok(d) && d.file@ == file@ && d.byte_count
                == content@.len() && d.line_count == lines_of(text) && d.encoding@
                == info.encoding.name() && d.line_ending@ == seen_in(text).name() && d.bom == (
            bom_length(content@) > 0),
            _ => r is Err && text_of(content@) is Err && r->Err_0@ == "describe: read "@ + file@
                + ": "@ + text_of(content@)->Err_0,
        },
{
    match read_text(content) {
        Ok(decoded) => {
            let seen = LineEndingSeen {
                lf: decoded.layout.has_lf,
                crlf: decoded.layout.has_crlf,
                cr: decoded.layout.has_cr,
            };
            Ok(
                DescribeResult {
                    file: file.to_owned(),
                    byte_count: content.len() as u64,
                    line_count: decoded.layout.line_count,
                    encoding: decoded.encoding.name().to_owned(),
                    line_ending: seen.as_str(),
                    bom: decoded.bom_len > 0,
                },
            )
        },
        Err(e) => {
            let mut m = "describe: read ".to_owned();
            m.push_str(file);
            m.push_str(": ");
            m.push_str(e.as_str());
            Err(m)
        },
    }
}

/// Marks as many as something holds of them are there where, and only where, one is.
proof fn lemma_counted<A>(s: Seq<A>, a: A)
    ensures
        s.to_multiset().count(a) > 0 <==> s.contains(a),
{
    broadcast use vstd::seq_lib::group_to_multiset_ensures;

}

/// The name given to the line endings of a text tells which kinds occur: LF where LF alone
/// does, CR LF where no LF or CR stands apart, CR where CR alone does, none where neither
/// does, and otherwise that they are mixed. There are as many lines as line endings, and one
/// more where the text does not end in one.
pub proof fn law_the_endings_seen_are_named(s: Seq<char>)
    ensures
        ({
            let name = seen_in(s).name();
            &&& s.len() > 0 && s.last() != '\n' && s.last() != '\r' ==> lines_of(s)
                == s.to_multiset().count('\n') + s.to_multiset().count('\r')
                - crlf_marks(s).to_multiset().count(true) + 1
            &&& s.len() == 0 || s.last() == '\n' || s.last() == '\r' ==> lines_of(s)
                == s.to_multiset().count('\n') + s.to_multiset().count('\r')
                - crlf_marks(s).to_multiset().count(true)
            &&& !s.contains('\n') && !s.contains('\r') ==> name == "None"@
            &&& s.contains('\n') && !s.contains('\r') ==> name == "LF"@
            &&& s.contains('\r') && !s.contains('\n') ==> name == "CR"@
            &&& s.contains('\n') && s.contains('\r') && crlf_marks(s).to_multiset().count(true)
                == s.to_multiset().count('\n') && s.to_multiset().count('\n')
                == s.to_multiset().count('\r') ==> name == "CRLF"@
            &&& s.contains('\n') && s.contains('\r') && (crlf_marks(s).to_multiset().count(true)
                != s.to_multiset().count('\n') || s.to_multiset().count('\n')
                != s.to_multiset().count('\r')) ==> name == "Mixed"@
        }),
{
    law_census_counts_each_ending_once(s);
    lemma_counted(s, '\n');
    lemma_counted(s, '\r');
}

} // verus!
