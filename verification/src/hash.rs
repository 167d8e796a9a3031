//! Checksums as hexadecimal text.

use vstd::prelude::*;
use vstd::string::*;

use md5::Digest;

use crate::num::{hex_char, hex_digit_char, hex_fixed, push_hex};

verus! {

/// The CRC-32 of bytes.
pub uninterp spec fn crc32(bytes: Seq<u8>) -> u32;

/// `crc32fast::hash` computes the CRC-32 of bytes; the algorithm is left unsaid.
#[verifier::external_body]
fn crc32_of(bytes: &[u8]) -> (r: u32)
    ensures
        r == crc32(bytes@),
{
    crc32fast::hash(bytes)
}

/// The MD5 digest of bytes.
pub uninterp spec fn md5(bytes: Seq<u8>) -> Seq<u8>;

/// `md5::Md5::digest` computes the MD5 digest of bytes, which has sixteen bytes;
/// the algorithm is left unsaid.
#[verifier::external_body]
fn md5_of(bytes: &[u8]) -> (r: Vec<u8>)
    ensures
        r@ == md5(bytes@),
        r@.len() == 16,
{
    md5::Md5::digest(bytes).to_vec()
}

/// Bytes as lower-case hexadecimal text, two digits each.
pub open spec fn hex_text(s: Seq<u8>) -> Seq<char>
    decreases s.len(),
{
    if s.len() == 0 {
        seq![]
    } else {
        hex_text(s.drop_last()) + seq![
            hex_char((s.last() / 16) as nat, false),
            hex_char((s.last() % 16) as nat, false),
        ]
    }
}

/// The CRC-32 of bytes as eight lower-case digits.
pub open spec fn crc32_text(bytes: Seq<u8>) -> Seq<char> {
    hex_fixed(crc32(bytes) as nat, 8, false)
}

/// The MD5 digest of bytes as lower-case digits.
pub open spec fn md5_text(bytes: Seq<u8>) -> Seq<char> {
    hex_text(md5(bytes))
}

proof fn lemma_hex_fixed_len(n: nat, width: nat, upper: bool)
    ensures
        hex_fixed(n, width, upper).len() == width,
    decreases width,
{
    if width > 0 {
        lemma_hex_fixed_len(n / 16, (width - 1) as nat, upper);
    }
}

/// The CRC-32 of bytes as eight lower-case digits.
pub fn crc32_hex(bytes: &[u8]) -> (r: String)
    ensures
        r@ == crc32_text(bytes@),
        r@.len() == 8,
{
    let mut out = String::new();
    push_hex(&mut out, crc32_of(bytes), 8, false);
    proof {
        lemma_hex_fixed_len(crc32(bytes@) as nat, 8, false);
        assert(out@ =~= crc32_text(bytes@));
    }
    out
}

/// The MD5 digest of bytes as 32 lower-case digits.
pub fn md5_hex(bytes: &[u8]) -> (r: String)
    ensures
        r@ == md5_text(bytes@),
        r@.len() == 32,
{
    let digest = md5_of(bytes);
    let mut out = String::new();
    let mut i: usize = 0;
    proof {
        assert(digest@.take(0) =~= seq![]);
    }
    while i < digest.len()
        invariant
            i <= digest@.len(),
            out@.len() == 2 * i,
            out@ =~= hex_text(digest@.take(i as int)),
        decreases digest@.len() - i,
    {
        let b: u8 = digest[i];
        proof {
            assert(digest@.take(i + 1).drop_last() =~= digest@.take(i as int));
            assert(digest@.take(i + 1).last() == b);
        }
        out.push(hex_digit_char(b / 16, false));
        out.push(hex_digit_char(b % 16, false));
        i = i + 1;
    }
    proof {
        assert(digest@.take(i as int) =~= digest@);
    }
    out
}

} // verus!
