//! Content hashes in the `sha256:<hex>` form the store and the transcript use.
use vstd::prelude::*;

use sha2::Digest;

use crate::text::{owned, push_char};

verus! {

/// The SHA-256 digest of a byte sequence.
pub uninterp spec fn sha256(data: Seq<u8>) -> Seq<u8>;

/// Computes the SHA-256 digest of `data` with `sha2::Sha256::digest`. The
/// contract names the result after its input and states the digest length of
/// 32 bytes that SHA-256 fixes; it states nothing of the digest's bits.
#[verifier::external_body]
fn sha256_digest(data: &[u8]) -> (r: Vec<u8>)
    ensures
        r@ == sha256(data@),
        r@.len() == 32,
{
    sha2::Sha256::digest(data).to_vec()
}

/// The lowercase hexadecimal digit for a value below 16.
pub open spec fn hex_digit_lower(d: u8) -> char {
    if d < 10 {
        ((d + 48) as u8) as char
    } else {
        ((d + 87) as u8) as char
    }
}

/// The uppercase hexadecimal digit for a value below 16.
pub open spec fn hex_digit_upper(d: u8) -> char {
    if d < 10 {
        ((d + 48) as u8) as char
    } else {
        ((d + 55) as u8) as char
    }
}

/// Two lowercase hexadecimal digits per byte, most significant first.
pub open spec fn hex_lower(bytes: Seq<u8>) -> Seq<char>
    decreases bytes.len(),
{
    if bytes.len() == 0 {
        Seq::empty()
    } else {
        hex_lower(bytes.drop_last()) + seq![hex_digit_lower(bytes.last() / 16), hex_digit_lower(bytes.last() % 16)]
    }
}

pub(crate) fn hex_char_lower(d: u8) -> (c: char)
    requires
        d < 16,
    ensures
        c == hex_digit_lower(d),
{
    if d < 10 {
        ((d + 48) as u8) as char
    } else {
        ((d + 87) as u8) as char
    }
}

pub(crate) fn hex_char_upper(d: u8) -> (c: char)
    requires
        d < 16,
    ensures
        c == hex_digit_upper(d),
{
    if d < 10 {
        ((d + 48) as u8) as char
    } else {
        ((d + 55) as u8) as char
    }
}

/// Appends the lowercase hexadecimal rendering of `bytes`.
pub(crate) fn push_hex_lower(out: &mut String, bytes: &[u8])
    ensures
        final(out)@ == old(out)@ + hex_lower(bytes@),
{
    let ghost start = out@;
    let mut i: usize = 0;
    while i < bytes.len()
        invariant
            i <= bytes@.len(),
            out@ == start + hex_lower(bytes@.subrange(0, i as int)),
        decreases bytes@.len() - i,
    {
        let b = bytes[i];
        push_char(out, hex_char_lower(b / 16));
        push_char(out, hex_char_lower(b % 16));
        proof {
            let s1 = bytes@.subrange(0, i + 1);
            assert(s1.drop_last() =~= bytes@.subrange(0, i as int));
            assert(s1.last() == b);
            assert(out@ =~= start + hex_lower(s1));
        }
        i = i + 1;
    }
    assert(bytes@.subrange(0, bytes@.len() as int) =~= bytes@);
}

/// `sha256:` followed by the lowercase hex SHA-256 digest of the bytes.
pub open spec fn content_hash_of(bytes: Seq<u8>) -> Seq<char> {
    "sha256:"@ + hex_lower(sha256(bytes))
}

/// The content hash of raw bytes: `sha256:` and the lowercase hex digest.
pub fn raw_content_hash(bytes: &[u8]) -> (r: String)
    ensures
        r@ == content_hash_of(bytes@),
{
    let digest = sha256_digest(bytes);
    let mut out = owned("sha256:");
    push_hex_lower(&mut out, digest.as_slice());
    out
}

} // verus!
