//! SHA-256 digests as lowercase hexadecimal text.

use vstd::prelude::*;
use vstd::string::StringSliceAdditionalSpecFns;

use crypto::digest::Digest;

verus! {

/// The hexadecimal SHA-256 digest of a byte string.
pub uninterp spec fn sha256_hex_of(data: Seq<u8>) -> Seq<char>;

/// A lowercase hexadecimal digit.
pub open spec fn is_hex_digit(c: char) -> bool {
    ('0' <= c && c <= '9') || ('a' <= c && c <= 'f')
}

/// What every digest produced here looks like: 64 lowercase hex digits.
pub open spec fn is_digest_text(s: Seq<char>) -> bool {
    &&& s.len() == 64
    &&& forall|i: int| 0 <= i < s.len() ==> is_hex_digit(#[trigger] s[i])
}

/// Relies on `crypto::sha2::Sha256` fed through `Digest::input` and read
/// back with `Digest::result_str`: the result depends on the bytes alone and
/// is the 32-byte digest written as 64 lowercase hex digits.
#[verifier::external_body]
fn sha256_hex(data: &[u8]) -> (r: String)
    ensures
        r@ == sha256_hex_of(data@),
        is_digest_text(r@),
{
    let mut hasher = crypto::sha2::Sha256::new();
    hasher.input(data);
    hasher.result_str()
}

/// Digest of the UTF-8 encoding of `input`.
pub fn compute_hash(input: &str) -> (r: String)
    ensures
        r@ == sha256_hex_of(input.spec_bytes()),
        is_digest_text(r@),
{
    sha256_hex(input.as_bytes())
}

/// Digest of a file's contents, used as its integrity checksum.
pub fn checksum_of_bytes(data: &[u8]) -> (r: String)
    ensures
        r@ == sha256_hex_of(data@),
        is_digest_text(r@),
{
    sha256_hex(data)
}

} // verus!
