use sha2::Digest;
use sha2::Sha256;
use vstd::prelude::*;

verus! {

/// The SHA-256 digest of the UTF-8 encoding of `content`, written as upper-case
/// hexadecimal digits, two for each byte of the digest.
pub uninterp spec fn sha256_hex(content: Seq<char>) -> Seq<char>;

/// Hashes `content` with SHA-256 and returns the digest as upper-case
/// hexadecimal text.
///
/// Trusted: the body feeds the bytes of `content` to `sha2::Sha256` through
/// `Digest::new`, `Digest::update` and `Digest::finalize`, and formats the
/// resulting array with `{:X}`. The contract only gives that text its name; it
/// is a function of `content` alone.
#[verifier::external_body]
pub(crate) fn create_hash(content: &str) -> (digest: String)
    ensures
        digest@ == sha256_hex(content@),
{
    let mut hasher = Sha256::new();
    hasher.update(content.as_bytes());
    format!("{:X}", hasher.finalize())
}

} // verus!
