//! Content fingerprints: the lowercase hex SHA-256 digest of a file's bytes.

use sha2::Digest;
use vstd::prelude::*;

verus! {

/// The lowercase hexadecimal SHA-256 digest of `bytes`.
pub uninterp spec fn sha256_hex(bytes: Seq<u8>) -> Seq<char>;

/// Relies on `sha2::Sha256::digest` (with `GenericArray`'s `LowerHex`): the
/// digest, as hex text, is determined by the bytes alone.
#[verifier::external_body]
fn sha256_lower_hex(bytes: &[u8]) -> (r: String)
    ensures
        r@ == sha256_hex(bytes@),
{
    format!("{:x}", sha2::Sha256::digest(bytes))
}

/// The fingerprint of a file's content. Only the bytes matter: neither the
/// file's name nor any of its metadata takes part.
pub fn fingerprint(content: &[u8]) -> (r: String)
    ensures
        r@ == sha256_hex(content@),
{
    sha256_lower_hex(content)
}

/// The same bytes always give the same fingerprint, in every call and in
/// every process.
pub proof fn lemma_fingerprint_deterministic(a: Seq<u8>, b: Seq<u8>)
    requires
        a == b,
    ensures
        sha256_hex(a) == sha256_hex(b),
{
}

} // verus!
