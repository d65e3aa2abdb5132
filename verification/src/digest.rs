//! SHA-256, as computed by the `sha2` crate.
use sha2::{Digest, Sha256};
use vstd::prelude::*;

verus! {

/// The SHA-256 digest of `message` (FIPS 180-4), as `sha2::Sha256` computes it.
pub uninterp spec fn sha256_digest(message: Seq<u8>) -> Seq<u8>;

/// Calls `sha2::Sha256::digest` on `message`. Trusted: the 32 bytes returned
/// are `sha256_digest(message)`, a function of the message bytes alone. Feeding
/// the same bytes through several `update` calls gives the same digest, so
/// callers build the whole message first and hash it once.
#[verifier::external_body]
pub fn sha256(message: &[u8]) -> (digest: [u8; 32])
    ensures
        digest@ == sha256_digest(message@),
{
    Sha256::digest(message).into()
}

} // verus!
