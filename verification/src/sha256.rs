//! SHA-256, computed by the `sha2` crate.

use vstd::prelude::*;

verus! {

/// A SHA-256 digest.
pub type Hash32 = [u8; 32];

/// The SHA-256 digest of `data`. The library never unfolds this function: all
/// it knows is that equal inputs have equal digests.
pub uninterp spec fn sha256_of(data: Seq<u8>) -> Seq<u8>;

/// Two different byte strings with the same SHA-256 digest.
pub open spec fn sha256_collision(x: Seq<u8>, y: Seq<u8>) -> bool {
    x != y && sha256_of(x) == sha256_of(y)
}

/// SHA-256 has a collision somewhere.
pub open spec fn sha256_collides() -> bool {
    exists|x: Seq<u8>, y: Seq<u8>| sha256_collision(x, y)
}

/// Two byte strings with the same digest are equal, unless SHA-256 collides.
pub proof fn lemma_same_digest(x: Seq<u8>, y: Seq<u8>)
    requires
        sha256_of(x) == sha256_of(y),
    ensures
        x == y || sha256_collides(),
{
    if x != y {
        assert(sha256_collision(x, y));
    }
}

/// Calls `sha2::Sha256::digest` (the one-shot form of `Digest`) on `data`.
/// Trusted: the 32 bytes that come back are the SHA-256 digest of `data`, a
/// function of the bytes alone.
#[verifier::external_body]
pub(crate) fn sha256(data: &[u8]) -> (digest: Hash32)
    ensures
        digest@ == sha256_of(data@),
{
    <sha2::Sha256 as sha2::Digest>::digest(data).into()
}

} // verus!
