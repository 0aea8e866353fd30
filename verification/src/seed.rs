//! Derivation of the seed that stands behind the key of one user anchor
//! towards one frontend origin.

use vstd::prelude::*;
use vstd::utf8::encode_utf8;
use crate::decimal::{decimal, decimal_digits, lemma_decimal_injective, lemma_decimal_len};
use crate::sha256::{sha256, sha256_collision, sha256_of, Hash32};

verus! {

/// The longest salt, and the longest frontend origin, that the one-byte
/// length prefixes of the seed's preimage can describe.
pub const MAX_COMPONENT_LEN: usize = 255;

/// The byte string that is hashed into a seed: the salt, the anchor number in
/// decimal notation and the origin, each behind one byte that holds its
/// length.
pub open spec fn seed_preimage(salt: Seq<u8>, anchor_number: u64, frontend: Seq<u8>) -> Seq<u8> {
    let anchor = decimal(anchor_number as nat);
    seq![salt.len() as u8] + salt + seq![anchor.len() as u8] + anchor + seq![
        frontend.len() as u8,
    ] + frontend
}

/// The seed for an anchor and an origin (given as its UTF-8 bytes) under a
/// salt.
pub open spec fn seed_of(salt: Seq<u8>, anchor_number: u64, frontend: Seq<u8>) -> Seq<u8> {
    sha256_of(seed_preimage(salt, anchor_number, frontend))
}

/// Derives the seed for `anchor_number` and `frontend` under `salt`. The
/// result depends on these three values alone, so two derivations from the
/// same values agree byte for byte.
pub fn calculate_seed(salt: &[u8], anchor_number: u64, frontend: &str) -> (seed: Hash32)
    requires
        salt@.len() <= MAX_COMPONENT_LEN,
        encode_utf8(frontend@).len() <= MAX_COMPONENT_LEN,
    ensures
        seed@ == seed_of(salt@, anchor_number, encode_utf8(frontend@)),
{
    let anchor = decimal_digits(anchor_number);
    let origin = frontend.as_bytes();
    proof {
        lemma_decimal_len(anchor_number as nat);
    }
    let mut blob: Vec<u8> = Vec::new();
    blob.push(salt.len() as u8);
    blob.extend_from_slice(salt);
    blob.push(anchor.len() as u8);
    blob.extend_from_slice(anchor.as_slice());
    blob.push(origin.len() as u8);
    blob.extend_from_slice(origin);
    assert(blob@ =~= seed_preimage(salt@, anchor_number, encode_utf8(frontend@)));
    sha256(blob.as_slice())
}

/// Under one salt, two (anchor, origin) pairs with the same preimage are the
/// same pair: the length prefixes make the concatenation unambiguous.
pub proof fn lemma_seed_preimage_injective(
    salt: Seq<u8>,
    anchor_a: u64,
    frontend_a: Seq<u8>,
    anchor_b: u64,
    frontend_b: Seq<u8>,
)
    requires
        frontend_a.len() <= MAX_COMPONENT_LEN,
        frontend_b.len() <= MAX_COMPONENT_LEN,
        seed_preimage(salt, anchor_a, frontend_a) == seed_preimage(salt, anchor_b, frontend_b),
    ensures
        anchor_a == anchor_b,
        frontend_a == frontend_b,
{
    let pa = seed_preimage(salt, anchor_a, frontend_a);
    let pb = seed_preimage(salt, anchor_b, frontend_b);
    let da = decimal(anchor_a as nat);
    let db = decimal(anchor_b as nat);
    lemma_decimal_len(anchor_a as nat);
    lemma_decimal_len(anchor_b as nat);
    let at = 1 + salt.len() as int;
    assert(pa[at] == da.len() as u8);
    assert(pb[at] == db.len() as u8);
    assert(da.len() == db.len());
    assert(da =~= pa.subrange(at + 1, at + 1 + da.len()));
    assert(db =~= pb.subrange(at + 1, at + 1 + db.len()));
    lemma_decimal_injective(anchor_a as nat, anchor_b as nat);
    let origin_at = at + 1 + da.len();
    assert(pa[origin_at] == frontend_a.len() as u8);
    assert(pb[origin_at] == frontend_b.len() as u8);
    assert(frontend_a.len() == frontend_b.len());
    assert(frontend_a =~= pa.subrange(origin_at + 1, origin_at + 1 + frontend_a.len()));
    assert(frontend_b =~= pb.subrange(origin_at + 1, origin_at + 1 + frontend_b.len()));
}

/// Under one salt, two different (anchor, origin) pairs have different seeds,
/// unless SHA-256 collides on their two preimages.
pub proof fn lemma_distinct_pairs_distinct_seeds(
    salt: Seq<u8>,
    anchor_a: u64,
    frontend_a: Seq<u8>,
    anchor_b: u64,
    frontend_b: Seq<u8>,
)
    requires
        frontend_a.len() <= MAX_COMPONENT_LEN,
        frontend_b.len() <= MAX_COMPONENT_LEN,
        anchor_a != anchor_b || frontend_a != frontend_b,
    ensures
        seed_of(salt, anchor_a, frontend_a) != seed_of(salt, anchor_b, frontend_b)
            || sha256_collision(
            seed_preimage(salt, anchor_a, frontend_a),
            seed_preimage(salt, anchor_b, frontend_b),
        ),
{
    if seed_preimage(salt, anchor_a, frontend_a) == seed_preimage(salt, anchor_b, frontend_b) {
        lemma_seed_preimage_injective(salt, anchor_a, frontend_a, anchor_b, frontend_b);
    }
}

} // verus!
