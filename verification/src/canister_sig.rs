//! The public key of a canister signature, and the principal that it
//! authenticates.

use vstd::prelude::*;

verus! {

/// The longest principal, in bytes.
pub const MAX_PRINCIPAL_LEN: usize = 29;

/// The longest raw key (the byte of the canister id's length, the id and the
/// seed) whose DER envelope can hold its length in one byte.
pub const MAX_RAW_KEY_LEN: usize = 238;

/// The DER prefix that names the algorithm of canister signatures, the
/// object identifier 1.3.6.1.4.1.56387.1.2.
pub open spec fn canister_sig_oid() -> Seq<u8> {
    seq![
        0x30u8, 0x0Cu8, 0x06u8, 0x0Au8, 0x2Bu8, 0x06u8, 0x01u8, 0x04u8, 0x01u8, 0x83u8, 0xB8u8,
        0x43u8, 0x01u8, 0x02u8,
    ]
}

/// The raw public key for a seed of a canister: the length of the canister's
/// id in one byte, the id, the seed.
pub open spec fn canister_sig_key_raw(canister_id: Seq<u8>, seed: Seq<u8>) -> Seq<u8> {
    seq![canister_id.len() as u8] + canister_id + seed
}

/// The DER encoding of the public key for a seed of a canister: a sequence
/// of the algorithm's identifier and the raw key as a bit string.
pub open spec fn canister_sig_key_der(canister_id: Seq<u8>, seed: Seq<u8>) -> Seq<u8> {
    let raw = canister_sig_key_raw(canister_id, seed);
    seq![0x30u8, (17 + raw.len()) as u8] + canister_sig_oid() + seq![
        0x03u8,
        (1 + raw.len()) as u8,
        0x00u8,
    ] + raw
}

/// The bytes of the self-authenticating principal of a public key.
pub uninterp spec fn self_authenticating_id(public_key: Seq<u8>) -> Seq<u8>;

/// Calls `CanisterSigPublicKey::new` and `to_der` of
/// `ic-canister-sig-creation`, on the canister id as a `candid::Principal`.
/// Trusted: the result is the DER encoding that `canister_sig_key_der`
/// spells out. Longer ids make `Principal::from_slice` panic, and longer
/// keys overflow the length byte of the envelope: both are left out.
#[verifier::external_body]
pub(crate) fn der_encode_canister_sig_key(canister_id: &[u8], seed: Vec<u8>) -> (der: Vec<u8>)
    requires
        canister_id@.len() <= MAX_PRINCIPAL_LEN,
        1 + canister_id@.len() + seed@.len() <= MAX_RAW_KEY_LEN,
    ensures
        der@ == canister_sig_key_der(canister_id@, seed@),
{
    let canister_id = candid::Principal::from_slice(canister_id);
    ic_canister_sig_creation::CanisterSigPublicKey::new(canister_id, seed).to_der()
}

/// Calls `candid::Principal::self_authenticating` and hands back the bytes
/// of the principal. Trusted: they depend on the public key alone, and are
/// 28 bytes of a digest followed by the byte 2.
#[verifier::external_body]
pub(crate) fn self_authenticating(public_key: &[u8]) -> (principal: Vec<u8>)
    ensures
        principal@ == self_authenticating_id(public_key@),
        principal@.len() == MAX_PRINCIPAL_LEN,
        principal@[MAX_PRINCIPAL_LEN - 1] == 2,
{
    candid::Principal::self_authenticating(public_key).as_slice().to_vec()
}

} // verus!
