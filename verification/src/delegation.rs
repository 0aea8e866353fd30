//! Issuing and redeeming delegations.

use vstd::prelude::*;
use vstd::slice::slice_to_vec;
use vstd::utf8::encode_utf8;
use crate::byte_order::rows;
use crate::canister_sig::{
    canister_sig_key_der, der_encode_canister_sig_key, self_authenticating,
    self_authenticating_id, MAX_PRINCIPAL_LEN,
};
use crate::certified_tree::self_describing_tag;
use crate::frontend::{
    check_frontend_length, is_dev_frontend, is_dev_origin, FRONTEND_HOSTNAME_LIMIT,
};
use crate::origins::{recorded, update_latest_delegation_origins, LatestDelegationOrigins, DAY_NS};
use crate::seed::{calculate_seed, seed_of, MAX_COMPONENT_LEN};
use crate::hash::{
    byte_strings_hash, digests_of, domain_hash, field_hash, field_hashes, hash_of_map,
    hash_with_domain, items_hash_to_32_bytes, lemma_item_hashes_of_byte_strings, map_hash_of,
    value_hash, Value,
};
use crate::leb128::leb128;
use crate::sha256::{sha256_of, Hash32};
use crate::signature_map::{
    lemma_pruned_count_bounded, pairs_of, pruned_count, replaced, SigEntry, SignatureMap,
};
use crate::types::{
    AnchorNumber, Delegation, DelegationError, FrontendHostname, GetDelegationResponse, IIDomain,
    PublicKey, SessionKey, SignedDelegation, Timestamp, UserKey,
};

verus! {

/// One minute, in nanoseconds.
pub const MINUTE_NS: u64 = 60_000_000_000;

/// How long a delegation is valid if the caller does not say.
pub const DEFAULT_EXPIRATION_PERIOD_NS: u64 = 30 * MINUTE_NS;

/// The longest time that a delegation can be valid.
pub const MAX_EXPIRATION_PERIOD_NS: u64 = 30 * DAY_NS;

/// How long the signature of a delegation stays certified. It does not
/// depend on how long the delegation itself is valid: a delegation is
/// redeemed right after it was prepared.
pub const SIGNATURE_EXPIRATION_PERIOD_NS: u64 = MINUTE_NS;

/// The most signatures that one call prunes.
pub const MAX_SIGS_TO_PRUNE: usize = 50;

/// The domain separator of delegations, `ic-request-auth-delegation`.
pub open spec fn delegation_domain() -> Seq<u8> {
    encode_utf8("ic-request-auth-delegation"@)
}

/// The canisters that a delegation is restricted to, if it is restricted.
pub open spec fn targets_of(delegation: Delegation) -> Option<Seq<Seq<u8>>> {
    match delegation.targets {
        Some(targets) => Some(rows(targets@)),
        None => None,
    }
}

/// What the fields of a delegation contribute to its hash: the public key
/// and the expiration, and the targets only if there are any.
pub open spec fn delegation_fields(
    pubkey: Seq<u8>,
    expiration: u64,
    targets: Option<Seq<Seq<u8>>>,
) -> Seq<Seq<u8>> {
    let fields = seq![
        field_hash("pubkey"@, sha256_of(pubkey)),
        field_hash("expiration"@, sha256_of(leb128(expiration as nat))),
    ];
    match targets {
        Some(targets) => fields.push(field_hash("targets"@, byte_strings_hash(targets))),
        None => fields,
    }
}

/// The hash that is signed for a delegation: the hash of the map of its
/// fields, in the domain of delegations.
pub open spec fn delegation_message_hash(
    pubkey: Seq<u8>,
    expiration: u64,
    targets: Option<Seq<Seq<u8>>>,
) -> Seq<u8> {
    domain_hash(delegation_domain(), map_hash_of(delegation_fields(pubkey, expiration, targets)))
}

/// The digests that go into the hash of a delegation have 32 bytes each:
/// those of the names and the values of its fields, and those of its targets.
/// Whoever has hashed the delegation knows this of it.
pub open spec fn delegation_digests_have_32_bytes(
    pubkey: Seq<u8>,
    expiration: u64,
    targets: Option<Seq<Seq<u8>>>,
) -> bool {
    &&& sha256_of(encode_utf8("pubkey"@)).len() == 32
    &&& sha256_of(pubkey).len() == 32
    &&& sha256_of(encode_utf8("expiration"@)).len() == 32
    &&& sha256_of(leb128(expiration as nat)).len() == 32
    &&& targets matches Some(targets) ==> {
        &&& sha256_of(encode_utf8("targets"@)).len() == 32
        &&& byte_strings_hash(targets).len() == 32
        &&& forall|i: int| 0 <= i < targets.len() ==> sha256_of(#[trigger] targets[i]).len() == 32
    }
}

/// The time `period` after `now`, or the last time there is if that is
/// sooner.
pub open spec fn time_after(now: u64, period: u64) -> u64 {
    if now + period > u64::MAX {
        u64::MAX
    } else {
        (now + period) as u64
    }
}

/// The domain separator is 26 bytes long.
pub proof fn lemma_delegation_domain_len()
    ensures
        delegation_domain().len() == 26,
{
    reveal_strlit("ic-request-auth-delegation");
    vstd::utf8::is_ascii_chars_encode_utf8("ic-request-auth-delegation"@);
}

/// The hash that is signed for a delegation. Equal delegations have equal
/// hashes.
pub fn delegation_signature_msg_hash(d: &Delegation) -> (hash: Hash32)
    ensures
        hash@ == delegation_message_hash(d.pubkey@, d.expiration, targets_of(*d)),
        delegation_digests_have_32_bytes(d.pubkey@, d.expiration, targets_of(*d)),
{
    let mut m: Vec<(&str, Value)> = Vec::new();
    m.push(("pubkey", Value::Bytes(d.pubkey.as_slice())));
    m.push(("expiration", Value::U64(d.expiration)));
    match &d.targets {
        Some(targets) => {
            let mut arr: Vec<Value> = Vec::with_capacity(targets.len());
            let mut i: usize = 0;
            while i < targets.len()
                invariant
                    i <= targets@.len(),
                    arr@.len() == i,
                    forall|k: int|
                        0 <= k < i ==> value_hash(#[trigger] arr@[k]) == sha256_of(targets@[k]@),
                decreases targets@.len() - i,
            {
                arr.push(Value::Bytes(targets[i].as_slice()));
                i = i + 1;
            }
            proof {
                let texts = rows(targets@);
                lemma_item_hashes_of_byte_strings(arr, texts, arr.len() as nat);
                assert(digests_of(texts).take(arr.len() as int) =~= digests_of(texts));
            }
            m.push(("targets", Value::Array(arr)));
        },
        None => {},
    }
    proof {
        assert(field_hashes(m@) =~= delegation_fields(d.pubkey@, d.expiration, targets_of(*d)));
        lemma_delegation_domain_len();
    }
    let map_hash = hash_of_map(&m);
    proof {
        assert(value_hash(m@[0].1) == sha256_of(d.pubkey@));
        assert(value_hash(m@[1].1) == sha256_of(leb128(d.expiration as nat)));
        if d.targets is Some {
            let texts = rows(d.targets->0@);
            assert(value_hash(m@[2].1) == byte_strings_hash(texts));
            assert(items_hash_to_32_bytes(m@[2].1));
            assert forall|i: int| 0 <= i < texts.len() implies sha256_of(#[trigger] texts[i]).len()
                == 32 by {
                let items = m@[2].1->Array_0;
                assert(value_hash(items[i]) == sha256_of(texts[i]));
            }
        }
    }
    hash_with_domain("ic-request-auth-delegation".as_bytes(), map_hash.as_slice())
}

/// The entry of the signature store for a delegation of `pk` until
/// `expiration`, prepared at `now` under `seed`.
pub open spec fn signature_entry(pk: Seq<u8>, seed: Seq<u8>, expiration: u64, now: u64) -> SigEntry {
    SigEntry {
        expires_at: time_after(now, SIGNATURE_EXPIRATION_PERIOD_NS),
        seed_hash: sha256_of(seed),
        msg_hash: delegation_message_hash(pk, expiration, None),
    }
}

/// The pair that is certified for a delegation of `session_key` until
/// `expiration`, for an anchor towards a frontend: the digest of their seed,
/// and the hash of the delegation.
pub open spec fn signature_pair(
    salt: Seq<u8>,
    anchor_number: u64,
    frontend: Seq<u8>,
    session_key: Seq<u8>,
    expiration: u64,
) -> (Seq<u8>, Seq<u8>) {
    (
        sha256_of(seed_of(salt, anchor_number, frontend)),
        delegation_message_hash(session_key, expiration, None),
    )
}

/// Certifies the signature of the delegation that lets `pk` act until
/// `expiration`, under `seed`, for one minute from `now`. If it was certified
/// before, its expiry is overwritten, so that a second call with the same
/// values leaves the store as the first did; every other entry stays as it
/// is.
pub fn add_signature(
    sigs: &mut SignatureMap,
    pk: PublicKey,
    seed: Hash32,
    expiration: Timestamp,
    now: Timestamp,
)
    requires
        old(sigs).wf(),
    ensures
        final(sigs).wf(),
        final(sigs).queue() == replaced(
            old(sigs).queue(),
            signature_entry(pk@, seed@, expiration, now),
        ),
        final(sigs).certified() == old(sigs).certified().insert(
            (sha256_of(seed@), delegation_message_hash(pk@, expiration, None)),
        ),
        final(sigs).queue().len() == if old(sigs).certified().contains(
            (sha256_of(seed@), delegation_message_hash(pk@, expiration, None)),
        ) {
            old(sigs).queue().len()
        } else {
            old(sigs).queue().len() + 1
        },
        delegation_digests_have_32_bytes(pk@, expiration, None),
{
    let msg_hash = delegation_signature_msg_hash(
        &Delegation { pubkey: pk, expiration, targets: None },
    );
    let expires_at = now.saturating_add(SIGNATURE_EXPIRATION_PERIOD_NS);
    sigs.put(seed.as_slice(), msg_hash, expires_at);
}

/// Removes a batch of expired signatures from the store, at most
/// `MAX_SIGS_TO_PRUNE` of them, and says whether it removed any: then the
/// root hash has changed and must be published again. Pruning rides on the
/// calls that create signatures, so that no call pays for a long backlog.
pub fn prune_expired_signatures(sigs: &mut SignatureMap, now: Timestamp) -> (pruned: bool)
    requires
        old(sigs).wf(),
    ensures
        final(sigs).wf(),
        pruned == (pruned_count(old(sigs).queue(), now, MAX_SIGS_TO_PRUNE) > 0),
        !pruned ==> final(sigs).root() == old(sigs).root(),
        final(sigs).queue() == old(sigs).queue().skip(
            pruned_count(old(sigs).queue(), now, MAX_SIGS_TO_PRUNE) as int,
        ),
        final(sigs).certified() == old(sigs).certified().difference(
            pairs_of(
                old(sigs).queue().take(
                    pruned_count(old(sigs).queue(), now, MAX_SIGS_TO_PRUNE) as int,
                ),
            ),
        ),
        old(sigs).queue().len() - final(sigs).queue().len() <= MAX_SIGS_TO_PRUNE,
{
    let num_pruned = sigs.prune_expired(now, MAX_SIGS_TO_PRUNE);
    num_pruned > 0
}

/// How often delegations were issued.
pub struct UsageMetrics {
    pub delegation_counter: u64,
}

/// Everything that issuing and redeeming delegations reads and changes. One
/// value of it belongs to one canister; an operation has it to itself for as
/// long as it runs.
pub struct DelegationState {
    /// The salt of this installation. It is set once, before the first
    /// delegation, and never changes.
    pub salt: Vec<u8>,
    /// The bytes of the principal of the canister that issues.
    pub canister_id: Vec<u8>,
    pub sigs: SignatureMap,
    pub usage_metrics: UsageMetrics,
    pub latest_delegation_origins: LatestDelegationOrigins,
    /// How many origins the registry may hold; `None` until it is configured.
    pub max_num_latest_delegation_origins: Option<u64>,
}

impl DelegationState {
    /// The salt and the canister id have lengths that their encodings can
    /// hold, and the store and the registry are well-formed.
    pub open spec fn wf(&self) -> bool {
        &&& self.salt@.len() <= MAX_COMPONENT_LEN
        &&& self.canister_id@.len() <= MAX_PRINCIPAL_LEN
        &&& self.sigs.wf()
        &&& self.latest_delegation_origins.wf()
    }

    /// The state of a canister that has issued nothing yet, or `None` if the
    /// salt is longer than 255 bytes or the canister id longer than 29.
    pub fn new(salt: Vec<u8>, canister_id: Vec<u8>) -> (state: Option<Self>)
        ensures
            state is Some <==> salt@.len() <= MAX_COMPONENT_LEN && canister_id@.len()
                <= MAX_PRINCIPAL_LEN,
            state matches Some(state) ==> {
                &&& state.wf()
                &&& state.salt == salt
                &&& state.canister_id == canister_id
                &&& state.sigs.queue().len() == 0
                &&& state.sigs.certified() == Set::<(Seq<u8>, Seq<u8>)>::empty()
                &&& state.usage_metrics.delegation_counter == 0
                &&& state.latest_delegation_origins@.len() == 0
                &&& state.max_num_latest_delegation_origins is None
            },
    {
        if salt.len() > MAX_COMPONENT_LEN || canister_id.len() > MAX_PRINCIPAL_LEN {
            return None;
        }
        Some(
            DelegationState {
                salt,
                canister_id,
                sigs: SignatureMap::new(),
                usage_metrics: UsageMetrics { delegation_counter: 0 },
                latest_delegation_origins: LatestDelegationOrigins::new(),
                max_num_latest_delegation_origins: None,
            },
        )
    }
}

/// When a delegation that is prepared at `now` expires: after the time that
/// the caller asks for, thirty minutes if it asks for none, and never after
/// more than thirty days.
pub open spec fn delegation_expiration(now: u64, max_time_to_live: Option<u64>) -> u64 {
    let asked = match max_time_to_live {
        Some(period) => period,
        None => DEFAULT_EXPIRATION_PERIOD_NS,
    };
    time_after(
        now,
        if asked <= MAX_EXPIRATION_PERIOD_NS {
            asked
        } else {
            MAX_EXPIRATION_PERIOD_NS
        },
    )
}

/// A delegation expires no sooner than it is prepared, and no later than
/// thirty days after, whatever time to live the caller asks for.
pub proof fn lemma_expiration_clamped(now: u64, max_time_to_live: Option<u64>)
    ensures
        now <= delegation_expiration(now, max_time_to_live) <= now + MAX_EXPIRATION_PERIOD_NS,
        max_time_to_live matches Some(period) && period >= MAX_EXPIRATION_PERIOD_NS
            ==> delegation_expiration(now, max_time_to_live) == time_after(
            now,
            MAX_EXPIRATION_PERIOD_NS,
        ),
{
}

/// Whether a delegation for `frontend` is entered in the registry of
/// origins: the request came in through one of the provider's own domains,
/// and the origin does not look like a development setup.
pub open spec fn is_recorded(frontend: Seq<char>, ii_domain: Option<IIDomain>) -> bool {
    ii_domain is Some && !is_dev_origin(encode_utf8(frontend))
}

/// The error that a frontend origin of more than 255 bytes is rejected with.
pub open spec fn too_long(frontend: Seq<char>) -> DelegationError {
    DelegationError::FrontendTooLong {
        length: encode_utf8(frontend).len() as usize,
        limit: FRONTEND_HOSTNAME_LIMIT,
    }
}

/// Counts one delegation, and enters its origin in the registry if it is to
/// be recorded.
fn delegation_bookkeeping(
    state: &mut DelegationState,
    frontend: FrontendHostname,
    ii_domain: &Option<IIDomain>,
    now: Timestamp,
)
    requires
        old(state).wf(),
        old(state).usage_metrics.delegation_counter < u64::MAX,
        is_recorded(frontend@, *ii_domain) ==> old(state).max_num_latest_delegation_origins is Some,
    ensures
        final(state).wf(),
        final(state).usage_metrics.delegation_counter == old(state).usage_metrics.delegation_counter
            + 1,
        final(state).latest_delegation_origins@ == if is_recorded(frontend@, *ii_domain) {
            recorded(
                old(state).latest_delegation_origins@,
                frontend@,
                now,
                old(state).max_num_latest_delegation_origins->0,
            )
        } else {
            old(state).latest_delegation_origins@
        },
        final(state).salt == old(state).salt,
        final(state).canister_id == old(state).canister_id,
        final(state).sigs == old(state).sigs,
        final(state).max_num_latest_delegation_origins == old(
            state,
        ).max_num_latest_delegation_origins,
{
    state.usage_metrics.delegation_counter = state.usage_metrics.delegation_counter + 1;
    if ii_domain.is_some() && !is_dev_frontend(&frontend) {
        let capacity = state.max_num_latest_delegation_origins.unwrap();
        update_latest_delegation_origins(
            &mut state.latest_delegation_origins,
            capacity,
            frontend,
            now,
        );
    }
}

/// Prepares a delegation that lets `session_key` act for `anchor_number`
/// towards `frontend`, at the time `now`.
///
/// Expired signatures are pruned, at most `MAX_SIGS_TO_PRUNE` of them; the
/// signature of the new delegation is certified for one minute; the
/// delegation is counted, and its origin recorded where it is to be. The
/// caller publishes the root hash of the signature store afterwards. The
/// result is the public key that stands for the anchor towards the frontend,
/// and the time at which the delegation expires.
///
/// A request is rejected, and nothing changes, if the frontend is longer
/// than 255 bytes, or if its origin would be recorded and the registry has
/// no capacity set.
pub fn prepare_delegation(
    state: &mut DelegationState,
    anchor_number: AnchorNumber,
    frontend: FrontendHostname,
    session_key: SessionKey,
    max_time_to_live: Option<u64>,
    ii_domain: &Option<IIDomain>,
    now: Timestamp,
) -> (prepared: Result<(UserKey, Timestamp), DelegationError>)
    requires
        old(state).wf(),
        old(state).usage_metrics.delegation_counter < u64::MAX,
    ensures
        final(state).wf(),
        encode_utf8(frontend@).len() > FRONTEND_HOSTNAME_LIMIT ==> prepared == Err::<
            (UserKey, Timestamp),
            DelegationError,
        >(too_long(frontend@)),
        encode_utf8(frontend@).len() <= FRONTEND_HOSTNAME_LIMIT && is_recorded(frontend@, *ii_domain)
            && old(state).max_num_latest_delegation_origins is None ==> prepared == Err::<
            (UserKey, Timestamp),
            DelegationError,
        >(DelegationError::OriginCapacityNotSet),
        prepared is Err ==> *final(state) == *old(state),
        prepared is Ok <==> encode_utf8(frontend@).len() <= FRONTEND_HOSTNAME_LIMIT && (is_recorded(
            frontend@,
            *ii_domain,
        ) ==> old(state).max_num_latest_delegation_origins is Some),
        prepared matches Ok((user_key, expiration)) ==> {
            let seed = seed_of(old(state).salt@, anchor_number, encode_utf8(frontend@));
            let pruned = pruned_count(old(state).sigs.queue(), now, MAX_SIGS_TO_PRUNE);
            &&& expiration == delegation_expiration(now, max_time_to_live)
            &&& user_key@ == canister_sig_key_der(old(state).canister_id@, seed)
            &&& final(state).sigs.queue() == replaced(
                old(state).sigs.queue().skip(pruned as int),
                signature_entry(session_key@, seed, expiration, now),
            )
            &&& final(state).sigs.certified() == old(state).sigs.certified().difference(
                pairs_of(old(state).sigs.queue().take(pruned as int)),
            ).insert(
                signature_pair(
                    old(state).salt@,
                    anchor_number,
                    encode_utf8(frontend@),
                    session_key@,
                    expiration,
                ),
            )
            &&& final(state).sigs.certified().contains(
                signature_pair(
                    old(state).salt@,
                    anchor_number,
                    encode_utf8(frontend@),
                    session_key@,
                    expiration,
                ),
            )
            &&& delegation_digests_have_32_bytes(session_key@, expiration, None)
            &&& pruned <= MAX_SIGS_TO_PRUNE
            &&& old(state).sigs.queue().len() - pruned <= final(state).sigs.queue().len()
                <= old(state).sigs.queue().len() - pruned + 1
            &&& !old(state).sigs.certified().contains(
                signature_pair(
                    old(state).salt@,
                    anchor_number,
                    encode_utf8(frontend@),
                    session_key@,
                    expiration,
                ),
            ) ==> final(state).sigs.queue().len() == old(state).sigs.queue().len() - pruned + 1
            &&& final(state).usage_metrics.delegation_counter == old(
                state,
            ).usage_metrics.delegation_counter + 1
            &&& final(state).latest_delegation_origins@ == if is_recorded(frontend@, *ii_domain) {
                recorded(
                    old(state).latest_delegation_origins@,
                    frontend@,
                    now,
                    old(state).max_num_latest_delegation_origins->0,
                )
            } else {
                old(state).latest_delegation_origins@
            }
            &&& final(state).salt == old(state).salt
            &&& final(state).canister_id == old(state).canister_id
            &&& final(state).max_num_latest_delegation_origins == old(
                state,
            ).max_num_latest_delegation_origins
        },
{
    match check_frontend_length(&frontend) {
        Err(e) => {
            return Err(e);
        },
        Ok(_) => {},
    }
    if ii_domain.is_some() && !is_dev_frontend(&frontend)
        && state.max_num_latest_delegation_origins.is_none() {
        return Err(DelegationError::OriginCapacityNotSet);
    }
    prune_expired_signatures(&mut state.sigs, now);
    proof {
        lemma_pruned_count_bounded(old(state).sigs.queue(), now, MAX_SIGS_TO_PRUNE);
    }

    let asked = match max_time_to_live {
        Some(period) => period,
        None => DEFAULT_EXPIRATION_PERIOD_NS,
    };
    let delta = if asked <= MAX_EXPIRATION_PERIOD_NS {
        asked
    } else {
        MAX_EXPIRATION_PERIOD_NS
    };
    let expiration = now.saturating_add(delta);
    let seed = calculate_seed(state.salt.as_slice(), anchor_number, frontend.as_str());

    add_signature(&mut state.sigs, session_key, seed, expiration, now);
    delegation_bookkeeping(state, frontend, ii_domain, now);

    let user_key = der_encode_canister_sig_key(
        state.canister_id.as_slice(),
        slice_to_vec(seed.as_slice()),
    );
    Ok((user_key, expiration))
}

/// Hands out the delegation that was prepared for `session_key` until
/// `expiration`, with the certified signature that the store gives for it, if
/// the signature is certified and a data certificate is at hand;
/// `NoSuchDelegation` otherwise, which is what a caller sees who asks too
/// early, too late, or with other values than the delegation was prepared
/// with. A frontend of more than 255 bytes is rejected.
pub fn get_delegation(
    state: &DelegationState,
    anchor_number: AnchorNumber,
    frontend: FrontendHostname,
    session_key: SessionKey,
    expiration: Timestamp,
    certificate: Option<&[u8]>,
    certified_assets_root_hash: Hash32,
) -> (response: Result<GetDelegationResponse, DelegationError>)
    requires
        state.wf(),
    ensures
        match response {
            Err(e) => encode_utf8(frontend@).len() > FRONTEND_HOSTNAME_LIMIT && e == too_long(
                frontend@,
            ),
            Ok(GetDelegationResponse::SignedDelegation(signed)) => {
                &&& encode_utf8(frontend@).len() <= FRONTEND_HOSTNAME_LIMIT
                &&& certificate is Some
                &&& state.sigs.certified().contains(
                    signature_pair(
                        state.salt@,
                        anchor_number,
                        encode_utf8(frontend@),
                        session_key@,
                        expiration,
                    ),
                )
                &&& delegation_digests_have_32_bytes(session_key@, expiration, None)
                &&& signed.delegation.pubkey == session_key
                &&& signed.delegation.expiration == expiration
                &&& signed.delegation.targets is None
                &&& signed.signature@ == state.sigs.signature_of(
                    sha256_of(seed_of(state.salt@, anchor_number, encode_utf8(frontend@))),
                    delegation_message_hash(session_key@, expiration, None),
                    certificate->0@,
                    Some(certified_assets_root_hash@),
                )
                &&& self_describing_tag().is_prefix_of(signed.signature@)
            },
            Ok(GetDelegationResponse::NoSuchDelegation) => {
                &&& encode_utf8(frontend@).len() <= FRONTEND_HOSTNAME_LIMIT
                &&& delegation_digests_have_32_bytes(session_key@, expiration, None)
                &&& !(certificate is Some && state.sigs.certified().contains(
                    signature_pair(
                        state.salt@,
                        anchor_number,
                        encode_utf8(frontend@),
                        session_key@,
                        expiration,
                    ),
                ))
            },
        },
{
    match check_frontend_length(&frontend) {
        Err(e) => {
            return Err(e);
        },
        Ok(_) => {},
    }
    let delegation = Delegation { pubkey: session_key, expiration, targets: None };
    let message_hash = delegation_signature_msg_hash(&delegation);
    let seed = calculate_seed(state.salt.as_slice(), anchor_number, frontend.as_str());
    match state.sigs.get_signature_as_cbor(
        seed.as_slice(),
        message_hash,
        certificate,
        Some(certified_assets_root_hash),
    ) {
        Ok(signature) => Ok(
            GetDelegationResponse::SignedDelegation(SignedDelegation { delegation, signature }),
        ),
        Err(_) => Ok(GetDelegationResponse::NoSuchDelegation),
    }
}

/// The principal that stands for `anchor_number` towards `frontend`: the
/// self-authenticating principal of the public key that `prepare_delegation`
/// returns for them. A frontend of more than 255 bytes is rejected.
pub fn get_principal(
    state: &DelegationState,
    anchor_number: AnchorNumber,
    frontend: FrontendHostname,
) -> (principal: Result<Vec<u8>, DelegationError>)
    requires
        state.wf(),
    ensures
        match principal {
            Err(e) => encode_utf8(frontend@).len() > FRONTEND_HOSTNAME_LIMIT && e == too_long(
                frontend@,
            ),
            Ok(bytes) => {
                &&& encode_utf8(frontend@).len() <= FRONTEND_HOSTNAME_LIMIT
                &&& bytes@ == self_authenticating_id(
                    canister_sig_key_der(
                        state.canister_id@,
                        seed_of(state.salt@, anchor_number, encode_utf8(frontend@)),
                    ),
                )
            },
        },
{
    match check_frontend_length(&frontend) {
        Err(e) => {
            return Err(e);
        },
        Ok(_) => {},
    }
    let seed = calculate_seed(state.salt.as_slice(), anchor_number, frontend.as_str());
    let public_key = der_encode_canister_sig_key(
        state.canister_id.as_slice(),
        slice_to_vec(seed.as_slice()),
    );
    Ok(self_authenticating(public_key.as_slice()))
}

} // verus!
