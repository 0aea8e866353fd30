use ic_certification::{fork_hash, labeled_hash};
use ii_delegation::delegation::{
    add_signature, delegation_signature_msg_hash, get_delegation, get_principal,
    prepare_delegation, prune_expired_signatures, DelegationState, DEFAULT_EXPIRATION_PERIOD_NS,
    MAX_EXPIRATION_PERIOD_NS, MAX_SIGS_TO_PRUNE, MINUTE_NS, SIGNATURE_EXPIRATION_PERIOD_NS,
};
use ii_delegation::origins::DAY_NS;
use ii_delegation::seed::calculate_seed;
use ii_delegation::signature_map::SignatureMap;
use ii_delegation::types::{
    Delegation, DelegationError, GetDelegationResponse, IIDomain, SignedDelegation,
};

const SALT: [u8; 32] = [7u8; 32];
const CANISTER: [u8; 10] = [0, 0, 0, 0, 0, 0, 0, 7, 1, 1];
const ASSETS: [u8; 32] = [5u8; 32];
const NOW: u64 = 1_700_000_000_000_000_000;

fn new_state() -> DelegationState {
    let mut state = DelegationState::new(SALT.to_vec(), CANISTER.to_vec()).unwrap();
    state.max_num_latest_delegation_origins = Some(1000);
    state
}

fn prepare(
    state: &mut DelegationState,
    anchor: u64,
    origin: &str,
    key: &[u8],
    ttl: Option<u64>,
    now: u64,
) -> (Vec<u8>, u64) {
    prepare_delegation(
        state,
        anchor,
        origin.to_string(),
        key.to_vec(),
        ttl,
        &Some(IIDomain::Ic0App),
        now,
    )
    .unwrap()
}

fn redeem(
    state: &DelegationState,
    anchor: u64,
    origin: &str,
    key: &[u8],
    expiration: u64,
) -> Option<SignedDelegation> {
    let certificate = b"certificate".to_vec();
    match get_delegation(
        state,
        anchor,
        origin.to_string(),
        key.to_vec(),
        expiration,
        Some(&certificate),
        ASSETS,
    )
    .unwrap()
    {
        GetDelegationResponse::SignedDelegation(signed) => Some(signed),
        GetDelegationResponse::NoSuchDelegation => None,
    }
}

#[test]
fn the_periods_are_thirty_minutes_thirty_days_and_one_minute() {
    assert_eq!(MINUTE_NS, 60_000_000_000);
    assert_eq!(DEFAULT_EXPIRATION_PERIOD_NS, 1_800_000_000_000);
    assert_eq!(MAX_EXPIRATION_PERIOD_NS, 2_592_000_000_000_000);
    assert_eq!(SIGNATURE_EXPIRATION_PERIOD_NS, 60_000_000_000);
    assert_eq!(MAX_SIGS_TO_PRUNE, 50);
}

#[test]
fn a_state_needs_a_salt_and_an_id_that_fit() {
    assert!(DelegationState::new(vec![0; 255], vec![0; 29]).is_some());
    assert!(DelegationState::new(Vec::new(), Vec::new()).is_some());
    assert!(DelegationState::new(vec![0; 256], vec![0; 29]).is_none());
    assert!(DelegationState::new(vec![0; 32], vec![0; 30]).is_none());
    let state = DelegationState::new(SALT.to_vec(), CANISTER.to_vec()).unwrap();
    assert_eq!(state.salt, SALT.to_vec());
    assert_eq!(state.canister_id, CANISTER.to_vec());
    assert_eq!(state.usage_metrics.delegation_counter, 0);
    assert_eq!(state.max_num_latest_delegation_origins, None);
    assert!(state.sigs.is_empty());
    assert_eq!(state.latest_delegation_origins.len(), 0);
}

#[test]
fn a_prepared_delegation_can_be_redeemed() {
    let mut state = new_state();
    let key = b"session key".to_vec();
    let (_, expiration) = prepare(&mut state, 42, "https://example.com", &key, None, NOW);
    let signed = redeem(&state, 42, "https://example.com", &key, expiration).unwrap();
    assert_eq!(signed.delegation.pubkey, key);
    assert_eq!(signed.delegation.expiration, expiration);
    assert_eq!(signed.delegation.targets, None);
    assert_eq!(&signed.signature[0..3], &[0xd9, 0xd9, 0xf7]);
    assert!(ic_canister_sig_creation::parse_canister_sig_cbor(&signed.signature).is_ok());
}

#[test]
fn the_signature_leads_to_the_published_root() {
    let mut state = new_state();
    let key = b"session key".to_vec();
    let (_, expiration) = prepare(&mut state, 42, "https://example.com", &key, None, NOW);
    let signed = redeem(&state, 42, "https://example.com", &key, expiration).unwrap();
    let value: serde_cbor::Value = serde_cbor::from_slice(&signed.signature).unwrap();
    let mut fields = match value {
        serde_cbor::Value::Map(fields) => fields,
        _ => panic!("the signature is no map"),
    };
    let tree: ic_certification::HashTree = serde_cbor::value::from_value(
        fields.remove(&serde_cbor::Value::Text("tree".to_string())).unwrap(),
    )
    .unwrap();
    assert_eq!(tree.digest(), fork_hash(&ASSETS, &labeled_hash(b"sig", &state.sigs.root_hash())));
}

#[test]
fn redeeming_with_other_values_finds_nothing() {
    let mut state = new_state();
    let key = b"session key".to_vec();
    let (_, expiration) = prepare(&mut state, 42, "https://example.com", &key, None, NOW);
    assert!(redeem(&state, 42, "https://example.com", b"another key", expiration).is_none());
    assert!(redeem(&state, 42, "https://example.org", &key, expiration).is_none());
    assert!(redeem(&state, 42, "https://example.com", &key, expiration + 1).is_none());
    assert!(redeem(&state, 43, "https://example.com", &key, expiration).is_none());
    assert!(redeem(&state, 42, "https://example.com", &key, expiration).is_some());
}

#[test]
fn redeeming_before_preparing_finds_nothing() {
    let state = new_state();
    assert!(redeem(&state, 42, "https://example.com", b"key", NOW).is_none());
}

#[test]
fn redeeming_without_a_certificate_finds_nothing() {
    let mut state = new_state();
    let (_, expiration) = prepare(&mut state, 42, "https://example.com", b"key", None, NOW);
    let response = get_delegation(
        &state,
        42,
        "https://example.com".to_string(),
        b"key".to_vec(),
        expiration,
        None,
        ASSETS,
    );
    assert!(matches!(response, Ok(GetDelegationResponse::NoSuchDelegation)));
}

#[test]
fn a_signature_can_be_redeemed_until_it_is_pruned() {
    let mut state = new_state();
    let (_, expiration) = prepare(&mut state, 42, "https://example.com", b"key", None, NOW);
    assert!(!prune_expired_signatures(&mut state.sigs, NOW + MINUTE_NS - 1));
    assert!(redeem(&state, 42, "https://example.com", b"key", expiration).is_some());
    assert!(prune_expired_signatures(&mut state.sigs, NOW + MINUTE_NS));
    assert!(redeem(&state, 42, "https://example.com", b"key", expiration).is_none());
    assert!(!prune_expired_signatures(&mut state.sigs, NOW + MINUTE_NS));
}

#[test]
fn the_default_time_to_live_is_thirty_minutes() {
    let mut state = new_state();
    let (_, expiration) = prepare(&mut state, 42, "https://example.com", b"key", None, NOW);
    assert_eq!(expiration, NOW + 30 * MINUTE_NS);
}

#[test]
fn a_shorter_time_to_live_is_taken_as_it_is() {
    let mut state = new_state();
    let (_, expiration) = prepare(&mut state, 42, "https://example.com", b"key", Some(5), NOW);
    assert_eq!(expiration, NOW + 5);
    let (_, expiration) = prepare(&mut state, 42, "https://example.com", b"key", Some(0), NOW);
    assert_eq!(expiration, NOW);
    let (_, expiration) =
        prepare(&mut state, 42, "https://example.com", b"key", Some(30 * DAY_NS), NOW);
    assert_eq!(expiration, NOW + 30 * DAY_NS);
}

#[test]
fn a_time_to_live_of_1000_days_is_clamped_to_thirty_days() {
    let mut state = new_state();
    let (_, expiration) =
        prepare(&mut state, 42, "https://example.com", b"key", Some(1000 * DAY_NS), NOW);
    assert_eq!(expiration, NOW + 30 * DAY_NS);
    let (_, expiration) =
        prepare(&mut state, 42, "https://example.com", b"key", Some(u64::MAX), NOW);
    assert_eq!(expiration, NOW + 30 * DAY_NS);
}

#[test]
fn the_expiration_saturates_at_the_end_of_time() {
    let mut state = new_state();
    let (_, expiration) =
        prepare(&mut state, 42, "https://example.com", b"key", None, u64::MAX - 5);
    assert_eq!(expiration, u64::MAX);
    assert!(redeem(&state, 42, "https://example.com", b"key", u64::MAX).is_some());
}

#[test]
fn the_user_key_is_the_der_encoded_canister_signature_key_of_the_seed() {
    let mut state = new_state();
    let (user_key, _) = prepare(&mut state, 42, "https://example.com", b"key", None, NOW);
    let seed = calculate_seed(&SALT, 42, "https://example.com");
    let mut expected: Vec<u8> = vec![0x30, 17 + 43];
    expected.extend_from_slice(&[
        0x30, 0x0c, 0x06, 0x0a, 0x2b, 0x06, 0x01, 0x04, 0x01, 0x83, 0xb8, 0x43, 0x01, 0x02,
    ]);
    expected.extend_from_slice(&[0x03, 1 + 43, 0x00]);
    expected.push(10);
    expected.extend_from_slice(&CANISTER);
    expected.extend_from_slice(&seed);
    assert_eq!(user_key, expected);
    let parsed = ic_canister_sig_creation::CanisterSigPublicKey::try_from(user_key.as_slice())
        .unwrap();
    assert_eq!(parsed.canister_id.as_slice(), &CANISTER);
    assert_eq!(parsed.seed, seed.to_vec());
}

#[test]
fn the_user_key_depends_on_anchor_and_origin_only() {
    let mut state = new_state();
    let (one, _) = prepare(&mut state, 42, "https://example.com", b"key", None, NOW);
    let (again, _) = prepare(&mut state, 42, "https://example.com", b"other", Some(9), NOW + 1);
    let (other_anchor, _) = prepare(&mut state, 43, "https://example.com", b"key", None, NOW);
    let (other_origin, _) = prepare(&mut state, 42, "https://example.org", b"key", None, NOW);
    assert_eq!(one, again);
    assert_ne!(one, other_anchor);
    assert_ne!(one, other_origin);
}

#[test]
fn the_principal_is_the_self_authenticating_principal_of_the_user_key() {
    let mut state = new_state();
    let (user_key, _) = prepare(&mut state, 42, "https://example.com", b"key", None, NOW);
    let principal = get_principal(&state, 42, "https://example.com".to_string()).unwrap();
    assert_eq!(principal, candid::Principal::self_authenticating(&user_key).as_slice().to_vec());
    assert_eq!(principal.len(), 29);
    assert_eq!(principal[28], 2);
    assert_ne!(principal, user_key);
    assert_ne!(principal, get_principal(&state, 43, "https://example.com".to_string()).unwrap());
}

#[test]
fn issuing_prunes_at_most_fifty_expired_signatures() {
    let mut state = new_state();
    for i in 0..1000u32 {
        prepare(&mut state, 42, "https://example.com", &i.to_be_bytes(), None, 0);
    }
    assert_eq!(state.sigs.len(), 1000);
    let later = 10 * MINUTE_NS;
    prepare(&mut state, 42, "https://example.com", b"new", None, later);
    assert_eq!(state.sigs.len(), 1000 - 50 + 1);
    let mut calls = 1;
    while state.sigs.len() > 1 {
        prepare(&mut state, 42, "https://example.com", b"new", None, later);
        calls += 1;
        assert_eq!(state.sigs.len(), 1000 - 50 * calls + 1);
    }
    assert_eq!(calls, 20);
    assert!(redeem(&state, 42, "https://example.com", b"new", later + 30 * MINUTE_NS).is_some());
}

#[test]
fn preparing_the_same_delegation_twice_keeps_one_signature() {
    let mut state = new_state();
    let (_, expiration) = prepare(&mut state, 42, "https://example.com", b"key", None, NOW);
    let root = state.sigs.root_hash();
    let (_, again) = prepare(&mut state, 42, "https://example.com", b"key", None, NOW);
    assert_eq!(expiration, again);
    assert_eq!(state.sigs.len(), 1);
    assert_eq!(state.sigs.root_hash(), root);
    assert_eq!(state.usage_metrics.delegation_counter, 2);
    assert!(redeem(&state, 42, "https://example.com", b"key", expiration).is_some());
}

#[test]
fn preparing_a_delegation_again_renews_its_signature() {
    let mut state = new_state();
    let expiration = NOW + 40 * MINUTE_NS;
    prepare(&mut state, 42, "https://example.com", b"key", Some(40 * MINUTE_NS), NOW);
    let half = MINUTE_NS / 2;
    let rest = 40 * MINUTE_NS - half;
    prepare(&mut state, 42, "https://example.com", b"key", Some(rest), NOW + half);
    assert_eq!(state.sigs.len(), 1);
    assert!(!prune_expired_signatures(&mut state.sigs, NOW + MINUTE_NS + 10));
    assert!(redeem(&state, 42, "https://example.com", b"key", expiration).is_some());
    assert!(prune_expired_signatures(&mut state.sigs, NOW + half + MINUTE_NS));
    assert!(redeem(&state, 42, "https://example.com", b"key", expiration).is_none());
}

#[test]
fn redeeming_twice_gives_the_same_response() {
    let mut state = new_state();
    let (_, expiration) = prepare(&mut state, 42, "https://example.com", b"key", None, NOW);
    prepare(&mut state, 43, "https://example.com", b"key", None, NOW);
    let root = state.sigs.root_hash();
    let one = redeem(&state, 42, "https://example.com", b"key", expiration).unwrap();
    let two = redeem(&state, 42, "https://example.com", b"key", expiration).unwrap();
    assert_eq!(one.signature, two.signature);
    assert_eq!(one.delegation.pubkey, two.delegation.pubkey);
    assert_eq!(state.sigs.root_hash(), root);
    assert_eq!(state.sigs.len(), 2);
    assert_eq!(state.usage_metrics.delegation_counter, 2);
    let signature = state
        .sigs
        .get_signature_as_cbor(
            &calculate_seed(&SALT, 42, "https://example.com"),
            delegation_signature_msg_hash(&one.delegation),
            Some(b"certificate"),
            Some(ASSETS),
        )
        .unwrap();
    assert_eq!(one.signature, signature);
}

#[test]
fn pruning_leaves_what_has_not_expired() {
    let mut state = new_state();
    let (_, old_expiration) = prepare(&mut state, 1, "https://example.com", b"old", None, NOW);
    let (_, new_expiration) =
        prepare(&mut state, 2, "https://example.com", b"new", None, NOW + MINUTE_NS - 1);
    assert_eq!(state.sigs.len(), 2);
    prepare(&mut state, 3, "https://example.com", b"third", None, NOW + MINUTE_NS);
    assert_eq!(state.sigs.len(), 2);
    assert!(redeem(&state, 1, "https://example.com", b"old", old_expiration).is_none());
    assert!(redeem(&state, 2, "https://example.com", b"new", new_expiration).is_some());
}

#[test]
fn every_delegation_is_counted() {
    let mut state = new_state();
    prepare(&mut state, 42, "https://example.com", b"key", None, NOW);
    prepare(&mut state, 42, "http://localhost", b"key", None, NOW);
    prepare_delegation(
        &mut state,
        42,
        "https://example.com".to_string(),
        b"key".to_vec(),
        None,
        &None,
        NOW,
    )
    .unwrap();
    assert_eq!(state.usage_metrics.delegation_counter, 3);
}

#[test]
fn production_origins_are_recorded() {
    let mut state = new_state();
    prepare(&mut state, 42, "https://example.com", b"key", None, NOW);
    prepare(&mut state, 43, "https://example.org", b"key", None, NOW + 1);
    prepare(&mut state, 44, "https://example.com", b"key", None, NOW + 2);
    assert_eq!(
        state.latest_delegation_origins.entries(),
        vec![
            ("https://example.com".to_string(), NOW + 2),
            ("https://example.org".to_string(), NOW + 1)
        ]
    );
}

#[test]
fn dev_origins_are_not_recorded() {
    let mut state = new_state();
    prepare(&mut state, 42, "http://example.com", b"key", None, NOW);
    prepare(&mut state, 42, "https://localhost:8080", b"key", None, NOW);
    prepare(&mut state, 42, "https://127.0.0.1:4943", b"key", None, NOW);
    assert_eq!(state.latest_delegation_origins.len(), 0);
    assert_eq!(state.usage_metrics.delegation_counter, 3);
}

#[test]
fn origins_are_not_recorded_without_a_domain() {
    let mut state = DelegationState::new(SALT.to_vec(), CANISTER.to_vec()).unwrap();
    let prepared = prepare_delegation(
        &mut state,
        42,
        "https://example.com".to_string(),
        b"key".to_vec(),
        None,
        &None,
        NOW,
    );
    assert!(prepared.is_ok());
    assert_eq!(state.latest_delegation_origins.len(), 0);
}

#[test]
fn the_registry_of_origins_respects_its_capacity() {
    let mut state = new_state();
    state.max_num_latest_delegation_origins = Some(2);
    prepare(&mut state, 42, "https://one.com", b"key", None, NOW);
    prepare(&mut state, 42, "https://two.com", b"key", None, NOW + 1);
    prepare(&mut state, 42, "https://three.com", b"key", None, NOW + 2);
    assert_eq!(
        state.latest_delegation_origins.entries(),
        vec![("https://two.com".to_string(), NOW + 1), ("https://three.com".to_string(), NOW + 2)]
    );
}

#[test]
fn recording_without_a_capacity_is_rejected_and_changes_nothing() {
    let mut state = DelegationState::new(SALT.to_vec(), CANISTER.to_vec()).unwrap();
    let root = state.sigs.root_hash();
    let prepared = prepare_delegation(
        &mut state,
        42,
        "https://example.com".to_string(),
        b"key".to_vec(),
        None,
        &Some(IIDomain::InternetComputerOrg),
        NOW,
    );
    assert_eq!(prepared, Err(DelegationError::OriginCapacityNotSet));
    assert_eq!(state.usage_metrics.delegation_counter, 0);
    assert_eq!(state.sigs.len(), 0);
    assert_eq!(state.sigs.root_hash(), root);
    let dev = prepare_delegation(
        &mut state,
        42,
        "http://example.com".to_string(),
        b"key".to_vec(),
        None,
        &Some(IIDomain::InternetComputerOrg),
        NOW,
    );
    assert!(dev.is_ok());
}

#[test]
fn a_frontend_of_256_bytes_is_rejected_and_changes_nothing() {
    let mut state = new_state();
    prepare(&mut state, 42, "https://example.com", b"key", None, 0);
    let root = state.sigs.root_hash();
    let long = "a".repeat(256);
    let too_long = DelegationError::FrontendTooLong { length: 256, limit: 255 };
    let prepared = prepare_delegation(
        &mut state,
        42,
        long.clone(),
        b"key".to_vec(),
        None,
        &Some(IIDomain::Ic0App),
        10 * MINUTE_NS,
    );
    assert_eq!(prepared, Err(too_long));
    assert_eq!(state.sigs.len(), 1);
    assert_eq!(state.sigs.root_hash(), root);
    assert_eq!(state.usage_metrics.delegation_counter, 1);
    assert_eq!(state.latest_delegation_origins.len(), 1);
    let certificate = b"certificate".to_vec();
    let redeemed =
        get_delegation(&state, 42, long.clone(), b"key".to_vec(), 5, Some(&certificate), ASSETS);
    assert!(matches!(redeemed, Err(e) if e == too_long));
    assert_eq!(get_principal(&state, 42, long), Err(too_long));
}

#[test]
fn a_frontend_of_255_bytes_is_served() {
    let mut state = new_state();
    let origin = format!("https://{}", "a".repeat(247));
    assert_eq!(origin.len(), 255);
    let (_, expiration) = prepare(&mut state, 42, &origin, b"key", None, NOW);
    assert!(redeem(&state, 42, &origin, b"key", expiration).is_some());
    assert!(get_principal(&state, 42, origin).is_ok());
}

#[test]
fn add_signature_certifies_the_hash_of_the_delegation_for_one_minute() {
    let mut sigs = SignatureMap::new();
    let seed = [3u8; 32];
    add_signature(&mut sigs, b"key".to_vec(), seed, 1234, NOW);
    let delegation = Delegation { pubkey: b"key".to_vec(), expiration: 1234, targets: None };
    let hash = delegation_signature_msg_hash(&delegation);
    assert!(sigs.contains(&seed, hash));
    assert_eq!(sigs.prune_expired(NOW + MINUTE_NS - 1, 10), 0);
    assert_eq!(sigs.prune_expired(NOW + MINUTE_NS, 10), 1);
    add_signature(&mut sigs, b"key".to_vec(), seed, 1234, u64::MAX - 1);
    assert_eq!(sigs.prune_expired(u64::MAX - 1, 10), 0);
    assert_eq!(sigs.prune_expired(u64::MAX, 10), 1);
}

#[test]
fn a_second_identical_add_signature_leaves_the_store_as_the_first_did() {
    let mut sigs = SignatureMap::new();
    add_signature(&mut sigs, b"other".to_vec(), [4u8; 32], 99, NOW);
    add_signature(&mut sigs, b"key".to_vec(), [3u8; 32], 1234, NOW);
    let root = sigs.root_hash();
    add_signature(&mut sigs, b"key".to_vec(), [3u8; 32], 1234, NOW);
    assert_eq!(sigs.len(), 2);
    assert_eq!(sigs.root_hash(), root);
    assert_eq!(sigs.prune_expired(NOW + MINUTE_NS, 10), 2);
    assert!(sigs.is_empty());
}
