use ic_certification::{fork_hash, labeled_hash, HashTree};
use ii_delegation::signature_map::{CanisterSigError, SignatureMap};
use sha2::{Digest, Sha256};

fn message(n: u8) -> [u8; 32] {
    [n; 32]
}

fn tree_of(signature: &[u8]) -> (Vec<u8>, HashTree) {
    assert_eq!(&signature[0..3], &[0xd9, 0xd9, 0xf7]);
    let value: serde_cbor::Value = serde_cbor::from_slice(signature).unwrap();
    let mut fields = match value {
        serde_cbor::Value::Map(fields) => fields,
        _ => panic!("the signature is no map"),
    };
    assert_eq!(fields.len(), 2);
    let certificate = match fields.remove(&serde_cbor::Value::Text("certificate".to_string())) {
        Some(serde_cbor::Value::Bytes(bytes)) => bytes,
        _ => panic!("no certificate"),
    };
    let tree = fields.remove(&serde_cbor::Value::Text("tree".to_string())).unwrap();
    (certificate, serde_cbor::value::from_value(tree).unwrap())
}

#[test]
fn a_new_store_is_empty() {
    let sigs = SignatureMap::new();
    assert_eq!(sigs.len(), 0);
    assert!(sigs.is_empty());
    assert!(!sigs.contains(b"seed", message(1)));
    assert_eq!(sigs.root_hash(), ic_certification::empty().digest());
}

#[test]
fn put_certifies_a_pair() {
    let mut sigs = SignatureMap::new();
    sigs.put(b"seed", message(1), 100);
    assert_eq!(sigs.len(), 1);
    assert!(!sigs.is_empty());
    assert!(sigs.contains(b"seed", message(1)));
    assert!(!sigs.contains(b"seed", message(2)));
    assert!(!sigs.contains(b"other", message(1)));
}

#[test]
fn put_changes_the_root_hash_and_delete_changes_it_back() {
    let mut sigs = SignatureMap::new();
    let empty = sigs.root_hash();
    sigs.put(b"seed", message(1), 100);
    let one = sigs.root_hash();
    assert_ne!(empty, one);
    let seed_hash: [u8; 32] = Sha256::digest(b"seed").into();
    let leaf = ic_certification::leaf_hash(b"");
    assert_eq!(one, labeled_hash(&seed_hash, &labeled_hash(&message(1), &leaf)));
    sigs.delete(seed_hash, message(1));
    assert_eq!(sigs.root_hash(), empty);
    assert!(!sigs.contains(b"seed", message(1)));
    assert_eq!(sigs.len(), 0);
    assert_eq!(sigs.prune_expired(u64::MAX, 10), 0);
}

#[test]
fn delete_takes_the_hash_of_the_seed() {
    let mut sigs = SignatureMap::new();
    sigs.put(b"seed", message(1), 100);
    sigs.put(b"seed", message(2), 100);
    let mut not_the_hash = [0u8; 32];
    not_the_hash[..4].copy_from_slice(b"seed");
    sigs.delete(not_the_hash, message(1));
    assert!(sigs.contains(b"seed", message(1)));
    sigs.delete(Sha256::digest(b"seed").into(), message(1));
    assert!(!sigs.contains(b"seed", message(1)));
    assert!(sigs.contains(b"seed", message(2)));
}

#[test]
fn prune_removes_what_has_expired() {
    let mut sigs = SignatureMap::new();
    sigs.put(b"a", message(1), 100);
    sigs.put(b"b", message(2), 200);
    sigs.put(b"c", message(3), 300);
    assert_eq!(sigs.prune_expired(99, 10), 0);
    assert_eq!(sigs.len(), 3);
    assert_eq!(sigs.prune_expired(200, 10), 2);
    assert_eq!(sigs.len(), 1);
    assert!(!sigs.contains(b"a", message(1)));
    assert!(!sigs.contains(b"b", message(2)));
    assert!(sigs.contains(b"c", message(3)));
    assert_eq!(sigs.prune_expired(200, 10), 0);
    assert_eq!(sigs.prune_expired(u64::MAX, 10), 1);
    assert!(sigs.is_empty());
    assert_eq!(sigs.root_hash(), ic_certification::empty().digest());
}

#[test]
fn prune_of_an_empty_store_removes_nothing() {
    let mut sigs = SignatureMap::new();
    assert_eq!(sigs.prune_expired(1_000, 50), 0);
    assert_eq!(sigs.prune_expired(1_000, 0), 0);
}

#[test]
fn a_signature_expires_at_its_expiry_time() {
    let mut sigs = SignatureMap::new();
    sigs.put(b"a", message(1), 100);
    assert_eq!(sigs.prune_expired(99, 10), 0);
    assert_eq!(sigs.prune_expired(100, 10), 1);
}

#[test]
fn prune_removes_no_more_than_it_may() {
    let mut sigs = SignatureMap::new();
    for i in 0..10u8 {
        sigs.put(&[i], message(i), 100 + i as u64);
    }
    assert_eq!(sigs.prune_expired(1_000, 3), 3);
    assert_eq!(sigs.len(), 7);
    assert_eq!(sigs.prune_expired(1_000, 0), 0);
    assert_eq!(sigs.len(), 7);
    assert_eq!(sigs.prune_expired(1_000, 100), 7);
    assert!(sigs.is_empty());
}

#[test]
fn prune_removes_the_soonest_to_expire_first() {
    let mut sigs = SignatureMap::new();
    sigs.put(b"late", message(1), 300);
    sigs.put(b"early", message(2), 100);
    sigs.put(b"middle", message(3), 200);
    assert_eq!(sigs.prune_expired(1_000, 1), 1);
    assert!(!sigs.contains(b"early", message(2)));
    assert!(sigs.contains(b"middle", message(3)));
    assert!(sigs.contains(b"late", message(1)));
    assert_eq!(sigs.prune_expired(1_000, 1), 1);
    assert!(!sigs.contains(b"middle", message(3)));
    assert!(sigs.contains(b"late", message(1)));
}

#[test]
fn of_two_that_expire_together_the_first_put_goes_first() {
    let mut sigs = SignatureMap::new();
    sigs.put(b"first", message(1), 100);
    sigs.put(b"second", message(2), 100);
    assert_eq!(sigs.prune_expired(100, 1), 1);
    assert!(!sigs.contains(b"first", message(1)));
    assert!(sigs.contains(b"second", message(2)));
}

#[test]
fn putting_a_pair_again_overwrites_its_expiry() {
    let mut sigs = SignatureMap::new();
    sigs.put(b"seed", message(1), 100);
    sigs.put(b"seed", message(1), 500);
    assert_eq!(sigs.len(), 1);
    assert_eq!(sigs.prune_expired(100, 10), 0);
    assert_eq!(sigs.prune_expired(499, 10), 0);
    assert!(sigs.contains(b"seed", message(1)));
    assert_eq!(sigs.prune_expired(500, 10), 1);
    assert!(!sigs.contains(b"seed", message(1)));
    assert!(sigs.is_empty());
}

#[test]
fn a_pair_put_at_0_and_again_at_30_seconds_outlives_a_prune_at_70_seconds() {
    let second: u64 = 1_000_000_000;
    let mut sigs = SignatureMap::new();
    sigs.put(b"seed", message(1), 60 * second);
    sigs.put(b"seed", message(1), 90 * second);
    assert_eq!(sigs.prune_expired(70 * second, 50), 0);
    assert!(sigs.contains(b"seed", message(1)));
    assert_eq!(sigs.prune_expired(90 * second, 50), 1);
    assert!(!sigs.contains(b"seed", message(1)));
}

#[test]
fn putting_a_pair_again_can_move_its_expiry_forward() {
    let mut sigs = SignatureMap::new();
    sigs.put(b"a", message(1), 300);
    sigs.put(b"b", message(2), 200);
    sigs.put(b"a", message(1), 100);
    assert_eq!(sigs.len(), 2);
    assert_eq!(sigs.prune_expired(150, 10), 1);
    assert!(!sigs.contains(b"a", message(1)));
    assert!(sigs.contains(b"b", message(2)));
}

#[test]
fn putting_the_same_entry_twice_is_putting_it_once() {
    let mut once = SignatureMap::new();
    let mut twice = SignatureMap::new();
    for i in 0..5u8 {
        once.put(&[i], message(i), 100 + 10 * i as u64);
        twice.put(&[i], message(i), 100 + 10 * i as u64);
    }
    once.put(&[2], message(2), 125);
    twice.put(&[2], message(2), 125);
    twice.put(&[2], message(2), 125);
    assert_eq!(once.len(), twice.len());
    assert_eq!(once.root_hash(), twice.root_hash());
    for now in [99u64, 100, 110, 120, 125, 130, 140] {
        assert_eq!(once.prune_expired(now, 1), twice.prune_expired(now, 1));
        for i in 0..5u8 {
            assert_eq!(once.contains(&[i], message(i)), twice.contains(&[i], message(i)));
        }
    }
}

#[test]
fn prune_counts_the_pairs_that_it_removes() {
    let mut sigs = SignatureMap::new();
    sigs.put(b"a", message(1), 100);
    sigs.put(b"a", message(1), 100);
    sigs.put(b"b", message(2), 100);
    assert_eq!(sigs.len(), 2);
    assert_eq!(sigs.prune_expired(100, 50), 2);
}

#[test]
fn no_signature_without_a_certificate() {
    let mut sigs = SignatureMap::new();
    sigs.put(b"seed", message(1), 100);
    assert_eq!(
        sigs.get_signature_as_cbor(b"seed", message(1), None, None),
        Err(CanisterSigError::NoCertificate)
    );
    assert_eq!(
        sigs.get_signature_as_cbor(b"nothing", message(1), None, None),
        Err(CanisterSigError::NoCertificate)
    );
}

#[test]
fn no_signature_for_what_is_not_certified() {
    let mut sigs = SignatureMap::new();
    sigs.put(b"seed", message(1), 100);
    let certificate = b"certificate".to_vec();
    assert_eq!(
        sigs.get_signature_as_cbor(b"seed", message(2), Some(&certificate), None),
        Err(CanisterSigError::NoSignature)
    );
    assert_eq!(
        sigs.get_signature_as_cbor(b"other", message(1), Some(&certificate), None),
        Err(CanisterSigError::NoSignature)
    );
}

#[test]
fn a_signature_holds_the_certificate_and_a_tree_that_leads_to_the_root() {
    let mut sigs = SignatureMap::new();
    for i in 0..20u8 {
        sigs.put(&[i, i], message(i), 100);
    }
    let certificate = b"a data certificate".to_vec();
    let signature =
        sigs.get_signature_as_cbor(&[7, 7], message(7), Some(&certificate), None).unwrap();
    let (held, tree) = tree_of(&signature);
    assert_eq!(held, certificate);
    assert_eq!(tree.digest(), labeled_hash(b"sig", &sigs.root_hash()));
    let seed_hash: Vec<u8> = Sha256::digest(&[7u8, 7]).to_vec();
    let path: Vec<Vec<u8>> = vec![b"sig".to_vec(), seed_hash, message(7).to_vec()];
    assert!(matches!(tree.lookup_path(&path), ic_certification::LookupResult::Found(_)));
    assert!(ic_canister_sig_creation::parse_canister_sig_cbor(&signature).is_ok());
}

#[test]
fn a_signature_holds_the_root_hash_of_the_assets_beside_the_signatures() {
    let mut sigs = SignatureMap::new();
    sigs.put(b"seed", message(1), 100);
    sigs.put(b"seed", message(2), 100);
    let certificate = vec![1u8, 2, 3];
    let assets = [9u8; 32];
    let signature = sigs
        .get_signature_as_cbor(b"seed", message(2), Some(&certificate), Some(assets))
        .unwrap();
    let (held, tree) = tree_of(&signature);
    assert_eq!(held, certificate);
    assert_eq!(tree.digest(), fork_hash(&assets, &labeled_hash(b"sig", &sigs.root_hash())));
}

#[test]
fn signatures_of_different_pairs_differ() {
    let mut sigs = SignatureMap::new();
    sigs.put(b"seed", message(1), 100);
    sigs.put(b"seed", message(2), 100);
    let certificate = vec![1u8, 2, 3];
    let one = sigs.get_signature_as_cbor(b"seed", message(1), Some(&certificate), None).unwrap();
    let two = sigs.get_signature_as_cbor(b"seed", message(2), Some(&certificate), None).unwrap();
    assert_ne!(one, two);
}

#[test]
fn pruning_nothing_leaves_the_root_hash() {
    let mut sigs = SignatureMap::new();
    sigs.put(b"a", message(1), 100);
    sigs.put(b"b", message(2), 200);
    let root = sigs.root_hash();
    assert_eq!(sigs.prune_expired(99, 10), 0);
    assert_eq!(sigs.root_hash(), root);
    assert_eq!(sigs.prune_expired(100, 10), 1);
    assert_ne!(sigs.root_hash(), root);
}

#[test]
fn the_same_lookup_gives_the_same_signature() {
    let mut sigs = SignatureMap::new();
    sigs.put(b"seed", message(1), 100);
    sigs.put(b"other", message(2), 100);
    let certificate = vec![1u8, 2, 3];
    let one = sigs.get_signature_as_cbor(b"seed", message(1), Some(&certificate), Some([9; 32]));
    let two = sigs.get_signature_as_cbor(b"seed", message(1), Some(&certificate), Some([9; 32]));
    assert!(one.is_ok());
    assert_eq!(one, two);
    let other_certificate = vec![1u8, 2, 4];
    let three =
        sigs.get_signature_as_cbor(b"seed", message(1), Some(&other_certificate), Some([9; 32]));
    let four = sigs.get_signature_as_cbor(b"seed", message(1), Some(&certificate), Some([8; 32]));
    let five = sigs.get_signature_as_cbor(b"seed", message(1), Some(&certificate), None);
    assert_ne!(one, three);
    assert_ne!(one, four);
    assert_ne!(one, five);
}

#[test]
fn a_signature_is_the_document_that_the_derived_encoding_writes() {
    let mut sigs = SignatureMap::new();
    sigs.put(b"seed", message(1), 100);
    let certificate = b"c".to_vec();
    let signature =
        sigs.get_signature_as_cbor(b"seed", message(1), Some(&certificate), None).unwrap();
    let parsed = ic_canister_sig_creation::parse_canister_sig_cbor(&signature).unwrap();
    let mut again = serde_cbor::ser::Serializer::new(Vec::new());
    again.self_describe().unwrap();
    serde::Serialize::serialize(&parsed, &mut again).unwrap();
    assert_eq!(again.into_inner(), signature);
}
