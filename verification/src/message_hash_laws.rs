//! What the hash of a delegation tells apart.

use vstd::prelude::*;
use vstd::utf8::{encode_utf8, is_ascii_chars_encode_utf8};
use crate::byte_order::{lemma_flatten_fixed_width_injective, lemma_lex_order_total, lex_order};
use crate::delegation::{
    delegation_digests_have_32_bytes, delegation_domain, delegation_fields,
    delegation_message_hash, lemma_delegation_domain_len, signature_pair,
};
use crate::seed::{lemma_distinct_pairs_distinct_seeds, seed_of, MAX_COMPONENT_LEN};
use crate::hash::{byte_strings_hash, digests_of, field_hash, map_hash_of};
use crate::leb128::{leb128, lemma_leb128_injective};
use crate::sha256::{lemma_same_digest, sha256_collides, sha256_of};

verus! {

/// The names of the three fields of a delegation are different byte strings.
proof fn lemma_field_names_differ()
    ensures
        encode_utf8("pubkey"@) != encode_utf8("expiration"@),
        encode_utf8("pubkey"@) != encode_utf8("targets"@),
        encode_utf8("expiration"@) != encode_utf8("targets"@),
{
    reveal_strlit("pubkey");
    reveal_strlit("expiration");
    reveal_strlit("targets");
    is_ascii_chars_encode_utf8("pubkey"@);
    is_ascii_chars_encode_utf8("expiration"@);
    is_ascii_chars_encode_utf8("targets"@);
    assert(encode_utf8("pubkey"@).len() == 6);
    assert(encode_utf8("expiration"@).len() == 10);
    assert(encode_utf8("targets"@).len() == 7);
}

/// Two fields with the same contribution have names with the same digest,
/// and values with the same hash.
proof fn lemma_same_field(name_a: Seq<char>, value_a: Seq<u8>, name_b: Seq<char>, value_b: Seq<u8>)
    requires
        sha256_of(encode_utf8(name_a)).len() == 32,
        sha256_of(encode_utf8(name_b)).len() == 32,
        field_hash(name_a, value_a) == field_hash(name_b, value_b),
    ensures
        sha256_of(encode_utf8(name_a)) == sha256_of(encode_utf8(name_b)),
        value_a == value_b,
{
    let a = field_hash(name_a, value_a);
    let b = field_hash(name_b, value_b);
    assert(sha256_of(encode_utf8(name_a)) =~= a.subrange(0, 32));
    assert(sha256_of(encode_utf8(name_b)) =~= b.subrange(0, 32));
    assert(value_a =~= a.subrange(32, a.len() as int));
    assert(value_b =~= b.subrange(32, b.len() as int));
}

/// A contribution that stands among the contributions of a delegation's
/// fields is that of the field with the same name, unless SHA-256 collides.
proof fn lemma_field_found(
    name: Seq<char>,
    value: Seq<u8>,
    pubkey: Seq<u8>,
    expiration: u64,
    targets: Option<Seq<Seq<u8>>>,
)
    requires
        delegation_digests_have_32_bytes(pubkey, expiration, targets),
        sha256_of(encode_utf8(name)).len() == 32,
        !sha256_collides(),
        delegation_fields(pubkey, expiration, targets).contains(field_hash(name, value)),
        name == "pubkey"@ || name == "expiration"@ || name == "targets"@,
    ensures
        name == "pubkey"@ ==> value == sha256_of(pubkey),
        name == "expiration"@ ==> value == sha256_of(leb128(expiration as nat)),
        name == "targets"@ ==> targets is Some && value == byte_strings_hash(targets->0),
{
    lemma_field_names_differ();
    let fields = delegation_fields(pubkey, expiration, targets);
    let at = choose|at: int| 0 <= at < fields.len() && fields[at] == field_hash(name, value);
    if at == 0 {
        lemma_same_field(name, value, "pubkey"@, sha256_of(pubkey));
        lemma_same_digest(encode_utf8(name), encode_utf8("pubkey"@));
    } else if at == 1 {
        lemma_same_field(name, value, "expiration"@, sha256_of(leb128(expiration as nat)));
        lemma_same_digest(encode_utf8(name), encode_utf8("expiration"@));
    } else {
        lemma_same_field(name, value, "targets"@, byte_strings_hash(targets->0));
        lemma_same_digest(encode_utf8(name), encode_utf8("targets"@));
    }
}

/// What stands in one of two sequences with the same items stands in the
/// other.
proof fn lemma_member_of_both(a: Seq<Seq<u8>>, b: Seq<Seq<u8>>, item: Seq<u8>)
    requires
        a.to_multiset() == b.to_multiset(),
        a.contains(item),
    ensures
        b.contains(item),
{
    a.to_multiset_ensures();
    b.to_multiset_ensures();
    assert(a.to_multiset().count(item) > 0);
    assert(b.to_multiset().count(item) > 0);
}

/// Two lists of byte strings with the same hash are equal, unless SHA-256
/// collides.
proof fn lemma_same_byte_strings(a: Seq<Seq<u8>>, b: Seq<Seq<u8>>)
    requires
        forall|i: int| 0 <= i < a.len() ==> sha256_of(#[trigger] a[i]).len() == 32,
        forall|i: int| 0 <= i < b.len() ==> sha256_of(#[trigger] b[i]).len() == 32,
        !sha256_collides(),
        byte_strings_hash(a) == byte_strings_hash(b),
    ensures
        a == b,
{
    lemma_same_digest(digests_of(a).flatten(), digests_of(b).flatten());
    lemma_flatten_fixed_width_injective(digests_of(a), digests_of(b), 32);
    assert(a.len() == digests_of(a).len());
    assert(b.len() == digests_of(b).len());
    assert forall|i: int| 0 <= i < a.len() implies a[i] == b[i] by {
        assert(digests_of(a)[i] == sha256_of(a[i]));
        assert(digests_of(b)[i] == sha256_of(b[i]));
        lemma_same_digest(a[i], b[i]);
    }
    assert(a =~= b);
}

/// Two delegations that differ in the public key, in the expiration or in
/// the targets (one without targets differs from one with an empty list of
/// them) have different hashes, unless SHA-256 collides. The law asks that the
/// digests that went into the two hashes have 32 bytes, which
/// `delegation_signature_msg_hash` tells of every delegation that it hashes.
pub proof fn lemma_distinct_delegations_distinct_hashes(
    pubkey_a: Seq<u8>,
    expiration_a: u64,
    targets_a: Option<Seq<Seq<u8>>>,
    pubkey_b: Seq<u8>,
    expiration_b: u64,
    targets_b: Option<Seq<Seq<u8>>>,
)
    requires
        delegation_digests_have_32_bytes(pubkey_a, expiration_a, targets_a),
        delegation_digests_have_32_bytes(pubkey_b, expiration_b, targets_b),
        pubkey_a != pubkey_b || expiration_a != expiration_b || targets_a != targets_b,
    ensures
        delegation_message_hash(pubkey_a, expiration_a, targets_a) != delegation_message_hash(
            pubkey_b,
            expiration_b,
            targets_b,
        ) || sha256_collides(),
{
    let hash_a = delegation_message_hash(pubkey_a, expiration_a, targets_a);
    let hash_b = delegation_message_hash(pubkey_b, expiration_b, targets_b);
    if hash_a == hash_b && !sha256_collides() {
        let fields_a = delegation_fields(pubkey_a, expiration_a, targets_a);
        let fields_b = delegation_fields(pubkey_b, expiration_b, targets_b);
        let domain = delegation_domain();
        lemma_delegation_domain_len();
        lemma_lex_order_total();
        let input_a = seq![domain.len() as u8] + domain + map_hash_of(fields_a);
        let input_b = seq![domain.len() as u8] + domain + map_hash_of(fields_b);
        lemma_same_digest(input_a, input_b);
        assert(map_hash_of(fields_a) =~= input_a.subrange(1 + domain.len() as int, input_a.len() as int));
        assert(map_hash_of(fields_b) =~= input_b.subrange(1 + domain.len() as int, input_b.len() as int));

        let sorted_a = fields_a.sort_by(lex_order());
        let sorted_b = fields_b.sort_by(lex_order());
        lemma_same_digest(sorted_a.flatten(), sorted_b.flatten());
        fields_a.lemma_sort_by_ensures(lex_order());
        fields_b.lemma_sort_by_ensures(lex_order());
        assert forall|i: int| 0 <= i < sorted_a.len() implies (#[trigger] sorted_a[i]).len()
            == 64 by {
            assert(sorted_a.contains(sorted_a[i]));
            assert(fields_a.contains(sorted_a[i]));
        }
        assert forall|i: int| 0 <= i < sorted_b.len() implies (#[trigger] sorted_b[i]).len()
            == 64 by {
            assert(sorted_b.contains(sorted_b[i]));
            assert(fields_b.contains(sorted_b[i]));
        }
        lemma_flatten_fixed_width_injective(sorted_a, sorted_b, 64);
        assert(fields_a.to_multiset() == fields_b.to_multiset());
        fields_a.to_multiset_ensures();
        fields_b.to_multiset_ensures();
        assert(fields_a.len() == fields_b.len());

        assert(fields_a[0] == field_hash("pubkey"@, sha256_of(pubkey_a)));
        assert(fields_a.contains(fields_a[0]));
        lemma_member_of_both(fields_a, fields_b, fields_a[0]);
        lemma_field_found("pubkey"@, sha256_of(pubkey_a), pubkey_b, expiration_b, targets_b);
        lemma_same_digest(pubkey_a, pubkey_b);

        assert(fields_a[1] == field_hash("expiration"@, sha256_of(leb128(expiration_a as nat))));
        assert(fields_a.contains(fields_a[1]));
        lemma_member_of_both(fields_a, fields_b, fields_a[1]);
        lemma_field_found(
            "expiration"@,
            sha256_of(leb128(expiration_a as nat)),
            pubkey_b,
            expiration_b,
            targets_b,
        );
        lemma_same_digest(leb128(expiration_a as nat), leb128(expiration_b as nat));
        lemma_leb128_injective(expiration_a as nat, expiration_b as nat);

        match targets_a {
            Some(list_a) => {
                assert(fields_a[2] == field_hash("targets"@, byte_strings_hash(list_a)));
                assert(fields_a.contains(fields_a[2]));
                lemma_member_of_both(fields_a, fields_b, fields_a[2]);
                lemma_field_found(
                    "targets"@,
                    byte_strings_hash(list_a),
                    pubkey_b,
                    expiration_b,
                    targets_b,
                );
                lemma_same_byte_strings(list_a, targets_b->0);
            },
            None => {
                assert(targets_b is None);
            },
        }
    }
}

/// Under one salt, a request that differs from another in the anchor, the
/// frontend, the session key or the expiration asks for another certified
/// pair, unless SHA-256 collides: what was prepared for the one is not found
/// for the other. The law asks that the digests that went into the hashes of
/// the two delegations have 32 bytes, which `prepare_delegation` and
/// `get_delegation` tell of every delegation that they hash.
pub proof fn lemma_distinct_requests_distinct_pairs(
    salt: Seq<u8>,
    anchor_a: u64,
    frontend_a: Seq<u8>,
    session_key_a: Seq<u8>,
    expiration_a: u64,
    anchor_b: u64,
    frontend_b: Seq<u8>,
    session_key_b: Seq<u8>,
    expiration_b: u64,
)
    requires
        delegation_digests_have_32_bytes(session_key_a, expiration_a, None),
        delegation_digests_have_32_bytes(session_key_b, expiration_b, None),
        frontend_a.len() <= MAX_COMPONENT_LEN,
        frontend_b.len() <= MAX_COMPONENT_LEN,
        anchor_a != anchor_b || frontend_a != frontend_b || session_key_a != session_key_b
            || expiration_a != expiration_b,
    ensures
        signature_pair(salt, anchor_a, frontend_a, session_key_a, expiration_a) != signature_pair(
            salt,
            anchor_b,
            frontend_b,
            session_key_b,
            expiration_b,
        ) || sha256_collides(),
{
    if !sha256_collides() {
        if anchor_a != anchor_b || frontend_a != frontend_b {
            lemma_distinct_pairs_distinct_seeds(salt, anchor_a, frontend_a, anchor_b, frontend_b);
            let seed_a = seed_of(salt, anchor_a, frontend_a);
            let seed_b = seed_of(salt, anchor_b, frontend_b);
            if sha256_of(seed_a) == sha256_of(seed_b) {
                lemma_same_digest(seed_a, seed_b);
            }
        } else {
            lemma_distinct_delegations_distinct_hashes(
                session_key_a,
                expiration_a,
                None,
                session_key_b,
                expiration_b,
                None,
            );
        }
    }
}

} // verus!
