//! Representation-independent hashing of structured values: every value has
//! a SHA-256 digest that does not depend on how a map of fields is ordered.

use vstd::prelude::*;
use vstd::seq_lib::lemma_sorted_unique;
use vstd::utf8::encode_utf8;
use crate::byte_order::{lemma_lex_order_total, lex_order, rows, sort_byte_strings};
use crate::leb128::{leb128, leb128_encode};
use crate::sha256::{sha256, sha256_of, Hash32};

verus! {

/// A value that can be hashed.
pub enum Value<'a> {
    /// A byte string.
    Bytes(&'a [u8]),
    /// A text, hashed as its UTF-8 bytes.
    Text(&'a str),
    /// A number, hashed as its LEB128 encoding.
    U64(u64),
    /// A list of values, in order.
    Array(Vec<Value<'a>>),
}

/// The longest domain separator that its one-byte length prefix can describe.
pub const MAX_DOMAIN_LEN: usize = 255;

/// The hash of a value: of a byte string, a text or a number the digest of
/// its encoding, of a list the digest of its items' hashes in order.
pub open spec fn value_hash(value: Value) -> Seq<u8>
    decreases value,
{
    match value {
        Value::Bytes(bytes) => sha256_of(bytes@),
        Value::Text(text) => sha256_of(encode_utf8(text@)),
        Value::U64(number) => sha256_of(leb128(number as nat)),
        Value::Array(items) => sha256_of(item_hashes(items, items.len() as nat)),
    }
}

/// The hashes of the first `n` items of a list, one after the other.
pub open spec fn item_hashes(items: Vec<Value>, n: nat) -> Seq<u8>
    decreases items, n,
{
    if n == 0 || n > items.len() {
        Seq::empty()
    } else {
        item_hashes(items, (n - 1) as nat) + value_hash(items[n - 1])
    }
}

/// If the value is a list, every item of it has a hash of 32 bytes.
pub open spec fn items_hash_to_32_bytes(value: Value) -> bool {
    value matches Value::Array(items) ==> forall|i: int|
        0 <= i < items.len() ==> (#[trigger] value_hash(items[i])).len() == 32
}

/// What one field of a map contributes: the digest of its name followed by
/// the hash of its value.
pub open spec fn field_hash(name: Seq<char>, value_hash: Seq<u8>) -> Seq<u8> {
    sha256_of(encode_utf8(name)) + value_hash
}

/// The contributions of the fields of a map, in the order given.
pub open spec fn field_hashes(fields: Seq<(&str, Value)>) -> Seq<Seq<u8>> {
    Seq::new(fields.len(), |i: int| field_hash(fields[i].0@, value_hash(fields[i].1)))
}

/// The hash of a map whose fields contribute `contributions`: the digest of
/// the contributions in sorted order, so that the order in which the fields
/// are given does not matter.
pub open spec fn map_hash_of(contributions: Seq<Seq<u8>>) -> Seq<u8> {
    sha256_of(contributions.sort_by(lex_order()).flatten())
}

/// The hash of a map of named fields.
pub open spec fn map_hash(fields: Seq<(&str, Value)>) -> Seq<u8> {
    map_hash_of(field_hashes(fields))
}

/// The hash of a map does not depend on the order of its fields: two lists
/// of contributions with the same items, however ordered, hash alike.
pub proof fn lemma_map_hash_ignores_order(a: Seq<Seq<u8>>, b: Seq<Seq<u8>>)
    requires
        a.to_multiset() == b.to_multiset(),
    ensures
        map_hash_of(a) == map_hash_of(b),
{
    lemma_lex_order_total();
    a.lemma_sort_by_ensures(lex_order());
    b.lemma_sort_by_ensures(lex_order());
    lemma_sorted_unique(a.sort_by(lex_order()), b.sort_by(lex_order()), lex_order());
}

/// The digests of byte strings, in order.
pub open spec fn digests_of(items: Seq<Seq<u8>>) -> Seq<Seq<u8>> {
    Seq::new(items.len(), |i: int| sha256_of(items[i]))
}

/// The hash of a list of byte strings: the digest of its items' digests in
/// order.
pub open spec fn byte_strings_hash(items: Seq<Seq<u8>>) -> Seq<u8> {
    sha256_of(digests_of(items).flatten())
}

/// A list whose items hash like the byte strings `texts` hashes like the
/// list of those byte strings.
pub proof fn lemma_item_hashes_of_byte_strings(items: Vec<Value>, texts: Seq<Seq<u8>>, n: nat)
    requires
        n <= items.len() == texts.len(),
        forall|k: int| 0 <= k < items.len() ==> value_hash(#[trigger] items[k]) == sha256_of(texts[k]),
    ensures
        item_hashes(items, n) == digests_of(texts).take(n as int).flatten(),
    decreases n,
{
    let digests = digests_of(texts);
    if n > 0 {
        lemma_item_hashes_of_byte_strings(items, texts, (n - 1) as nat);
        assert(digests.take(n as int) =~= digests.take(n - 1).push(digests[n - 1]));
        digests.take(n - 1).lemma_flatten_push(digests[n - 1]);
    } else {
        assert(digests.take(0) =~= Seq::<Seq<u8>>::empty());
    }
}

/// The digest of `bytes` behind a domain separator and the byte that holds
/// the separator's length.
pub open spec fn domain_hash(separator: Seq<u8>, bytes: Seq<u8>) -> Seq<u8> {
    sha256_of(seq![separator.len() as u8] + separator + bytes)
}

/// The SHA-256 digest of a byte string.
pub fn hash_bytes(value: &[u8]) -> (hash: Hash32)
    ensures
        hash@ == sha256_of(value@),
{
    sha256(value)
}

/// The SHA-256 digest of the UTF-8 bytes of a text.
pub fn hash_string(value: &str) -> (hash: Hash32)
    ensures
        hash@ == sha256_of(encode_utf8(value@)),
{
    sha256(value.as_bytes())
}

/// The SHA-256 digest of the LEB128 encoding of a number.
pub fn hash_u64(value: u64) -> (hash: Hash32)
    ensures
        hash@ == sha256_of(leb128(value as nat)),
{
    let encoded = leb128_encode(value);
    sha256(encoded.as_slice())
}

/// The hash of a list: the digest of its items' hashes in order.
pub fn hash_array(elements: &Vec<Value>) -> (hash: Hash32)
    ensures
        hash@ == sha256_of(item_hashes(*elements, elements.len() as nat)),
        forall|i: int|
            0 <= i < elements.len() ==> (#[trigger] value_hash(elements[i])).len() == 32,
    decreases elements,
{
    let mut hashes: Vec<u8> = Vec::new();
    let mut i: usize = 0;
    while i < elements.len()
        invariant
            i <= elements.len(),
            hashes@ == item_hashes(*elements, i as nat),
            forall|k: int| 0 <= k < i ==> (#[trigger] value_hash(elements[k])).len() == 32,
        decreases elements.len() - i,
    {
        let item = hash_val(&elements[i]);
        hashes.extend_from_slice(item.as_slice());
        i = i + 1;
    }
    sha256(hashes.as_slice())
}

/// The hash of a value.
pub fn hash_val(value: &Value) -> (hash: Hash32)
    ensures
        hash@ == value_hash(*value),
        items_hash_to_32_bytes(*value),
    decreases value,
{
    match value {
        Value::Bytes(bytes) => hash_bytes(bytes),
        Value::Text(text) => hash_string(text),
        Value::U64(number) => hash_u64(*number),
        Value::Array(elements) => hash_array(elements),
    }
}

/// What the field `key` with the value `value` contributes to the hash of a
/// map.
pub fn hash_key_val(key: &str, value: &Value) -> (hash: Vec<u8>)
    ensures
        hash@ == field_hash(key@, value_hash(*value)),
        sha256_of(encode_utf8(key@)).len() == 32,
        value_hash(*value).len() == 32,
        items_hash_to_32_bytes(*value),
{
    let key_hash = hash_string(key);
    let value_hash = hash_val(value);
    let mut hash: Vec<u8> = Vec::new();
    hash.extend_from_slice(key_hash.as_slice());
    hash.extend_from_slice(value_hash.as_slice());
    hash
}

/// The hash of a map of named fields. Two maps with the same fields in
/// another order have the same hash.
pub fn hash_of_map(map: &Vec<(&str, Value)>) -> (hash: Hash32)
    ensures
        hash@ == map_hash(map@),
        forall|i: int|
            0 <= i < map@.len() ==> {
                &&& sha256_of(encode_utf8((#[trigger] map@[i]).0@)).len() == 32
                &&& value_hash(map@[i].1).len() == 32
                &&& items_hash_to_32_bytes(map@[i].1)
            },
{
    let mut hashes: Vec<Vec<u8>> = Vec::new();
    let mut i: usize = 0;
    while i < map.len()
        invariant
            i <= map.len(),
            rows(hashes@) == field_hashes(map@).subrange(0, i as int),
            forall|k: int|
                0 <= k < i ==> {
                    &&& sha256_of(encode_utf8((#[trigger] map@[k]).0@)).len() == 32
                    &&& value_hash(map@[k].1).len() == 32
                    &&& items_hash_to_32_bytes(map@[k].1)
                },
        decreases map.len() - i,
    {
        let ghost before = rows(hashes@);
        let contribution = hash_key_val(map[i].0, &map[i].1);
        assert(contribution@ == field_hashes(map@)[i as int]);
        hashes.push(contribution);
        assert(rows(hashes@) =~= before.push(field_hashes(map@)[i as int]));
        i = i + 1;
        assert(rows(hashes@) =~= field_hashes(map@).subrange(0, i as int));
    }
    assert(rows(hashes@) =~= field_hashes(map@));
    let sorted = sort_byte_strings(hashes);
    let mut joined: Vec<u8> = Vec::new();
    let mut j: usize = 0;
    while j < sorted.len()
        invariant
            j <= sorted.len(),
            joined@ == rows(sorted@).subrange(0, j as int).flatten(),
        decreases sorted.len() - j,
    {
        proof {
            let done = rows(sorted@).subrange(0, j as int);
            assert(rows(sorted@).subrange(0, j + 1) =~= done.push(sorted@[j as int]@));
            done.lemma_flatten_push(sorted@[j as int]@);
        }
        joined.extend_from_slice(sorted[j].as_slice());
        j = j + 1;
    }
    assert(rows(sorted@).subrange(0, j as int) =~= rows(sorted@));
    sha256(joined.as_slice())
}

/// The digest of `bytes` in the domain that `separator` names.
pub fn hash_with_domain(separator: &[u8], bytes: &[u8]) -> (hash: Hash32)
    requires
        separator@.len() <= MAX_DOMAIN_LEN,
    ensures
        hash@ == domain_hash(separator@, bytes@),
{
    let mut buffer: Vec<u8> = Vec::new();
    buffer.push(separator.len() as u8);
    buffer.extend_from_slice(separator);
    buffer.extend_from_slice(bytes);
    assert(buffer@ =~= seq![separator@.len() as u8] + separator@ + bytes@);
    sha256(buffer.as_slice())
}

} // verus!
