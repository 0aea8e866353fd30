//! The certified tree behind the signature store: a two-level labelled hash
//! tree from `ic-certification`, with the hash of a seed on the first level
//! and the hash of a message on the second, and the hash trees that prove
//! what it holds.

use vstd::prelude::*;
use crate::sha256::Hash32;

verus! {

/// A `NestedTree` of `ic-certification` that holds the certified pairs.
/// Verus does not look inside it: what the library knows of it is what the
/// functions of this file state over `certified_pairs`.
#[verifier::external_body]
pub struct CertifiedTree {
    tree: ic_certification::NestedTree<Vec<u8>, Vec<u8>>,
}

/// A `HashTree` of `ic-certification`: a tree of hashes, labels and leaves
/// whose digest can be held against a certified root hash. Verus does not
/// look inside it.
#[verifier::external_body]
pub struct WitnessTree {
    tree: ic_certification::HashTree,
}

/// The pairs (hash of a seed, hash of a message) that have a leaf in the
/// tree.
pub uninterp spec fn certified_pairs(tree: CertifiedTree) -> Set<(Seq<u8>, Seq<u8>)>;

/// The root hash of the tree: the digest that stands for everything the tree
/// holds.
pub uninterp spec fn certified_root(tree: CertifiedTree) -> Seq<u8>;

/// The hash tree that proves whether the pair has a leaf in the tree.
pub uninterp spec fn witness_of(
    tree: CertifiedTree,
    seed_hash: Seq<u8>,
    message_hash: Seq<u8>,
) -> WitnessTree;

/// The hash tree with `subtree` under the label `label`.
pub uninterp spec fn labeled_of(label: Seq<u8>, subtree: WitnessTree) -> WitnessTree;

/// The hash tree that forks into `left` and `right`.
pub uninterp spec fn fork_of(left: WitnessTree, right: WitnessTree) -> WitnessTree;

/// The hash tree that is pruned down to the digest `hash`.
pub uninterp spec fn pruned_of(hash: Seq<u8>) -> WitnessTree;

/// The self-describing CBOR document of a structure called `name` with two
/// fields: the byte string `bytes` under `bytes_key`, and `tree` under
/// `tree_key`.
pub uninterp spec fn cbor_of_bytes_and_tree(
    name: Seq<char>,
    bytes_key: Seq<char>,
    bytes: Seq<u8>,
    tree_key: Seq<char>,
    tree: WitnessTree,
) -> Seq<u8>;

/// Calls `NestedTree::default`. Trusted: the new tree has no leaf.
#[verifier::external_body]
pub(crate) fn empty_tree() -> (tree: CertifiedTree)
    ensures
        certified_pairs(tree) == Set::<(Seq<u8>, Seq<u8>)>::empty(),
{
    CertifiedTree { tree: ic_certification::NestedTree::default() }
}

/// Calls `NestedTree::insert` with the path of the two hashes and an empty
/// leaf. Trusted: afterwards the pair has a leaf, and every other pair has
/// one exactly if it had one before.
#[verifier::external_body]
pub(crate) fn insert_pair(tree: &mut CertifiedTree, seed_hash: &Hash32, message_hash: &Hash32)
    ensures
        certified_pairs(*final(tree)) == certified_pairs(*old(tree)).insert(
            (seed_hash@, message_hash@),
        ),
{
    tree.tree.insert(&[seed_hash.to_vec(), message_hash.to_vec()], Vec::new());
}

/// Calls `NestedTree::delete` with the path of the two hashes. Trusted:
/// afterwards the pair has no leaf, and every other pair has one exactly if
/// it had one before.
#[verifier::external_body]
pub(crate) fn delete_pair(tree: &mut CertifiedTree, seed_hash: &Hash32, message_hash: &Hash32)
    ensures
        certified_pairs(*final(tree)) == certified_pairs(*old(tree)).remove(
            (seed_hash@, message_hash@),
        ),
{
    tree.tree.delete(&[seed_hash.to_vec(), message_hash.to_vec()]);
}

/// Calls `NestedTree::contains_leaf` with the path of the two hashes.
/// Trusted: the answer is whether the pair has a leaf.
#[verifier::external_body]
pub(crate) fn has_pair(tree: &CertifiedTree, seed_hash: &Hash32, message_hash: &Hash32) -> (found:
    bool)
    ensures
        found == certified_pairs(*tree).contains((seed_hash@, message_hash@)),
{
    tree.tree.contains_leaf(&[seed_hash.to_vec(), message_hash.to_vec()])
}

/// Calls `AsHashTree::root_hash` on the tree. Trusted: the hash depends on
/// the tree alone. Nothing else is claimed of it: it follows the shape that
/// the tree has grown into.
#[verifier::external_body]
pub(crate) fn tree_root_hash(tree: &CertifiedTree) -> (hash: Hash32)
    ensures
        hash@ == certified_root(*tree),
{
    ic_certification::AsHashTree::root_hash(&tree.tree)
}

/// Calls `NestedTree::witness` with the path of the two hashes. Trusted: the
/// witness depends on the tree and the two hashes alone. Nothing else is
/// claimed of it; for a pair without a leaf it proves the absence.
#[verifier::external_body]
pub(crate) fn pair_witness(
    tree: &CertifiedTree,
    seed_hash: &Hash32,
    message_hash: &Hash32,
) -> (witness: WitnessTree)
    ensures
        witness == witness_of(*tree, seed_hash@, message_hash@),
{
    WitnessTree { tree: tree.tree.witness(&[seed_hash.to_vec(), message_hash.to_vec()]) }
}

/// Calls `ic_certification::labeled`. Trusted: the tree depends on the label
/// and the subtree alone.
#[verifier::external_body]
pub(crate) fn labeled_tree(label: &[u8], subtree: WitnessTree) -> (tree: WitnessTree)
    ensures
        tree == labeled_of(label@, subtree),
{
    WitnessTree { tree: ic_certification::labeled(label, subtree.tree) }
}

/// Calls `ic_certification::fork`. Trusted: the tree depends on the two
/// subtrees alone.
#[verifier::external_body]
pub(crate) fn fork_tree(left: WitnessTree, right: WitnessTree) -> (tree: WitnessTree)
    ensures
        tree == fork_of(left, right),
{
    WitnessTree { tree: ic_certification::fork(left.tree, right.tree) }
}

/// Calls `ic_certification::pruned`. Trusted: the tree depends on the hash
/// alone.
#[verifier::external_body]
pub(crate) fn pruned_tree(hash: Hash32) -> (tree: WitnessTree)
    ensures
        tree == pruned_of(hash@),
{
    WitnessTree { tree: ic_certification::pruned(hash) }
}

/// The three bytes of the CBOR tag that marks a self-describing document.
pub open spec fn self_describing_tag() -> Seq<u8> {
    seq![0xd9u8, 0xd9u8, 0xf7u8]
}

/// Writes a document with `serde_cbor`: `Serializer::self_describe`, then a
/// structure called `name` with the byte string `bytes` under `bytes_key`
/// and `tree` under `tree_key`. Trusted: the document depends on these five
/// values alone, and starts with the self-describing tag.
#[verifier::external_body]
pub(crate) fn encode_bytes_and_tree(
    name: &'static str,
    bytes_key: &'static str,
    bytes: &[u8],
    tree_key: &'static str,
    tree: &WitnessTree,
) -> (cbor: Vec<u8>)
    ensures
        cbor@ == cbor_of_bytes_and_tree(name@, bytes_key@, bytes@, tree_key@, *tree),
        self_describing_tag().is_prefix_of(cbor@),
{
    let mut out = serde_cbor::ser::Serializer::new(Vec::new());
    out.self_describe().unwrap();
    let mut document = serde::Serializer::serialize_struct(&mut out, name, 2).unwrap();
    let bytes = serde_bytes::Bytes::new(bytes);
    serde::ser::SerializeStruct::serialize_field(&mut document, bytes_key, bytes).unwrap();
    serde::ser::SerializeStruct::serialize_field(&mut document, tree_key, &tree.tree).unwrap();
    serde::ser::SerializeStruct::end(document).unwrap();
    out.into_inner()
}

} // verus!
