//! The certified signature store: which pairs (hash of a seed, hash of a
//! message) are certified, and when the signature of each expires.

use vstd::prelude::*;
use crate::byte_order::same_bytes;
use crate::certified_tree::{
    cbor_of_bytes_and_tree, certified_pairs, certified_root, delete_pair, empty_tree,
    encode_bytes_and_tree, fork_of, fork_tree, has_pair, insert_pair, labeled_of, labeled_tree,
    pair_witness, pruned_of, pruned_tree, self_describing_tag, tree_root_hash, witness_of,
    CertifiedTree,
};
use crate::sha256::{sha256, sha256_of, Hash32};

verus! {

/// When the signature for a pair expires.
#[derive(Clone, Copy)]
pub struct SigExpiration {
    pub expires_at: u64,
    pub seed_hash: Hash32,
    pub msg_hash: Hash32,
}

/// What the store knows of one signature: the pair it stands for, and when
/// it expires.
pub struct SigEntry {
    pub expires_at: u64,
    pub seed_hash: Seq<u8>,
    pub msg_hash: Seq<u8>,
}

impl View for SigExpiration {
    type V = SigEntry;

    open spec fn view(&self) -> SigEntry {
        SigEntry {
            expires_at: self.expires_at,
            seed_hash: self.seed_hash@,
            msg_hash: self.msg_hash@,
        }
    }
}

/// The entries of a queue as the store knows them.
pub open spec fn entries_of(queue: Seq<SigExpiration>) -> Seq<SigEntry> {
    Seq::new(queue.len(), |i: int| queue[i]@)
}

/// Why no certified signature could be handed out.
#[derive(Clone, Copy, Debug, PartialEq, Eq)]
pub enum CanisterSigError {
    /// No data certificate is at hand: they exist in query calls only.
    NoCertificate,
    /// The store certifies no signature for the seed and the message.
    NoSignature,
}

/// The label of the signatures in the tree that a signature carries, `sig`.
pub open spec fn sig_label() -> Seq<u8> {
    seq![115u8, 105u8, 103u8]
}

/// The root hash of the assets as a signature carries it, if it carries one.
pub open spec fn root_view(root_hash: Option<Hash32>) -> Option<Seq<u8>> {
    match root_hash {
        Some(hash) => Some(hash@),
        None => None,
    }
}

/// The pair that an entry of the queue stands for.
pub open spec fn pair_of(entry: SigEntry) -> (Seq<u8>, Seq<u8>) {
    (entry.seed_hash, entry.msg_hash)
}

/// The pairs that the entries of a queue stand for.
pub open spec fn pairs_of(queue: Seq<SigEntry>) -> Set<(Seq<u8>, Seq<u8>)> {
    Set::new(
        |pair: (Seq<u8>, Seq<u8>)| exists|i: int| 0 <= i < queue.len() && pair_of(queue[i]) == pair,
    )
}

/// The entries stand in the order in which they expire.
pub open spec fn in_expiry_order(queue: Seq<SigEntry>) -> bool {
    forall|i: int, j: int| 0 <= i < j < queue.len() ==> queue[i].expires_at <= queue[j].expires_at
}

/// No pair has two entries.
pub open spec fn distinct_pairs(queue: Seq<SigEntry>) -> bool {
    forall|i: int, j: int| 0 <= i < j < queue.len() ==> pair_of(queue[i]) != pair_of(queue[j])
}

/// The entries that have expired at `now`.
pub open spec fn has_expired(now: u64) -> spec_fn(SigEntry) -> bool {
    |entry: SigEntry| entry.expires_at <= now
}

/// The entries that stand for another pair than `pair`.
pub open spec fn is_other_pair(pair: (Seq<u8>, Seq<u8>)) -> spec_fn(SigEntry) -> bool {
    |entry: SigEntry| pair_of(entry) != pair
}

/// How many entries of the queue have expired at `now`.
pub open spec fn expired_count(queue: Seq<SigEntry>, now: u64) -> nat {
    queue.filter(has_expired(now)).len()
}

/// The queue without the entry of `pair`.
pub open spec fn without(queue: Seq<SigEntry>, pair: (Seq<u8>, Seq<u8>)) -> Seq<SigEntry> {
    queue.filter(is_other_pair(pair))
}

/// The queue with one more entry, which stands behind every entry that
/// expires no later than it.
pub open spec fn enqueued(queue: Seq<SigEntry>, entry: SigEntry) -> Seq<SigEntry> {
    queue.insert(expired_count(queue, entry.expires_at) as int, entry)
}

/// The queue after `entry` was put: the entry that its pair had before is
/// gone, and `entry` stands behind every entry that expires no later than it.
pub open spec fn replaced(queue: Seq<SigEntry>, entry: SigEntry) -> Seq<SigEntry> {
    enqueued(without(queue, pair_of(entry)), entry)
}

/// How many entries one pruning removes: those that have expired, but no
/// more than `max_to_prune`.
pub open spec fn pruned_count(queue: Seq<SigEntry>, now: u64, max_to_prune: usize) -> nat {
    if expired_count(queue, now) <= max_to_prune {
        expired_count(queue, now)
    } else {
        max_to_prune as nat
    }
}

/// A queue whose entries all meet a condition is left as it is by the filter
/// for that condition.
proof fn lemma_filter_keeps_all(queue: Seq<SigEntry>, keep: spec_fn(SigEntry) -> bool)
    requires
        forall|i: int| 0 <= i < queue.len() ==> keep(#[trigger] queue[i]),
    ensures
        queue.filter(keep) == queue,
    decreases queue.len(),
{
    reveal(Seq::filter);
    if queue.len() > 0 {
        let front = queue.drop_last();
        assert forall|i: int| 0 <= i < front.len() implies keep(#[trigger] front[i]) by {
            assert(front[i] == queue[i]);
        }
        lemma_filter_keeps_all(front, keep);
        assert(queue =~= front.push(queue.last()));
    }
}

/// In a queue in expiry order whose first `k` entries have expired at `now`
/// and whose other entries have not, `k` entries have expired.
pub proof fn lemma_expired_prefix(queue: Seq<SigEntry>, now: u64, k: int)
    requires
        0 <= k <= queue.len(),
        forall|i: int| 0 <= i < k ==> queue[i].expires_at <= now,
        forall|i: int| k <= i < queue.len() ==> queue[i].expires_at > now,
    ensures
        expired_count(queue, now) == k,
        queue.filter(has_expired(now)) == queue.take(k),
    decreases queue.len(),
{
    reveal(Seq::filter);
    if queue.len() > 0 {
        let front = queue.drop_last();
        if k == queue.len() {
            lemma_expired_prefix(front, now, k - 1);
            assert(queue.take(k) =~= front.take(k - 1).push(queue.last()));
        } else {
            lemma_expired_prefix(front, now, k);
            assert(queue.take(k) =~= front.take(k));
        }
    } else {
        assert(queue.take(k) =~= queue);
    }
}

/// Pruning never removes more than `max_to_prune` entries, however many have
/// expired.
pub proof fn lemma_pruned_count_bounded(queue: Seq<SigEntry>, now: u64, max_to_prune: usize)
    ensures
        pruned_count(queue, now, max_to_prune) <= max_to_prune,
        pruned_count(queue, now, max_to_prune) <= expired_count(queue, now) <= queue.len(),
{
    queue.lemma_filter_len(has_expired(now));
}

/// Where a pair has no entry, taking its entry out changes nothing.
pub proof fn lemma_without_absent(queue: Seq<SigEntry>, pair: (Seq<u8>, Seq<u8>))
    requires
        !pairs_of(queue).contains(pair),
    ensures
        without(queue, pair) == queue,
{
    assert forall|i: int| 0 <= i < queue.len() implies is_other_pair(pair)(
        #[trigger] queue[i],
    ) by {
        if pair_of(queue[i]) == pair {
            assert(pairs_of(queue).contains(pair));
        }
    }
    lemma_filter_keeps_all(queue, is_other_pair(pair));
}

/// Where the entry at `at` is the only one of its pair, taking the pair's
/// entry out removes that one.
pub proof fn lemma_without_at(queue: Seq<SigEntry>, at: int)
    requires
        distinct_pairs(queue),
        0 <= at < queue.len(),
    ensures
        without(queue, pair_of(queue[at])) == queue.remove(at),
{
    let pair = pair_of(queue[at]);
    let keep = is_other_pair(pair);
    let before = queue.take(at);
    let one = seq![queue[at]];
    let after = queue.skip(at + 1);
    assert(queue =~= before + one + after);
    assert forall|i: int| 0 <= i < before.len() implies keep(#[trigger] before[i]) by {
        assert(before[i] == queue[i]);
    }
    assert forall|i: int| 0 <= i < after.len() implies keep(#[trigger] after[i]) by {
        assert(after[i] == queue[at + 1 + i]);
    }
    lemma_filter_keeps_all(before, keep);
    lemma_filter_keeps_all(after, keep);
    assert(one.filter(keep) =~= Seq::<SigEntry>::empty()) by {
        reveal(Seq::filter);
        assert(one.drop_last() =~= Seq::<SigEntry>::empty());
        assert(one.drop_last().filter(keep) =~= Seq::<SigEntry>::empty());
    }
    Seq::filter_distributes_over_add(before, one, keep);
    Seq::filter_distributes_over_add(before + one, after, keep);
    assert(queue.remove(at) =~= before + after);
    assert(before + Seq::<SigEntry>::empty() + after =~= before + after);
}

/// Taking the entry of a pair out of a queue without doubles leaves a queue
/// without doubles, in the same order, that is shorter by one if the pair had
/// an entry, and holds the other pairs as before.
pub proof fn lemma_without(queue: Seq<SigEntry>, pair: (Seq<u8>, Seq<u8>))
    requires
        distinct_pairs(queue),
    ensures
        distinct_pairs(without(queue, pair)),
        in_expiry_order(queue) ==> in_expiry_order(without(queue, pair)),
        pairs_of(without(queue, pair)) == pairs_of(queue).remove(pair),
        without(queue, pair).len() == if pairs_of(queue).contains(pair) {
            queue.len() - 1
        } else {
            queue.len() as int
        },
{
    let rest = without(queue, pair);
    if pairs_of(queue).contains(pair) {
        let at = choose|at: int| 0 <= at < queue.len() && pair_of(queue[at]) == pair;
        lemma_without_at(queue, at);
        assert forall|i: int| 0 <= i < rest.len() implies rest[i] == queue[if i < at {
            i
        } else {
            i + 1
        }] by {}
        assert forall|p: (Seq<u8>, Seq<u8>)| pairs_of(rest).contains(p) <==> pairs_of(queue).remove(
            pair,
        ).contains(p) by {
            if pairs_of(rest).contains(p) {
                let i = choose|i: int| 0 <= i < rest.len() && pair_of(rest[i]) == p;
                let j = if i < at { i } else { i + 1 };
                assert(pair_of(queue[j]) == p);
            }
            if pairs_of(queue).remove(pair).contains(p) {
                let j = choose|j: int| 0 <= j < queue.len() && pair_of(queue[j]) == p;
                let i = if j < at { j } else { j - 1 };
                assert(pair_of(rest[i]) == p);
            }
        }
        assert(pairs_of(rest) =~= pairs_of(queue).remove(pair));
    } else {
        lemma_without_absent(queue, pair);
        assert(pairs_of(queue).remove(pair) =~= pairs_of(queue));
    }
}

/// Putting an entry into a queue without doubles, in expiry order, leaves
/// such a queue, which holds the pair of the entry beside the others.
pub proof fn lemma_replaced(queue: Seq<SigEntry>, entry: SigEntry)
    requires
        distinct_pairs(queue),
        in_expiry_order(queue),
    ensures
        distinct_pairs(replaced(queue, entry)),
        in_expiry_order(replaced(queue, entry)),
        pairs_of(replaced(queue, entry)) == pairs_of(queue).insert(pair_of(entry)),
        replaced(queue, entry).len() == if pairs_of(queue).contains(pair_of(entry)) {
            queue.len()
        } else {
            queue.len() + 1
        },
        replaced(queue, entry)[expired_count(
            without(queue, pair_of(entry)),
            entry.expires_at,
        ) as int] == entry,
{
    let pair = pair_of(entry);
    let rest = without(queue, pair);
    lemma_without(queue, pair);
    let at = expired_count(rest, entry.expires_at) as int;
    rest.lemma_filter_len(has_expired(entry.expires_at));
    let after = replaced(queue, entry);
    lemma_enqueued_order(rest, entry);
    assert forall|i: int, j: int| 0 <= i < j < after.len() implies pair_of(after[i]) != pair_of(
        after[j],
    ) by {
        let pi = if i < at { i } else { i - 1 };
        let pj = if j < at { j } else { j - 1 };
        if i == at {
            assert(pairs_of(rest).contains(pair_of(rest[pj])));
        } else if j == at {
            assert(pairs_of(rest).contains(pair_of(rest[pi])));
        } else {
            assert(pair_of(rest[pi]) != pair_of(rest[pj]));
        }
    }
    assert forall|p: (Seq<u8>, Seq<u8>)| pairs_of(after).contains(p) <==> pairs_of(queue).insert(
        pair,
    ).contains(p) by {
        if pairs_of(after).contains(p) {
            let i = choose|i: int| 0 <= i < after.len() && pair_of(after[i]) == p;
            if i != at {
                let pi = if i < at { i } else { i - 1 };
                assert(pairs_of(rest).contains(pair_of(rest[pi])));
            }
        }
        if pairs_of(queue).insert(pair).contains(p) {
            if p == pair {
                assert(pair_of(after[at]) == p);
            } else {
                assert(pairs_of(rest).contains(p));
                let i = choose|i: int| 0 <= i < rest.len() && pair_of(rest[i]) == p;
                let ni = if i < at { i } else { i + 1 };
                assert(pair_of(after[ni]) == p);
            }
        }
    }
    assert(pairs_of(after) =~= pairs_of(queue).insert(pair));
}

/// An entry that is put into a queue in expiry order behind every entry that
/// expires no later leaves the queue in expiry order.
proof fn lemma_enqueued_order(queue: Seq<SigEntry>, entry: SigEntry)
    requires
        in_expiry_order(queue),
    ensures
        in_expiry_order(enqueued(queue, entry)),
        forall|i: int|
            0 <= i < expired_count(queue, entry.expires_at) ==> queue[i].expires_at
                <= entry.expires_at,
        forall|i: int|
            expired_count(queue, entry.expires_at) <= i < queue.len() ==> queue[i].expires_at
                > entry.expires_at,
{
    let now = entry.expires_at;
    let k = lemma_expired_boundary(queue, now);
    lemma_expired_prefix(queue, now, k);
    let after = enqueued(queue, entry);
    assert forall|i: int, j: int| 0 <= i < j < after.len() implies after[i].expires_at
        <= after[j].expires_at by {
        let pi = if i < k { i } else { i - 1 };
        let pj = if j < k { j } else { j - 1 };
        if i != k && j != k {
            assert(queue[pi].expires_at <= queue[pj].expires_at);
        }
    }
}

/// In a queue in expiry order the entries that have expired at `now` stand
/// before the others: there is a position that parts them.
proof fn lemma_expired_boundary(queue: Seq<SigEntry>, now: u64) -> (k: int)
    requires
        in_expiry_order(queue),
    ensures
        0 <= k <= queue.len(),
        forall|i: int| 0 <= i < k ==> queue[i].expires_at <= now,
        forall|i: int| k <= i < queue.len() ==> queue[i].expires_at > now,
    decreases queue.len(),
{
    if queue.len() == 0 {
        0
    } else if queue.last().expires_at <= now {
        assert forall|i: int| 0 <= i < queue.len() implies queue[i].expires_at <= now by {
            if i < queue.len() - 1 {
                assert(queue[i].expires_at <= queue[queue.len() - 1].expires_at);
            }
        }
        queue.len() as int
    } else {
        let front = queue.drop_last();
        assert forall|i: int, j: int| 0 <= i < j < front.len() implies front[i].expires_at
            <= front[j].expires_at by {
            assert(queue[i].expires_at <= queue[j].expires_at);
        }
        let k = lemma_expired_boundary(front, now);
        assert forall|i: int| k <= i < queue.len() implies queue[i].expires_at > now by {
            if i < front.len() {
                assert(front[i].expires_at > now);
            }
        }
        assert forall|i: int| 0 <= i < k implies queue[i].expires_at <= now by {
            assert(front[i].expires_at <= now);
        }
        k
    }
}

/// Putting the same entry twice is putting it once.
pub proof fn lemma_replaced_twice(queue: Seq<SigEntry>, entry: SigEntry)
    requires
        distinct_pairs(queue),
        in_expiry_order(queue),
    ensures
        replaced(replaced(queue, entry), entry) == replaced(queue, entry),
{
    let rest = without(queue, pair_of(entry));
    let once = replaced(queue, entry);
    let at = expired_count(rest, entry.expires_at) as int;
    lemma_replaced(queue, entry);
    rest.lemma_filter_len(has_expired(entry.expires_at));
    lemma_without_at(once, at);
    assert(once.remove(at) =~= rest);
}

/// The entries of a queue from which `pruned` entries were taken off the
/// front stand for the pairs of the queue but those of the entries taken.
proof fn lemma_pairs_of_skip(queue: Seq<SigEntry>, pruned: int)
    requires
        distinct_pairs(queue),
        0 <= pruned <= queue.len(),
    ensures
        pairs_of(queue.skip(pruned)) == pairs_of(queue).difference(pairs_of(queue.take(pruned))),
        distinct_pairs(queue.skip(pruned)),
{
    let gone = queue.take(pruned);
    let rest = queue.skip(pruned);
    assert forall|p: (Seq<u8>, Seq<u8>)| pairs_of(rest).contains(p) <==> pairs_of(
        queue,
    ).difference(pairs_of(gone)).contains(p) by {
        if pairs_of(rest).contains(p) {
            let i = choose|i: int| 0 <= i < rest.len() && pair_of(rest[i]) == p;
            assert(pair_of(queue[i + pruned]) == p);
            if pairs_of(gone).contains(p) {
                let j = choose|j: int| 0 <= j < gone.len() && pair_of(gone[j]) == p;
                assert(pair_of(queue[j]) == pair_of(queue[i + pruned]));
            }
        }
        if pairs_of(queue).difference(pairs_of(gone)).contains(p) {
            let i = choose|i: int| 0 <= i < queue.len() && pair_of(queue[i]) == p;
            if i < pruned {
                assert(pair_of(gone[i]) == p);
            } else {
                assert(pair_of(rest[i - pruned]) == p);
            }
        }
    }
    assert(pairs_of(rest) =~= pairs_of(queue).difference(pairs_of(gone)));
    assert forall|i: int, j: int| 0 <= i < j < rest.len() implies pair_of(rest[i]) != pair_of(
        rest[j],
    ) by {
        assert(pair_of(queue[i + pruned]) != pair_of(queue[j + pruned]));
    }
}

/// Takes the entry of a pair out of a queue.
fn withdraw(queue: &mut Vec<SigExpiration>, seed_hash: &Hash32, message_hash: &Hash32)
    requires
        distinct_pairs(entries_of(old(queue)@)),
    ensures
        entries_of(final(queue)@) == without(
            entries_of(old(queue)@),
            (seed_hash@, message_hash@),
        ),
{
    let ghost entries = entries_of(queue@);
    let ghost pair = (seed_hash@, message_hash@);
    let mut i: usize = 0;
    while i < queue.len()
        invariant
            i <= queue@.len(),
            entries == entries_of(queue@),
            queue@ == old(queue)@,
            pair == (seed_hash@, message_hash@),
            distinct_pairs(entries),
            forall|k: int| 0 <= k < i ==> pair_of(entries[k]) != pair,
        decreases queue@.len() - i,
    {
        assert(entries[i as int] == queue@[i as int]@);
        if same_bytes(queue[i].seed_hash.as_slice(), seed_hash.as_slice()) && same_bytes(
            queue[i].msg_hash.as_slice(),
            message_hash.as_slice(),
        ) {
            proof {
                lemma_without_at(entries, i as int);
            }
            queue.remove(i);
            assert(entries_of(queue@) =~= entries.remove(i as int));
            return ;
        }
        i = i + 1;
    }
    proof {
        if pairs_of(entries).contains(pair) {
            let k = choose|k: int| 0 <= k < entries.len() && pair_of(entries[k]) == pair;
            assert(pair_of(entries[k]) != pair);
        }
        lemma_without_absent(entries, pair);
    }
}

/// The certified signature store.
pub struct SignatureMap {
    certified_map: CertifiedTree,
    expiration_queue: Vec<SigExpiration>,
}

impl SignatureMap {
    /// The pairs that are certified.
    pub closed spec fn certified(&self) -> Set<(Seq<u8>, Seq<u8>)> {
        certified_pairs(self.certified_map)
    }

    /// The root hash that stands for what is certified. It may change
    /// whenever a pair is put or removed.
    pub closed spec fn root(&self) -> Seq<u8> {
        certified_root(self.certified_map)
    }

    /// The expirations, soonest first; of two that expire together, the one
    /// that was put first.
    pub closed spec fn queue(&self) -> Seq<SigEntry> {
        entries_of(self.expiration_queue@)
    }

    /// The certified signature for a pair: the self-describing CBOR document
    /// of the structure `CanisterSig` with the data certificate and the hash
    /// tree that leads from the certified root to the signature. The tree is
    /// the witness of the pair under the label `sig`, forked with the pruned
    /// root hash of the assets if there is one.
    pub closed spec fn signature_of(
        &self,
        seed_hash: Seq<u8>,
        message_hash: Seq<u8>,
        certificate: Seq<u8>,
        assets_root_hash: Option<Seq<u8>>,
    ) -> Seq<u8> {
        let sigs_tree = labeled_of(
            sig_label(),
            witness_of(self.certified_map, seed_hash, message_hash),
        );
        let tree = match assets_root_hash {
            Some(hash) => fork_of(pruned_of(hash), sigs_tree),
            None => sigs_tree,
        };
        cbor_of_bytes_and_tree("CanisterSig"@, "certificate"@, certificate, "tree"@, tree)
    }

    /// The queue stands in expiry order, every certified pair has one entry
    /// in it, and it has no other entries.
    pub open spec fn wf(&self) -> bool {
        &&& in_expiry_order(self.queue())
        &&& distinct_pairs(self.queue())
        &&& self.certified() == pairs_of(self.queue())
    }

    /// A store that certifies nothing.
    pub fn new() -> (sigs: Self)
        ensures
            sigs.wf(),
            sigs.certified() == Set::<(Seq<u8>, Seq<u8>)>::empty(),
            sigs.queue() == Seq::<SigEntry>::empty(),
    {
        let sigs = SignatureMap { certified_map: empty_tree(), expiration_queue: Vec::new() };
        assert(sigs.queue() =~= Seq::<SigEntry>::empty());
        assert(pairs_of(sigs.queue()) =~= Set::<(Seq<u8>, Seq<u8>)>::empty());
        sigs
    }

    /// Certifies the signature for `seed` and `message_hash` until
    /// `signature_expires_at`. If the pair was certified before, its expiry
    /// is overwritten; every other entry stays as it is. The root hash may
    /// change: it has to be published again before the signature can be
    /// handed out.
    pub fn put(&mut self, seed: &[u8], message_hash: Hash32, signature_expires_at: u64)
        requires
            old(self).wf(),
        ensures
            final(self).wf(),
            final(self).certified() == old(self).certified().insert(
                (sha256_of(seed@), message_hash@),
            ),
            final(self).queue() == replaced(
                old(self).queue(),
                (SigEntry {
                    expires_at: signature_expires_at,
                    seed_hash: sha256_of(seed@),
                    msg_hash: message_hash@,
                }),
            ),
            final(self).queue().len() == if old(self).certified().contains(
                (sha256_of(seed@), message_hash@),
            ) {
                old(self).queue().len()
            } else {
                old(self).queue().len() + 1
            },
    {
        let seed_hash = sha256(seed);
        let entry = SigExpiration {
            expires_at: signature_expires_at,
            seed_hash,
            msg_hash: message_hash,
        };
        let ghost before = entries_of(self.expiration_queue@);
        proof {
            lemma_replaced(before, entry@);
            lemma_without(before, pair_of(entry@));
        }
        withdraw(&mut self.expiration_queue, &seed_hash, &message_hash);
        insert_pair(&mut self.certified_map, &seed_hash, &message_hash);
        let ghost queue = entries_of(self.expiration_queue@);
        let mut at: usize = self.expiration_queue.len();
        while at > 0 && self.expiration_queue[at - 1].expires_at > signature_expires_at
            invariant
                at <= queue.len(),
                entries_of(self.expiration_queue@) == queue,
                forall|i: int| at <= i < queue.len() ==> queue[i].expires_at > signature_expires_at,
            decreases at,
        {
            assert(queue[at - 1] == self.expiration_queue@[at - 1]@);
            at = at - 1;
        }
        proof {
            if at > 0 {
                assert(queue[at - 1] == self.expiration_queue@[at - 1]@);
            }
            assert forall|i: int| 0 <= i < at implies queue[i].expires_at
                <= signature_expires_at by {
                assert(queue[i].expires_at <= queue[at - 1].expires_at);
            }
            lemma_expired_prefix(queue, signature_expires_at, at as int);
        }
        self.expiration_queue.insert(at, entry);
        proof {
            assert(entries_of(self.expiration_queue@) =~= queue.insert(at as int, entry@));
        }
    }

    /// Withdraws the certification of one pair, and its entry with it.
    pub fn delete(&mut self, seed_hash: Hash32, message_hash: Hash32)
        requires
            old(self).wf(),
        ensures
            final(self).wf(),
            final(self).certified() == old(self).certified().remove((seed_hash@, message_hash@)),
            final(self).queue() == without(old(self).queue(), (seed_hash@, message_hash@)),
    {
        proof {
            lemma_without(self.queue(), (seed_hash@, message_hash@));
        }
        withdraw(&mut self.expiration_queue, &seed_hash, &message_hash);
        delete_pair(&mut self.certified_map, &seed_hash, &message_hash);
    }

    /// Removes the signatures that have expired at `now`, soonest first, but
    /// at most `max_to_prune` of them, and returns how many it removed. Where
    /// that is more than none the root hash has changed.
    pub fn prune_expired(&mut self, now: u64, max_to_prune: usize) -> (num_pruned: usize)
        requires
            old(self).wf(),
        ensures
            final(self).wf(),
            num_pruned == pruned_count(old(self).queue(), now, max_to_prune),
            num_pruned <= max_to_prune,
            num_pruned <= old(self).queue().len(),
            num_pruned == 0 ==> final(self).root() == old(self).root(),
            final(self).queue() == old(self).queue().skip(num_pruned as int),
            final(self).certified() == old(self).certified().difference(
                pairs_of(old(self).queue().take(num_pruned as int)),
            ),
    {
        let ghost queue = entries_of(self.expiration_queue@);
        let ghost certified = self.certified();
        let mut num_pruned: usize = 0;
        proof {
            assert(certified.difference(pairs_of(queue.take(0))) =~= certified);
        }
        while num_pruned < max_to_prune && num_pruned < self.expiration_queue.len()
            && self.expiration_queue[num_pruned].expires_at <= now
            invariant
                num_pruned <= max_to_prune,
                num_pruned <= queue.len(),
                entries_of(self.expiration_queue@) == queue,
                forall|i: int| 0 <= i < num_pruned ==> queue[i].expires_at <= now,
                certified_pairs(self.certified_map) == certified.difference(
                    pairs_of(queue.take(num_pruned as int)),
                ),
                num_pruned == 0 ==> self.certified_map == old(self).certified_map,
            decreases queue.len() - num_pruned,
        {
            let oldest = self.expiration_queue[num_pruned];
            delete_pair(&mut self.certified_map, &oldest.seed_hash, &oldest.msg_hash);
            proof {
                let expiration = oldest@;
                assert(queue[num_pruned as int] == expiration);
                let done = queue.take(num_pruned as int);
                let more = queue.take(num_pruned + 1);
                assert(more =~= done.push(expiration));
                assert forall|pair: (Seq<u8>, Seq<u8>)| pairs_of(more).contains(pair) <==> (
                pairs_of(done).contains(pair) || pair == pair_of(expiration)) by {
                    if pairs_of(more).contains(pair) {
                        let i = choose|i: int| 0 <= i < more.len() && pair_of(more[i]) == pair;
                        if i < done.len() {
                            assert(pair_of(done[i]) == pair);
                        }
                    }
                    if pairs_of(done).contains(pair) {
                        let i = choose|i: int| 0 <= i < done.len() && pair_of(done[i]) == pair;
                        assert(pair_of(more[i]) == pair);
                    }
                    if pair == pair_of(expiration) {
                        assert(pair_of(more[num_pruned as int]) == pair);
                    }
                }
                assert(certified.difference(pairs_of(done)).remove(pair_of(expiration))
                    =~= certified.difference(pairs_of(more)));
            }
            num_pruned = num_pruned + 1;
        }
        proof {
            if num_pruned < self.expiration_queue.len() {
                assert(queue[num_pruned as int] == self.expiration_queue@[num_pruned as int]@);
            }
            if num_pruned < max_to_prune {
                assert forall|i: int| num_pruned <= i < queue.len() implies queue[i].expires_at
                    > now by {
                    assert(queue[num_pruned as int].expires_at <= queue[i].expires_at);
                }
                lemma_expired_prefix(queue, now, num_pruned as int);
            } else {
                let rest = queue.skip(num_pruned as int);
                assert(queue =~= queue.take(num_pruned as int) + rest);
                Seq::filter_distributes_over_add(
                    queue.take(num_pruned as int),
                    rest,
                    has_expired(now),
                );
                lemma_expired_prefix(queue.take(num_pruned as int), now, num_pruned as int);
            }
            lemma_pairs_of_skip(queue, num_pruned as int);
        }
        let rest = self.expiration_queue.split_off(num_pruned);
        self.expiration_queue = rest;
        proof {
            let after = entries_of(self.expiration_queue@);
            assert(after =~= queue.skip(num_pruned as int));
        }
        num_pruned
    }

    /// The number of certified signatures.
    pub fn len(&self) -> (n: usize)
        ensures
            n == self.queue().len(),
    {
        self.expiration_queue.len()
    }

    /// Whether no signature is certified.
    pub fn is_empty(&self) -> (empty: bool)
        ensures
            empty == (self.queue().len() == 0),
    {
        self.expiration_queue.len() == 0
    }

    /// The root hash of the certified tree. It stands for everything that is
    /// certified: a signature can be handed out once the root hash that was
    /// taken after its pair was put has been published.
    pub fn root_hash(&self) -> (hash: Hash32)
        ensures
            hash@ == self.root(),
    {
        tree_root_hash(&self.certified_map)
    }

    /// Whether the signature for `seed` and `message_hash` is certified.
    pub fn contains(&self, seed: &[u8], message_hash: Hash32) -> (found: bool)
        ensures
            found == self.certified().contains((sha256_of(seed@), message_hash@)),
    {
        let seed_hash = sha256(seed);
        has_pair(&self.certified_map, &seed_hash, &message_hash)
    }

    /// The certified signature for `seed` and `message_hash`, as
    /// `signature_of` spells it out. Where the canister certifies its assets
    /// too, the caller hands in their root hash. Without a data certificate
    /// there is no signature, nor for a pair that is not certified.
    pub fn get_signature_as_cbor(
        &self,
        seed: &[u8],
        message_hash: Hash32,
        certificate: Option<&[u8]>,
        maybe_certified_assets_root_hash: Option<Hash32>,
    ) -> (signature: Result<Vec<u8>, CanisterSigError>)
        ensures
            certificate is None ==> signature == Err::<Vec<u8>, CanisterSigError>(
                CanisterSigError::NoCertificate,
            ),
            certificate is Some && !self.certified().contains((sha256_of(seed@), message_hash@))
                ==> signature == Err::<Vec<u8>, CanisterSigError>(CanisterSigError::NoSignature),
            certificate is Some && self.certified().contains((sha256_of(seed@), message_hash@))
                ==> (signature matches Ok(cbor) && cbor@ == self.signature_of(
                sha256_of(seed@),
                message_hash@,
                certificate->0@,
                root_view(maybe_certified_assets_root_hash),
            ) && self_describing_tag().is_prefix_of(cbor@)),
    {
        let certificate = match certificate {
            Some(certificate) => certificate,
            None => {
                return Err(CanisterSigError::NoCertificate);
            },
        };
        let seed_hash = sha256(seed);
        if !has_pair(&self.certified_map, &seed_hash, &message_hash) {
            return Err(CanisterSigError::NoSignature);
        }
        let witness = pair_witness(&self.certified_map, &seed_hash, &message_hash);
        let label: [u8; 3] = [115, 105, 103];
        assert(label@ =~= sig_label());
        let sigs_tree = labeled_tree(label.as_slice(), witness);
        let tree = match maybe_certified_assets_root_hash {
            Some(certified_assets_root_hash) => fork_tree(
                pruned_tree(certified_assets_root_hash),
                sigs_tree,
            ),
            None => sigs_tree,
        };
        Ok(encode_bytes_and_tree("CanisterSig", "certificate", certificate, "tree", &tree))
    }
}

} // verus!
