//! The lexicographic order on byte strings, and sorting by it.

use vstd::prelude::*;
use vstd::multiset::Multiset;
use vstd::relations::{sorted_by, total_ordering};
use vstd::seq_lib::{lemma_sorted_unique, to_multiset_build, to_multiset_remove};

verus! {

/// `a` comes before `b`, or equals it, in the lexicographic order: at the
/// first position where they differ `a` has the smaller byte, or `a` is a
/// prefix of `b`.
pub open spec fn lex_le(a: Seq<u8>, b: Seq<u8>) -> bool
    decreases a.len(),
{
    if a.len() == 0 {
        true
    } else if b.len() == 0 {
        false
    } else if a[0] != b[0] {
        a[0] < b[0]
    } else {
        lex_le(a.drop_first(), b.drop_first())
    }
}

/// `lex_le` as a relation.
pub open spec fn lex_order() -> spec_fn(Seq<u8>, Seq<u8>) -> bool {
    |a: Seq<u8>, b: Seq<u8>| lex_le(a, b)
}

/// The byte strings that a sequence of vectors holds.
pub open spec fn rows(v: Seq<Vec<u8>>) -> Seq<Seq<u8>> {
    Seq::new(v.len(), |i: int| v[i]@)
}

proof fn lemma_lex_le_reflexive(a: Seq<u8>)
    ensures
        lex_le(a, a),
    decreases a.len(),
{
    if a.len() > 0 {
        lemma_lex_le_reflexive(a.drop_first());
    }
}

proof fn lemma_lex_le_antisymmetric(a: Seq<u8>, b: Seq<u8>)
    requires
        lex_le(a, b),
        lex_le(b, a),
    ensures
        a == b,
    decreases a.len(),
{
    if a.len() == 0 || b.len() == 0 {
        assert(a =~= b);
    } else {
        lemma_lex_le_antisymmetric(a.drop_first(), b.drop_first());
        assert(a =~= seq![a[0]] + a.drop_first());
        assert(b =~= seq![b[0]] + b.drop_first());
    }
}

proof fn lemma_lex_le_transitive(a: Seq<u8>, b: Seq<u8>, c: Seq<u8>)
    requires
        lex_le(a, b),
        lex_le(b, c),
    ensures
        lex_le(a, c),
    decreases a.len(),
{
    if a.len() > 0 && a[0] == b[0] && b[0] == c[0] {
        lemma_lex_le_transitive(a.drop_first(), b.drop_first(), c.drop_first());
    }
}

proof fn lemma_lex_le_connected(a: Seq<u8>, b: Seq<u8>)
    ensures
        lex_le(a, b) || lex_le(b, a),
    decreases a.len(),
{
    if a.len() > 0 && b.len() > 0 && a[0] == b[0] {
        lemma_lex_le_connected(a.drop_first(), b.drop_first());
    }
}

/// The lexicographic order is a total order.
pub proof fn lemma_lex_order_total()
    ensures
        total_ordering(lex_order()),
{
    let r = lex_order();
    assert forall|x: Seq<u8>| #[trigger] r(x, x) by {
        lemma_lex_le_reflexive(x);
    }
    assert forall|x: Seq<u8>, y: Seq<u8>| #[trigger] r(x, y) && #[trigger] r(y, x) implies x
        == y by {
        lemma_lex_le_antisymmetric(x, y);
    }
    assert forall|x: Seq<u8>, y: Seq<u8>, z: Seq<u8>| #[trigger]
        r(x, y) && #[trigger] r(y, z) implies r(x, z) by {
        lemma_lex_le_transitive(x, y, z);
    }
    assert forall|x: Seq<u8>, y: Seq<u8>| #[trigger] r(x, y) || #[trigger] r(y, x) by {
        lemma_lex_le_connected(x, y);
    }
}

/// Byte strings of one width `w` that are joined one after the other can be
/// told apart again: two such lists with the same joined bytes are equal.
pub proof fn lemma_flatten_fixed_width_injective(xs: Seq<Seq<u8>>, ys: Seq<Seq<u8>>, w: nat)
    requires
        w > 0,
        forall|i: int| 0 <= i < xs.len() ==> (#[trigger] xs[i]).len() == w,
        forall|i: int| 0 <= i < ys.len() ==> (#[trigger] ys[i]).len() == w,
        xs.flatten() == ys.flatten(),
    ensures
        xs == ys,
    decreases xs.len(),
{
    if xs.len() == 0 {
        if ys.len() > 0 {
            assert(ys.flatten().len() >= ys.first().len());
        }
        assert(xs =~= ys);
    } else if ys.len() == 0 {
        assert(xs.flatten().len() >= xs.first().len());
    } else {
        let joined = xs.flatten();
        assert(xs.first() =~= joined.subrange(0, w as int));
        assert(ys.first() =~= joined.subrange(0, w as int));
        assert(xs.drop_first().flatten() =~= joined.subrange(w as int, joined.len() as int));
        assert(ys.drop_first().flatten() =~= joined.subrange(w as int, joined.len() as int));
        assert forall|i: int| 0 <= i < xs.drop_first().len() implies (#[trigger] xs.drop_first()[i]).len()
            == w by {
            assert(xs.drop_first()[i] == xs[i + 1]);
        }
        assert forall|i: int| 0 <= i < ys.drop_first().len() implies (#[trigger] ys.drop_first()[i]).len()
            == w by {
            assert(ys.drop_first()[i] == ys[i + 1]);
        }
        lemma_flatten_fixed_width_injective(xs.drop_first(), ys.drop_first(), w);
        assert(xs =~= seq![xs.first()] + xs.drop_first());
        assert(ys =~= seq![ys.first()] + ys.drop_first());
    }
}

/// Whether `a` comes before `b`, or equals it, in the lexicographic order.
pub fn bytes_le(a: &[u8], b: &[u8]) -> (le: bool)
    ensures
        le == lex_le(a@, b@),
{
    let mut i: usize = 0;
    proof {
        assert(a@.skip(0) =~= a@);
        assert(b@.skip(0) =~= b@);
    }
    while i < a.len() && i < b.len()
        invariant
            i <= a@.len(),
            i <= b@.len(),
            lex_le(a@, b@) == lex_le(a@.skip(i as int), b@.skip(i as int)),
        decreases a@.len() - i,
    {
        proof {
            assert(a@.skip(i as int).drop_first() =~= a@.skip(i + 1));
            assert(b@.skip(i as int).drop_first() =~= b@.skip(i + 1));
        }
        if a[i] != b[i] {
            return a[i] < b[i];
        }
        i = i + 1;
    }
    i == a.len()
}

/// Whether two byte strings are equal.
pub fn same_bytes(a: &[u8], b: &[u8]) -> (same: bool)
    ensures
        same == (a@ == b@),
{
    if a.len() != b.len() {
        return false;
    }
    let mut i: usize = 0;
    while i < a.len()
        invariant
            i <= a@.len(),
            a@.len() == b@.len(),
            a@.subrange(0, i as int) == b@.subrange(0, i as int),
        decreases a@.len() - i,
    {
        if a[i] != b[i] {
            return false;
        }
        assert(a@.subrange(0, i + 1) =~= a@.subrange(0, i as int).push(a@[i as int]));
        assert(b@.subrange(0, i + 1) =~= b@.subrange(0, i as int).push(b@[i as int]));
        i = i + 1;
    }
    assert(a@ =~= a@.subrange(0, i as int));
    assert(b@ =~= b@.subrange(0, i as int));
    true
}

/// A sequence without items holds no occurrence of anything.
proof fn lemma_empty_to_multiset(s: Seq<Seq<u8>>)
    requires
        s.len() == 0,
    ensures
        s.to_multiset() == Multiset::<Seq<u8>>::empty(),
{
    s.to_multiset_ensures();
    assert forall|a: Seq<u8>| s.to_multiset().count(a) == 0 by {
        assert(!s.contains(a));
    }
    assert(s.to_multiset() =~= Multiset::<Seq<u8>>::empty());
}

/// Inserting into a sequence adds one occurrence of the new item.
proof fn lemma_insert_to_multiset(s: Seq<Seq<u8>>, at: int, item: Seq<u8>)
    requires
        0 <= at <= s.len(),
    ensures
        s.insert(at, item).to_multiset() == s.to_multiset().insert(item),
{
    let t = s.insert(at, item);
    assert(t[at] == item);
    assert(t.remove(at) =~= s);
    to_multiset_remove(t, at);
    t.to_multiset_ensures();
    assert(t.contains(item));
    assert(t.to_multiset() =~= s.to_multiset().insert(item));
}

/// Sorts byte strings into lexicographic order.
pub fn sort_byte_strings(items: Vec<Vec<u8>>) -> (sorted: Vec<Vec<u8>>)
    ensures
        rows(sorted@) == rows(items@).sort_by(lex_order()),
{
    let ghost all = rows(items@);
    let mut rest = items;
    let mut sorted: Vec<Vec<u8>> = Vec::new();
    proof {
        lemma_empty_to_multiset(rows(sorted@));
        assert(rows(sorted@).to_multiset().add(rows(rest@).to_multiset()) =~= all.to_multiset());
    }
    while rest.len() > 0
        invariant
            sorted_by(rows(sorted@), lex_order()),
            rows(sorted@).to_multiset().add(rows(rest@).to_multiset()) == all.to_multiset(),
        decreases rest.len(),
    {
        let ghost before = rows(rest@);
        let ghost placed = rows(sorted@);
        let item = rest.pop().unwrap();
        proof {
            assert(before =~= rows(rest@).push(item@));
            to_multiset_build(rows(rest@), item@);
        }
        let mut at: usize = 0;
        while at < sorted.len() && bytes_le(sorted[at].as_slice(), item.as_slice())
            invariant
                at <= sorted.len(),
                forall|k: int| 0 <= k < at ==> lex_le(#[trigger] sorted@[k]@, item@),
            decreases sorted.len() - at,
        {
            at = at + 1;
        }
        proof {
            let after = placed.insert(at as int, item@);
            assert forall|i: int, j: int| 0 <= i < j < after.len() implies lex_le(
                after[i],
                after[j],
            ) by {
                if j == at {
                    assert(after[i] == sorted@[i]@);
                } else if i == at {
                    let next = sorted@[at as int]@;
                    assert(placed[at as int] == next);
                    assert(placed[j - 1] == after[j]);
                    lemma_lex_le_connected(next, item@);
                    if j - 1 > at {
                        assert(lex_order()(placed[at as int], placed[j - 1]));
                    }
                    lemma_lex_le_reflexive(next);
                    lemma_lex_le_transitive(item@, next, after[j]);
                } else {
                    let pi = if i < at { i } else { i - 1 };
                    let pj = if j < at { j } else { j - 1 };
                    assert(after[i] == placed[pi]);
                    assert(after[j] == placed[pj]);
                    assert(lex_order()(placed[pi], placed[pj]));
                }
            }
            lemma_insert_to_multiset(placed, at as int, item@);
        }
        sorted.insert(at, item);
        proof {
            assert(rows(sorted@) =~= placed.insert(at as int, item@));
            assert(rows(sorted@).to_multiset().add(rows(rest@).to_multiset()) =~= placed.to_multiset().add(
                before.to_multiset(),
            ));
        }
    }
    proof {
        lemma_empty_to_multiset(rows(rest@));
        assert(rows(sorted@).to_multiset() =~= all.to_multiset());
        lemma_lex_order_total();
        all.lemma_sort_by_ensures(lex_order());
        lemma_sorted_unique(rows(sorted@), all.sort_by(lex_order()), lex_order());
    }
    sorted
}

} // verus!
