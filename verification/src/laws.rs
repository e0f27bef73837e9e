//! Laws of the trie's XOR aggregation, stated over sequences of inserted
//! items. An item is ghost data here: the pair of its key path and its
//! 32-bit hash.

use vstd::prelude::*;
use vstd::seq_lib::commutative_foldr;
use vstd::seq_lib::lemma_fold_right_permutation;

use crate::trie::empty_merkle;
use crate::trie::hash_at;
use crate::trie::insert_rel;
use crate::trie::lemma_empty_paths;
use crate::trie::present_at;
use crate::trie::Merkle;

verus! {

/// The fold operator that XORs in the hash of an item whose key passes
/// through path `p` and skips every other item.
pub open spec fn path_fn(p: Seq<u8>) -> spec_fn((Seq<u8>, u32), u32) -> u32 {
    |it: (Seq<u8>, u32), acc: u32|
        if p.is_prefix_of(it.0) {
            it.1 ^ acc
        } else {
            acc
        }
}

/// XOR of the hashes of the items whose key passes through path `p`.
pub open spec fn path_xor(items: Seq<(Seq<u8>, u32)>, p: Seq<u8>) -> u32 {
    items.fold_right(path_fn(p), 0u32)
}

/// The trie `m` carries the aggregates of exactly the items `items`: at
/// every path, the node's aggregate hash is the XOR of the hashes of the
/// items whose key passes through that node.
pub open spec fn tracks(m: Merkle, items: Seq<(Seq<u8>, u32)>) -> bool {
    forall|p: Seq<u8>| #![trigger hash_at(m, p)] hash_at(m, p) == path_xor(items, p)
}

/// The item-hash projection.
pub open spec fn item_hash_fn() -> spec_fn((Seq<u8>, u32)) -> u32 {
    |it: (Seq<u8>, u32)| it.1
}

/// The plain XOR fold operator.
pub open spec fn xor_fn() -> spec_fn(u32, u32) -> u32 {
    |x: u32, acc: u32| x ^ acc
}

/// XOR of all hashes in a sequence.
pub open spec fn xor_all(hs: Seq<u32>) -> u32 {
    hs.fold_right(xor_fn(), 0u32)
}

/// The path fold operator is commutative, because XOR is.
pub proof fn lemma_path_fn_commutative(p: Seq<u8>)
    ensures
        commutative_foldr(path_fn(p)),
{
    let f = path_fn(p);
    assert forall|x: (Seq<u8>, u32), y: (Seq<u8>, u32), v: u32| #[trigger] f(x, f(y, v)) == f(
        y,
        f(x, v),
    ) by {
        let a = x.1;
        let b = y.1;
        assert(a ^ (b ^ v) == b ^ (a ^ v)) by (bit_vector);
    }
}

proof fn lemma_path_xor_base(items: Seq<(Seq<u8>, u32)>, p: Seq<u8>, base: u32)
    ensures
        items.fold_right(path_fn(p), base) == path_xor(items, p) ^ base,
    decreases items.len(),
{
    let f = path_fn(p);
    if items.len() == 0 {
        assert(0u32 ^ base == base) by (bit_vector);
    } else {
        let l = items.drop_last();
        let x = items.last();
        if p.is_prefix_of(x.0) {
            lemma_path_xor_base(l, p, (x.1 ^ base) as u32);
            lemma_path_xor_base(l, p, (x.1 ^ 0u32) as u32);
            let q = path_xor(l, p);
            let a = x.1;
            assert(q ^ (a ^ base) == (q ^ (a ^ 0)) ^ base) by (bit_vector);
        } else {
            lemma_path_xor_base(l, p, base);
            lemma_path_xor_base(l, p, 0u32);
            let q = path_xor(l, p);
            assert(q ^ base == (q ^ 0) ^ base) by (bit_vector);
        }
    }
}

/// The empty trie tracks the empty item sequence: every aggregate is zero.
pub proof fn lemma_tracks_empty()
    ensures
        tracks(empty_merkle(), Seq::<(Seq<u8>, u32)>::empty()),
{
    assert forall|p: Seq<u8>| #![trigger hash_at(empty_merkle(), p)] hash_at(empty_merkle(), p)
        == path_xor(Seq::<(Seq<u8>, u32)>::empty(), p) by {
        lemma_empty_paths(p);
    }
}

/// Inserting one more item extends the tracked item sequence: aggregation
/// is maintained by every insertion, at every node.
pub proof fn lemma_tracks_insert(
    m: Merkle,
    r: Merkle,
    items: Seq<(Seq<u8>, u32)>,
    k: Seq<u8>,
    h: u32,
)
    requires
        tracks(m, items),
        insert_rel(m, r, k, h),
    ensures
        tracks(r, items.push((k, h))),
{
    let it = (k, h);
    assert forall|p: Seq<u8>| #![trigger hash_at(r, p)] hash_at(r, p) == path_xor(
        items.push(it),
        p,
    ) by {
        let f = path_fn(p);
        assert(items.push(it).drop_last() =~= items);
        assert(items.push(it).last() == it);
        lemma_path_xor_base(items, p, f(it, 0u32));
        let q = path_xor(items, p);
        if p.is_prefix_of(k) {
            assert(hash_at(r, p) == hash_at(m, p) ^ h);
            assert(q ^ (h ^ 0) == q ^ h) by (bit_vector);
        } else {
            assert(hash_at(r, p) == hash_at(m, p));
            assert(q ^ 0 == q) by (bit_vector);
        }
    }
}

proof fn lemma_xor_all_base(hs: Seq<u32>, base: u32)
    ensures
        hs.fold_right(xor_fn(), base) == xor_all(hs) ^ base,
    decreases hs.len(),
{
    if hs.len() == 0 {
        assert(0u32 ^ base == base) by (bit_vector);
    } else {
        let l = hs.drop_last();
        let x = hs.last();
        lemma_xor_all_base(l, (x ^ base) as u32);
        lemma_xor_all_base(l, (x ^ 0u32) as u32);
        let q = xor_all(l);
        assert(q ^ (x ^ base) == (q ^ (x ^ 0)) ^ base) by (bit_vector);
    }
}

proof fn lemma_path_xor_root(items: Seq<(Seq<u8>, u32)>)
    ensures
        path_xor(items, Seq::<u8>::empty()) == xor_all(items.map_values(item_hash_fn())),
    decreases items.len(),
{
    let e = Seq::<u8>::empty();
    if items.len() == 0 {
    } else {
        let l = items.drop_last();
        let x = items.last();
        lemma_path_xor_root(l);
        assert(e.is_prefix_of(x.0)) by {
            assert(e =~= x.0.subrange(0, 0));
        }
        let f = path_fn(e);
        lemma_path_xor_base(l, e, f(x, 0u32));
        assert(items.map_values(item_hash_fn()).drop_last() =~= l.map_values(item_hash_fn()));
        assert(items.map_values(item_hash_fn()).last() == x.1);
        lemma_xor_all_base(l.map_values(item_hash_fn()), (x.1 ^ 0u32) as u32);
    }
}

/// Aggregation invariant at the root: after inserting the items `items`
/// into the empty trie, the root's aggregate hash is the XOR of all their
/// hashes.
pub proof fn lemma_root_aggregate(m: Merkle, items: Seq<(Seq<u8>, u32)>)
    requires
        tracks(m, items),
    ensures
        m.hash == xor_all(items.map_values(item_hash_fn())),
{
    assert(hash_at(m, Seq::<u8>::empty()) == path_xor(items, Seq::<u8>::empty()));
    lemma_path_xor_root(items);
}

/// Equal-set equivalence: two tries that track the same multiset of items —
/// built in any insertion orders — have identical aggregate hashes at every
/// corresponding node.
pub proof fn lemma_tracks_permutation(
    m1: Merkle,
    m2: Merkle,
    items1: Seq<(Seq<u8>, u32)>,
    items2: Seq<(Seq<u8>, u32)>,
)
    requires
        tracks(m1, items1),
        tracks(m2, items2),
        items1.to_multiset() == items2.to_multiset(),
    ensures
        forall|p: Seq<u8>| #![trigger hash_at(m1, p), hash_at(m2, p)] hash_at(m1, p) == hash_at(
            m2,
            p,
        ),
{
    assert forall|p: Seq<u8>| #![trigger hash_at(m1, p), hash_at(m2, p)] hash_at(m1, p) == hash_at(
        m2,
        p,
    ) by {
        lemma_path_fn_commutative(p);
        lemma_fold_right_permutation(items1, items2, path_fn(p), 0u32);
    }
}

/// Self-cancellation: inserting the same item twice restores every
/// aggregate hash to what it was before the two insertions — a documented
/// consequence of XOR aggregation, not a bug. The nodes created along the
/// key's path remain present.
pub proof fn lemma_self_cancellation(m: Merkle, r1: Merkle, r2: Merkle, k: Seq<u8>, h: u32)
    requires
        insert_rel(m, r1, k, h),
        insert_rel(r1, r2, k, h),
    ensures
        forall|p: Seq<u8>| #![trigger hash_at(r2, p)] hash_at(r2, p) == hash_at(m, p),
        forall|p: Seq<u8>| #![trigger present_at(r2, p)] present_at(r2, p) == (present_at(m, p)
            || p.is_prefix_of(k)),
{
    assert forall|p: Seq<u8>| #![trigger hash_at(r2, p)] hash_at(r2, p) == hash_at(m, p) by {
        if p.is_prefix_of(k) {
            let x = hash_at(m, p);
            assert((x ^ h) ^ h == x) by (bit_vector);
        }
    }
}

/// Self-cancellation seen from an empty trie: inserting the same item twice
/// into a fresh trie returns the root's aggregate hash to zero.
pub proof fn lemma_self_cancellation_empty(r1: Merkle, r2: Merkle, k: Seq<u8>, h: u32)
    requires
        insert_rel(empty_merkle(), r1, k, h),
        insert_rel(r1, r2, k, h),
    ensures
        r2.hash == 0,
{
    lemma_self_cancellation(empty_merkle(), r1, r2, k, h);
    assert(hash_at(r2, Seq::<u8>::empty()) == hash_at(empty_merkle(), Seq::<u8>::empty()));
}

} // verus!
