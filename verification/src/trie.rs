//! The Merkle trie: a ternary tree of fixed depth `KEY_LEN` whose every node
//! carries the XOR of the hashes of all items inserted into its subtree.
//!
//! Because XOR is its own inverse, inserting the same item an even number of
//! times cancels it out of every aggregate, and two different item sets can
//! coincidentally share an aggregate: comparison is a candidate-divergence
//! filter, not an exact set-equality test.

use vstd::prelude::*;

use crate::codec::bucket_key;
use crate::codec::bucket_of;
use crate::codec::pow3;
use crate::codec::wf_key;
use crate::codec::CodecError;
use crate::codec::Key;
use crate::ts::Timestamp;
use crate::BUCKET_MILLIS;
use crate::KEY_LEN;
use crate::MILLIS_LIMIT;
use crate::NODE_LIMIT;
use crate::NUM_BUCKETS;

verus! {

/// A trie node. A node at depth `i` stands for all inserted items whose
/// key's first `i` digits match the path from the root to the node;
/// `hash` is the XOR of the hashes of every item inserted into that set.
#[derive(Debug, PartialEq)]
pub struct Merkle {
    /// Subtree of items whose next key digit is 0.
    pub zero: Option<Box<Merkle>>,
    /// Subtree of items whose next key digit is 1.
    pub one: Option<Box<Merkle>>,
    /// Subtree of items whose next key digit is 2.
    pub two: Option<Box<Merkle>>,
    /// XOR of the hashes of all items inserted into this node's subtree.
    pub hash: u32,
}

/// The empty node: no children, aggregate hash zero.
pub open spec fn empty_merkle() -> Merkle {
    (Merkle { zero: None, one: None, two: None, hash: 0 })
}

/// The child of a node under one key digit; digits outside {0, 1, 2}
/// address no child.
pub open spec fn spec_child(m: Merkle, d: u8) -> Option<Box<Merkle>> {
    if d == 0 {
        m.zero
    } else if d == 1 {
        m.one
    } else if d == 2 {
        m.two
    } else {
        None
    }
}

/// Whether a node exists at the end of path `p`.
pub open spec fn present_at(m: Merkle, p: Seq<u8>) -> bool
    decreases p.len(),
{
    if p.len() == 0 {
        true
    } else {
        match spec_child(m, p[0]) {
            Some(c) => present_at(*c, p.drop_first()),
            None => false,
        }
    }
}

/// The aggregate hash of the node at the end of path `p`; an absent node
/// counts as the empty node, with aggregate hash zero.
pub open spec fn hash_at(m: Merkle, p: Seq<u8>) -> u32
    decreases p.len(),
{
    if p.len() == 0 {
        m.hash
    } else {
        match spec_child(m, p[0]) {
            Some(c) => hash_at(*c, p.drop_first()),
            None => 0u32,
        }
    }
}

/// What one insertion does to the whole trie, path by path: every node on
/// the inserted key's path (the root included) has its aggregate hash XORed
/// with the item's hash and exists afterwards; every other path is
/// untouched.
pub open spec fn insert_rel(m: Merkle, r: Merkle, k: Seq<u8>, h: u32) -> bool {
    &&& forall|p: Seq<u8>|
        #![trigger hash_at(r, p)]
        hash_at(r, p) == (if p.is_prefix_of(k) {
            hash_at(m, p) ^ h
        } else {
            hash_at(m, p)
        })
    &&& forall|p: Seq<u8>|
        #![trigger present_at(r, p)]
        present_at(r, p) == (present_at(m, p) || p.is_prefix_of(k))
}

/// Every path of the empty node has aggregate hash zero, and no proper path
/// leads to a node.
pub proof fn lemma_empty_paths(p: Seq<u8>)
    ensures
        hash_at(empty_merkle(), p) == 0,
        p.len() > 0 ==> !present_at(empty_merkle(), p),
    decreases p.len(),
{
    if p.len() > 0 {
        assert(spec_child(empty_merkle(), p[0]) is None);
    }
}

proof fn lemma_unchanged_paths(m: Merkle, r: Merkle, p: Seq<u8>)
    requires
        r.zero == m.zero,
        r.one == m.one,
        r.two == m.two,
        p.len() > 0,
    ensures
        hash_at(r, p) == hash_at(m, p),
        present_at(r, p) == present_at(m, p),
{
    assert(spec_child(r, p[0]) == spec_child(m, p[0]));
}

proof fn lemma_prefix_cons(p: Seq<u8>, k: Seq<u8>)
    requires
        p.len() > 0,
        k.len() > 0,
    ensures
        p.is_prefix_of(k) <==> (p[0] == k[0] && p.drop_first().is_prefix_of(k.drop_first())),
{
    if p.is_prefix_of(k) {
        assert(p =~= k.subrange(0, p.len() as int));
        assert forall|i: int| 0 <= i < p.drop_first().len() implies p.drop_first()[i]
            == k.drop_first().subrange(0, p.drop_first().len() as int)[i] by {
            assert(p.drop_first()[i] == p[i + 1]);
        }
        assert(p.drop_first() =~= k.drop_first().subrange(0, p.drop_first().len() as int));
    }
    if p[0] == k[0] && p.drop_first().is_prefix_of(k.drop_first()) {
        assert(p.drop_first() =~= k.drop_first().subrange(0, p.len() - 1));
        assert forall|i: int| 0 <= i < p.len() implies p[i] == k.subrange(0, p.len() as int)[i] by {
            if i > 0 {
                assert(p[i] == p.drop_first()[i - 1]);
                assert(p.drop_first()[i - 1] == k.drop_first()[i - 1]);
            }
        }
        assert(p =~= k.subrange(0, p.len() as int));
    }
}

proof fn lemma_insert_rel_terminal(m: Merkle, r: Merkle, h: u32)
    requires
        r.zero == m.zero,
        r.one == m.one,
        r.two == m.two,
        r.hash == m.hash ^ h,
    ensures
        insert_rel(m, r, Seq::empty(), h),
{
    let k = Seq::<u8>::empty();
    assert forall|p: Seq<u8>|
        #![trigger hash_at(r, p)]
        hash_at(r, p) == (if p.is_prefix_of(k) {
            hash_at(m, p) ^ h
        } else {
            hash_at(m, p)
        }) by {
        if p.len() == 0 {
            assert(p =~= k);
            assert(p.is_prefix_of(k));
        } else {
            assert(!p.is_prefix_of(k));
            lemma_unchanged_paths(m, r, p);
        }
    }
    assert forall|p: Seq<u8>|
        #![trigger present_at(r, p)]
        present_at(r, p) == (present_at(m, p) || p.is_prefix_of(k)) by {
        if p.len() == 0 {
            assert(p =~= k);
        } else {
            assert(!p.is_prefix_of(k));
            lemma_unchanged_paths(m, r, p);
        }
    }
}

proof fn lemma_insert_rel_step(m: Merkle, r: Merkle, c: Merkle, nc: Merkle, k: Seq<u8>, h: u32)
    requires
        k.len() > 0,
        k[0] < 3,
        match spec_child(m, k[0]) {
            Some(b) => c == *b,
            None => c == empty_merkle(),
        },
        insert_rel(c, nc, k.drop_first(), h),
        r.hash == m.hash ^ h,
        spec_child(r, k[0]) matches Some(b) && *b == nc,
        forall|d: u8| d != k[0] ==> #[trigger] spec_child(r, d) == spec_child(m, d),
    ensures
        insert_rel(m, r, k, h),
{
    let d = k[0];
    let kr = k.drop_first();
    assert forall|p: Seq<u8>|
        #![trigger hash_at(r, p)]
        hash_at(r, p) == (if p.is_prefix_of(k) {
            hash_at(m, p) ^ h
        } else {
            hash_at(m, p)
        }) by {
        if p.len() == 0 {
            assert(p =~= k.subrange(0, 0));
            assert(p.is_prefix_of(k));
            assert(hash_at(r, p) == r.hash);
        } else {
            let pr = p.drop_first();
            lemma_prefix_cons(p, k);
            if p[0] == d {
                assert(hash_at(r, p) == hash_at(nc, pr));
                // The subtree below the inserted digit relates to `c`.
                assert(hash_at(nc, pr) == (if pr.is_prefix_of(kr) {
                    hash_at(c, pr) ^ h
                } else {
                    hash_at(c, pr)
                }));
                match spec_child(m, d) {
                    Some(b) => {
                        assert(hash_at(m, p) == hash_at(c, pr));
                    },
                    None => {
                        lemma_empty_paths(pr);
                        assert(hash_at(m, p) == 0);
                        assert(hash_at(c, pr) == 0);
                    },
                }
            } else {
                assert(spec_child(r, p[0]) == spec_child(m, p[0]));
                assert(!p.is_prefix_of(k));
                match spec_child(m, p[0]) {
                    Some(b) => {},
                    None => {},
                }
            }
        }
    }
    assert forall|p: Seq<u8>|
        #![trigger present_at(r, p)]
        present_at(r, p) == (present_at(m, p) || p.is_prefix_of(k)) by {
        if p.len() == 0 {
            assert(p =~= k.subrange(0, 0));
            assert(p.is_prefix_of(k));
        } else {
            let pr = p.drop_first();
            lemma_prefix_cons(p, k);
            if p[0] == d {
                assert(present_at(r, p) == present_at(nc, pr));
                assert(present_at(nc, pr) == (present_at(c, pr) || pr.is_prefix_of(kr)));
                match spec_child(m, d) {
                    Some(b) => {
                        assert(present_at(m, p) == present_at(c, pr));
                    },
                    None => {
                        assert(!present_at(m, p));
                        if pr.len() > 0 {
                            lemma_empty_paths(pr);
                            assert(!present_at(c, pr));
                        } else {
                            assert(pr =~= kr.subrange(0, 0));
                            assert(pr.is_prefix_of(kr));
                        }
                    },
                }
            } else {
                assert(spec_child(r, p[0]) == spec_child(m, p[0]));
                assert(!p.is_prefix_of(k));
                match spec_child(m, p[0]) {
                    Some(b) => {},
                    None => {},
                }
            }
        }
    }
}

impl Merkle {
    /// The empty trie: no children, aggregate hash zero.
    pub fn new() -> (r: Self)
        ensures
            r == empty_merkle(),
    {
        Merkle { zero: None, one: None, two: None, hash: 0 }
    }
}

impl Default for Merkle {
    /// Same as `Merkle::new`.
    fn default() -> (r: Self)
        ensures
            r == empty_merkle(),
    {
        Merkle::new()
    }
}

fn clone_node(m: &Merkle) -> (r: Merkle)
    ensures
        r == *m,
    decreases *m,
{
    Merkle {
        zero: match &m.zero {
            Some(b) => Some(Box::new(clone_node(&**b))),
            None => None,
        },
        one: match &m.one {
            Some(b) => Some(Box::new(clone_node(&**b))),
            None => None,
        },
        two: match &m.two {
            Some(b) => Some(Box::new(clone_node(&**b))),
            None => None,
        },
        hash: m.hash,
    }
}

impl Clone for Merkle {
    /// A deep copy equal to the original, so a trie can be snapshotted
    /// before further insertions.
    fn clone(&self) -> (r: Self)
        ensures
            r == *self,
    {
        clone_node(self)
    }
}

/// Inserts an item hash along a key path: the node at the end of the path,
/// and every ancestor of it including the root, has its aggregate hash XORed
/// with `hash`; nodes along the path that did not exist are created; paths
/// off the key are untouched. Consumes the remaining digits of `key` one
/// per level.
pub fn insert_key(trie: Merkle, key: Key, hash: u32) -> (r: Merkle)
    ensures
        insert_rel(trie, r, key@, hash),
    decreases key@.len(),
{
    let ghost k = key@;
    let ghost t0 = trie;
    let mut key = key;
    match key.pop_front() {
        None => {
            let r = Merkle { zero: trie.zero, one: trie.one, two: trie.two, hash: trie.hash ^ hash };
            proof {
                assert(k =~= Seq::<u8>::empty());
                lemma_insert_rel_terminal(t0, r, hash);
            }
            r
        },
        Some(d) => {
            let Merkle { zero, one, two, hash: node_hash } = trie;
            let r = if d == 0 {
                let c = match zero {
                    Some(b) => *b,
                    None => Merkle::new(),
                };
                let ghost c0 = c;
                let nc = insert_key(c, key, hash);
                let r = Merkle {
                    zero: Some(Box::new(nc)),
                    one,
                    two,
                    hash: node_hash ^ hash,
                };
                proof {
                    lemma_insert_rel_step(t0, r, c0, nc, k, hash);
                }
                r
            } else if d == 1 {
                let c = match one {
                    Some(b) => *b,
                    None => Merkle::new(),
                };
                let ghost c0 = c;
                let nc = insert_key(c, key, hash);
                let r = Merkle {
                    zero,
                    one: Some(Box::new(nc)),
                    two,
                    hash: node_hash ^ hash,
                };
                proof {
                    lemma_insert_rel_step(t0, r, c0, nc, k, hash);
                }
                r
            } else {
                let c = match two {
                    Some(b) => *b,
                    None => Merkle::new(),
                };
                let ghost c0 = c;
                let nc = insert_key(c, key, hash);
                let r = Merkle {
                    zero,
                    one,
                    two: Some(Box::new(nc)),
                    hash: node_hash ^ hash,
                };
                proof {
                    lemma_insert_rel_step(t0, r, c0, nc, k, hash);
                }
                r
            };
            r
        },
    }
}


/// Whether the two tries' aggregate hashes differ at depth `j` of path `k`,
/// that is, at the node addressed by the first `j` digits of `k`.
pub open spec fn hashes_differ(a: Merkle, b: Merkle, k: Seq<u8>, j: int) -> bool {
    hash_at(a, k.take(j)) != hash_at(b, k.take(j))
}

/// A key path on which two tries disagree at every level: each prefix of
/// it, from the empty root path down to the whole path, has differing
/// aggregate hashes in the two tries.
pub open spec fn diverges_at(a: Merkle, b: Merkle, k: Seq<u8>) -> bool {
    forall|j: int| 0 <= j <= k.len() ==> #[trigger] hashes_differ(a, b, k, j)
}

/// A digit sequence of the given length with every digit in {0, 1, 2}.
pub open spec fn wf_suffix(s: Seq<u8>, len: int) -> bool {
    &&& s.len() == len
    &&& forall|i: int| 0 <= i < s.len() ==> s[i] < 3
}

spec fn contains_seq(r: Seq<Vec<u8>>, s: Seq<u8>) -> bool {
    exists|i: int| 0 <= i < r.len() && r[i]@ == s
}

proof fn lemma_cons_path_hashes(a: Merkle, b: Merkle, ca: Merkle, cb: Merkle, d: u8, s: Seq<u8>)
    requires
        d < 3,
        match spec_child(a, d) {
            Some(x) => ca == *x,
            None => ca == empty_merkle(),
        },
        match spec_child(b, d) {
            Some(x) => cb == *x,
            None => cb == empty_merkle(),
        },
    ensures
        forall|j: int|
            1 <= j <= s.len() + 1 ==> (hash_at(a, #[trigger] (seq![d] + s).take(j)) == hash_at(
                ca,
                s.take(j - 1),
            ) && hash_at(b, (seq![d] + s).take(j)) == hash_at(cb, s.take(j - 1))),
{
    let p = seq![d] + s;
    assert forall|j: int| 1 <= j <= s.len() + 1 implies (hash_at(a, #[trigger] p.take(j))
        == hash_at(ca, s.take(j - 1)) && hash_at(b, p.take(j)) == hash_at(cb, s.take(j - 1))) by {
        let q = p.take(j);
        assert(q.len() == j);
        assert(q[0] == d);
        assert(q.drop_first() =~= s.take(j - 1));
        match spec_child(a, d) {
            Some(x) => {
                assert(hash_at(a, q) == hash_at(ca, q.drop_first()));
            },
            None => {
                lemma_empty_paths(q.drop_first());
                assert(hash_at(a, q) == 0);
            },
        }
        match spec_child(b, d) {
            Some(x) => {
                assert(hash_at(b, q) == hash_at(cb, q.drop_first()));
            },
            None => {
                lemma_empty_paths(q.drop_first());
                assert(hash_at(b, q) == 0);
            },
        }
    }
}

proof fn lemma_diverges_cons_fwd(a: Merkle, b: Merkle, ca: Merkle, cb: Merkle, d: u8, s: Seq<u8>)
    requires
        d < 3,
        match spec_child(a, d) {
            Some(x) => ca == *x,
            None => ca == empty_merkle(),
        },
        match spec_child(b, d) {
            Some(x) => cb == *x,
            None => cb == empty_merkle(),
        },
        diverges_at(a, b, seq![d] + s),
    ensures
        a.hash != b.hash,
        diverges_at(ca, cb, s),
{
    let p = seq![d] + s;
    lemma_cons_path_hashes(a, b, ca, cb, d, s);
    assert(p.take(0) =~= Seq::<u8>::empty());
    assert(hashes_differ(a, b, p, 0));
    assert forall|j: int| 0 <= j <= s.len() implies #[trigger] hashes_differ(ca, cb, s, j) by {
        assert(hashes_differ(a, b, p, j + 1));
        assert(s.take((j + 1) - 1) =~= s.take(j));
        assert(hash_at(a, p.take(j + 1)) == hash_at(ca, s.take(j)));
        assert(hash_at(b, p.take(j + 1)) == hash_at(cb, s.take(j)));
    }
}

proof fn lemma_diverges_cons_rev(a: Merkle, b: Merkle, ca: Merkle, cb: Merkle, d: u8, s: Seq<u8>)
    requires
        d < 3,
        match spec_child(a, d) {
            Some(x) => ca == *x,
            None => ca == empty_merkle(),
        },
        match spec_child(b, d) {
            Some(x) => cb == *x,
            None => cb == empty_merkle(),
        },
        a.hash != b.hash,
        diverges_at(ca, cb, s),
    ensures
        diverges_at(a, b, seq![d] + s),
{
    let p = seq![d] + s;
    lemma_cons_path_hashes(a, b, ca, cb, d, s);
    assert forall|j: int| 0 <= j <= p.len() implies #[trigger] hashes_differ(a, b, p, j) by {
        if j == 0 {
            assert(p.take(0) =~= Seq::<u8>::empty());
        } else {
            assert(hashes_differ(ca, cb, s, j - 1));
            assert(hash_at(a, p.take(j)) == hash_at(ca, s.take(j - 1)));
            assert(hash_at(b, p.take(j)) == hash_at(cb, s.take(j - 1)));
        }
    }
}

fn push_prefixed(out: &mut Vec<Vec<u8>>, sub: &Vec<Vec<u8>>, d: u8)
    ensures
        final(out)@.len() == old(out)@.len() + sub@.len(),
        forall|i: int|
            0 <= i < final(out)@.len() ==> #[trigger] final(out)@[i]@ == (if i < old(out)@.len() {
                old(out)@[i]@
            } else {
                seq![d] + sub@[i - old(out)@.len()]@
            }),
{
    let mut i: usize = 0;
    while i < sub.len()
        invariant
            i <= sub@.len(),
            out@.len() == old(out)@.len() + i,
            forall|jj: int|
                0 <= jj < out@.len() ==> #[trigger] out@[jj]@ == (if jj < old(out)@.len() {
                    old(out)@[jj]@
                } else {
                    seq![d] + sub@[jj - old(out)@.len()]@
                }),
        decreases sub@.len() - i,
    {
        let mut nv: Vec<u8> = Vec::new();
        nv.push(d);
        let row = &sub[i];
        let mut j: usize = 0;
        while j < row.len()
            invariant
                j <= row@.len(),
                row@ == sub@[i as int]@,
                i < sub@.len(),
                nv@ =~= seq![d] + row@.take(j as int),
            decreases row@.len() - j,
        {
            nv.push(row[j]);
            proof {
                assert(nv@ =~= seq![d] + row@.take(j + 1));
            }
            j += 1;
        }
        proof {
            assert(row@.take(row@.len() as int) =~= row@);
            assert(nv@ == seq![d] + sub@[i as int]@);
        }
        out.push(nv);
        i += 1;
    }
}

fn walk(a: &Merkle, b: &Merkle, depth: usize) -> (r: Vec<Vec<u8>>)
    requires
        depth <= KEY_LEN,
    ensures
        forall|i: int| 0 <= i < r@.len() ==> wf_suffix(#[trigger] r@[i]@, KEY_LEN - depth),
        forall|s: Seq<u8>|
            wf_suffix(s, KEY_LEN - depth) ==> (contains_seq(r@, s) <==> diverges_at(*a, *b, s)),
        forall|i: int, j: int| 0 <= i < j < r@.len() ==> r@[i]@ != r@[j]@,
    decreases KEY_LEN - depth,
{
    if a.hash == b.hash {
        let out: Vec<Vec<u8>> = Vec::new();
        proof {
            assert forall|s: Seq<u8>| wf_suffix(s, KEY_LEN - depth) implies !diverges_at(
                *a,
                *b,
                s,
            ) by {
                assert(s.take(0) =~= Seq::<u8>::empty());
                assert(hash_at(*a, s.take(0)) == hash_at(*b, s.take(0)));
                assert(!hashes_differ(*a, *b, s, 0));
            }
        }
        return out;
    }
    if depth == KEY_LEN {
        let mut out: Vec<Vec<u8>> = Vec::new();
        let leaf: Vec<u8> = Vec::new();
        out.push(leaf);
        proof {
            assert forall|s: Seq<u8>| wf_suffix(s, 0) implies (contains_seq(out@, s)
                <==> diverges_at(*a, *b, s)) by {
                assert(s =~= Seq::<u8>::empty());
                assert(out@[0]@ =~= s);
                assert(contains_seq(out@, s));
                assert forall|j: int| 0 <= j <= s.len() implies #[trigger] hashes_differ(
                    *a,
                    *b,
                    s,
                    j,
                ) by {
                    assert(s.take(j) =~= Seq::<u8>::empty());
                }
            }
            assert(out@[0]@ =~= Seq::<u8>::empty());
        }
        return out;
    }
    let base = Merkle::new();
    let ca0: &Merkle = match &a.zero {
        Some(x) => &**x,
        None => &base,
    };
    let cb0: &Merkle = match &b.zero {
        Some(x) => &**x,
        None => &base,
    };
    let ca1: &Merkle = match &a.one {
        Some(x) => &**x,
        None => &base,
    };
    let cb1: &Merkle = match &b.one {
        Some(x) => &**x,
        None => &base,
    };
    let ca2: &Merkle = match &a.two {
        Some(x) => &**x,
        None => &base,
    };
    let cb2: &Merkle = match &b.two {
        Some(x) => &**x,
        None => &base,
    };
    let sub0 = walk(ca0, cb0, depth + 1);
    let sub1 = walk(ca1, cb1, depth + 1);
    let sub2 = walk(ca2, cb2, depth + 1);
    let mut out: Vec<Vec<u8>> = Vec::new();
    push_prefixed(&mut out, &sub0, 0);
    let ghost out1 = out@;
    push_prefixed(&mut out, &sub1, 1);
    let ghost out2 = out@;
    push_prefixed(&mut out, &sub2, 2);
    proof {
        let rem = KEY_LEN - depth - 1;
        let len0 = out1.len() as int;
        let len1 = out2.len() as int;
        // Element-by-element characterization of the merged output.
        assert forall|i: int| 0 <= i < out@.len() implies #[trigger] out@[i]@ == (if i < len0 {
            seq![0u8] + sub0@[i]@
        } else if i < len1 {
            seq![1u8] + sub1@[i - len0]@
        } else {
            seq![2u8] + sub2@[i - len1]@
        }) by {
            if i < len0 {
                assert(out1[i]@ == seq![0u8] + sub0@[i]@);
                assert(out2[i]@ == out1[i]@);
                assert(out@[i]@ == out2[i]@);
            } else if i < len1 {
                assert(out2[i]@ == seq![1u8] + sub1@[i - len0]@);
                assert(out@[i]@ == out2[i]@);
            } else {
                assert(out@[i]@ == seq![2u8] + sub2@[i - len1]@);
            }
        }
        assert forall|i: int| 0 <= i < out@.len() implies wf_suffix(
            #[trigger] out@[i]@,
            KEY_LEN - depth,
        ) by {
            if i < len0 {
                assert(wf_suffix(sub0@[i]@, rem));
                assert(out@[i]@ == seq![0u8] + sub0@[i]@);
            } else if i < len1 {
                assert(wf_suffix(sub1@[i - len0]@, rem));
                assert(out@[i]@ == seq![1u8] + sub1@[i - len0]@);
            } else {
                assert(wf_suffix(sub2@[i - len1]@, rem));
                assert(out@[i]@ == seq![2u8] + sub2@[i - len1]@);
            }
        }
        assert forall|i: int, j: int| 0 <= i < j < out@.len() implies out@[i]@ != out@[j]@ by {
            let vi = out@[i]@;
            let vj = out@[j]@;
            if j < len0 {
                assert(vi == seq![0u8] + sub0@[i]@);
                assert(vj == seq![0u8] + sub0@[j]@);
                assert(sub0@[i]@ != sub0@[j]@);
                assert(sub0@[i]@ =~= vi.drop_first());
                assert(sub0@[j]@ =~= vj.drop_first());
            } else if j < len1 {
                assert(vj == seq![1u8] + sub1@[j - len0]@);
                if i < len0 {
                    assert(vi == seq![0u8] + sub0@[i]@);
                    assert(vi[0] == 0u8 && vj[0] == 1u8);
                } else {
                    assert(vi == seq![1u8] + sub1@[i - len0]@);
                    assert(sub1@[i - len0]@ != sub1@[j - len0]@);
                    assert(sub1@[i - len0]@ =~= vi.drop_first());
                    assert(sub1@[j - len0]@ =~= vj.drop_first());
                }
            } else {
                assert(vj == seq![2u8] + sub2@[j - len1]@);
                if i < len0 {
                    assert(vi == seq![0u8] + sub0@[i]@);
                    assert(vi[0] == 0u8 && vj[0] == 2u8);
                } else if i < len1 {
                    assert(vi == seq![1u8] + sub1@[i - len0]@);
                    assert(vi[0] == 1u8 && vj[0] == 2u8);
                } else {
                    assert(vi == seq![2u8] + sub2@[i - len1]@);
                    assert(sub2@[i - len1]@ != sub2@[j - len1]@);
                    assert(sub2@[i - len1]@ =~= vi.drop_first());
                    assert(sub2@[j - len1]@ =~= vj.drop_first());
                }
            }
        }
        assert forall|s: Seq<u8>| wf_suffix(s, KEY_LEN - depth) implies (contains_seq(out@, s)
            <==> diverges_at(*a, *b, s)) by {
            let d0 = s[0];
            let rest = s.drop_first();
            assert(s =~= seq![d0] + rest);
            assert(wf_suffix(rest, rem));
            if contains_seq(out@, s) {
                let i = choose|i: int| 0 <= i < out@.len() && out@[i]@ == s;
                assert(out@[i]@ == s);
                if i < len0 {
                    assert(s == seq![0u8] + sub0@[i]@);
                    assert(s[0] == 0u8);
                    assert(sub0@[i]@ =~= rest);
                    assert(contains_seq(sub0@, rest));
                    assert(diverges_at(*ca0, *cb0, rest));
                    lemma_diverges_cons_rev(*a, *b, *ca0, *cb0, 0, rest);
                } else if i < len1 {
                    assert(s == seq![1u8] + sub1@[i - len0]@);
                    assert(s[0] == 1u8);
                    assert(sub1@[i - len0]@ =~= rest);
                    assert(contains_seq(sub1@, rest));
                    assert(diverges_at(*ca1, *cb1, rest));
                    lemma_diverges_cons_rev(*a, *b, *ca1, *cb1, 1, rest);
                } else {
                    assert(s == seq![2u8] + sub2@[i - len1]@);
                    assert(s[0] == 2u8);
                    assert(sub2@[i - len1]@ =~= rest);
                    assert(contains_seq(sub2@, rest));
                    assert(diverges_at(*ca2, *cb2, rest));
                    lemma_diverges_cons_rev(*a, *b, *ca2, *cb2, 2, rest);
                }
                assert(diverges_at(*a, *b, s));
            }
            if diverges_at(*a, *b, s) {
                if d0 == 0 {
                    lemma_diverges_cons_fwd(*a, *b, *ca0, *cb0, 0, rest);
                    assert(contains_seq(sub0@, rest));
                    let i = choose|i: int| 0 <= i < sub0@.len() && sub0@[i]@ == rest;
                    assert(out@[i]@ == seq![0u8] + sub0@[i]@);
                    assert(out@[i]@ =~= s);
                    assert(contains_seq(out@, s));
                } else if d0 == 1 {
                    lemma_diverges_cons_fwd(*a, *b, *ca1, *cb1, 1, rest);
                    assert(contains_seq(sub1@, rest));
                    let i = choose|i: int| 0 <= i < sub1@.len() && sub1@[i]@ == rest;
                    assert(out@[len0 + i]@ == seq![1u8] + sub1@[(len0 + i) - len0]@);
                    assert(sub1@[(len0 + i) - len0]@ == sub1@[i]@);
                    assert(out@[len0 + i]@ =~= s);
                    assert(contains_seq(out@, s));
                } else {
                    assert(d0 == 2);
                    lemma_diverges_cons_fwd(*a, *b, *ca2, *cb2, 2, rest);
                    assert(contains_seq(sub2@, rest));
                    let i = choose|i: int| 0 <= i < sub2@.len() && sub2@[i]@ == rest;
                    assert(out@[len1 + i]@ == seq![2u8] + sub2@[(len1 + i) - len1]@);
                    assert(sub2@[(len1 + i) - len1]@ == sub2@[i]@);
                    assert(out@[len1 + i]@ =~= s);
                    assert(contains_seq(out@, s));
                }
            }
        }
    }
    out
}

/// Two tries whose aggregate hashes agree at every path — in particular two
/// empty tries, or two tries built from the same multiset of items — have
/// no diverging path at all: comparison reports nothing.
pub proof fn lemma_equal_hashes_no_divergence(a: Merkle, b: Merkle)
    requires
        forall|p: Seq<u8>| #![trigger hash_at(a, p), hash_at(b, p)] hash_at(a, p) == hash_at(b, p),
    ensures
        forall|k: Seq<u8>| !diverges_at(a, b, k),
{
    assert forall|k: Seq<u8>| !diverges_at(a, b, k) by {
        assert(hash_at(a, k.take(0)) == hash_at(b, k.take(0)));
        assert(!hashes_differ(a, b, k, 0));
    }
}

/// Compares two tries and reports, once each, every full-depth key on whose
/// whole path, from the root down, the two aggregate hashes disagree. Two tries with
/// equal hashes at a node are treated as equal below it, so XOR cancellation
/// can hide a real difference: the result is a candidate filter, not an
/// exact set difference.
pub fn diverging_paths(a: &Merkle, b: &Merkle) -> (r: Vec<Key>)
    ensures
        forall|i: int| 0 <= i < r@.len() ==> wf_key(#[trigger] r@[i]@),
        forall|s: Seq<u8>|
            wf_key(s) ==> ((exists|i: int| 0 <= i < r@.len() && #[trigger] r@[i]@ == s)
                <==> diverges_at(*a, *b, s)),
        forall|i: int, j: int| 0 <= i < j < r@.len() ==> r@[i]@ != r@[j]@,
{
    let mut paths = walk(a, b, 0);
    let ghost orig = paths@;
    let mut r: Vec<Key> = Vec::new();
    while paths.len() > 0
        invariant
            r@.len() + paths@.len() == orig.len(),
            forall|j: int| 0 <= j < r@.len() ==> #[trigger] r@[j]@ == orig[j]@,
            forall|j: int| 0 <= j < paths@.len() ==> #[trigger] paths@[j]@ == orig[r@.len() + j]@,
            forall|i: int| 0 <= i < orig.len() ==> wf_suffix(#[trigger] orig[i]@, KEY_LEN as int),
        decreases paths@.len(),
    {
        let ghost prev = paths@;
        let ghost rlen = r@.len() as int;
        let v = paths.remove(0);
        proof {
            assert(paths@ =~= prev.drop_first());
            assert(v@ == orig[rlen]@);
            assert forall|j: int| 0 <= j < paths@.len() implies #[trigger] paths@[j]@ == orig[rlen
                + 1 + j]@ by {
                assert(paths@[j] == prev[j + 1]);
            }
        }
        let k = crate::codec::key_from_digits(v);
        r.push(k);
    }
    proof {
        assert forall|s: Seq<u8>| wf_key(s) implies ((exists|i: int|
            0 <= i < r@.len() && #[trigger] r@[i]@ == s) <==> diverges_at(*a, *b, s)) by {
            assert(wf_suffix(s, KEY_LEN - 0) == wf_key(s));
            if exists|i: int| 0 <= i < r@.len() && r@[i]@ == s {
                let i = choose|i: int| 0 <= i < r@.len() && r@[i]@ == s;
                assert(orig[i]@ == s);
                assert(contains_seq(orig, s));
            }
            if diverges_at(*a, *b, s) {
                assert(contains_seq(orig, s));
                let i = choose|i: int| 0 <= i < orig.len() && orig[i]@ == s;
                assert(r@[i]@ == s);
            }
        }
    }
    r
}


/// Inserts a timestamped item: hashes the timestamp's canonical string,
/// encodes its minute bucket as a key, and inserts the hash along that
/// key's path. Fails with `OutOfRange` exactly when the bucket does not fit
/// in `KEY_LEN` base-3 digits; the trie itself never fails. The origin
/// identifier is a bounded-length string, which keeps the canonical string
/// inside the range the hash primitive accepts.
pub fn insert(trie: Merkle, ts: Timestamp) -> (r: Result<Merkle, CodecError>)
    requires
        ts.node@.len() <= NODE_LIMIT,
    ensures
        r is Ok <==> bucket_of(ts.millis) < pow3(KEY_LEN as nat),
        r matches Ok(t) ==> insert_rel(trie, t, bucket_key(bucket_of(ts.millis)), ts.hash_spec()),
        r matches Err(e) ==> e == CodecError::OutOfRange,
{
    proof {
        crate::codec::lemma_pow3_key_len();
    }
    if ts.millis / BUCKET_MILLIS >= NUM_BUCKETS {
        return Err(CodecError::OutOfRange);
    }
    proof {
        vstd::arithmetic::div_mod::lemma_fundamental_div_mod(ts.millis as int, BUCKET_MILLIS as int);
        assert(ts.millis < MILLIS_LIMIT);
    }
    let hash = ts.hash();
    let key = match Key::from_millis(ts.millis) {
        Ok(k) => k,
        Err(_) => {
            proof {
                assert(false);
            }
            return Err(CodecError::OutOfRange);
        },
    };
    Ok(insert_key(trie, key, hash))
}

} // verus!
