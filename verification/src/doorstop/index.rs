//! Lists of positions that stand for a map.
//!
//! Entries arrive one after another, each under a key, and an entry
//! replaces the earlier one under the same key. The entries are kept where
//! they arrived; an index is a list of positions, one for each key, that
//! points at the entry which the key now maps to.

use vstd::prelude::*;
use crate::doorstop::level::{
    key_lt, key_order, lemma_key_lt_irreflexive, lemma_key_lt_transitive, KeyOrder,
};

verus! {

/// Whether the positions in `l` stand for the map `m`, where entry `i` has
/// the key `keys[i]` and the value `values[i]`: each position points at an
/// entry that `m` holds under its key, no two at the same key, and every
/// key of `m` is pointed at.
pub open spec fn represents<K, V>(l: Seq<usize>, keys: Seq<K>, values: Seq<V>, m: Map<K, V>) -> bool {
    &&& keys.len() == values.len()
    &&& m.dom().finite()
    &&& m.dom().len() == l.len()
    &&& forall|a: int| 0 <= a < l.len() ==> (#[trigger] l[a]) < keys.len()
    &&& forall|a: int|
        0 <= a < l.len() ==> m.dom().contains(keys[#[trigger] l[a] as int]) && m[keys[l[a] as int]]
            == values[l[a] as int]
    &&& forall|a: int, b: int|
        0 <= a < b < l.len() ==> keys[#[trigger] l[a] as int] != keys[#[trigger] l[b] as int]
    &&& forall|k: K|
        m.dom().contains(k) ==> exists|a: int| 0 <= a < l.len() && keys[#[trigger] l[a] as int] == k
}

/// Whether the positions in `l` point at keys in strictly ascending order.
pub open spec fn ascending(l: Seq<usize>, keys: Seq<Seq<i32>>) -> bool {
    forall|a: int, b: int|
        0 <= a < b < l.len() ==> key_lt(keys[#[trigger] l[a] as int], keys[#[trigger] l[b] as int])
}

/// The keys as sequences of integers.
pub open spec fn key_views(keys: Seq<Vec<i32>>) -> Seq<Seq<i32>> {
    keys.map_values(|key: Vec<i32>| key@)
}

/// The empty list stands for the empty map.
pub proof fn lemma_represents_empty<K, V>()
    ensures
        represents(Seq::<usize>::empty(), Seq::<K>::empty(), Seq::<V>::empty(), Map::<K, V>::empty()),
{
    assert(Map::<K, V>::empty().dom() =~= Set::<K>::empty());
}

/// A new entry under a key that position `a` points at: the position is
/// moved to the new entry.
pub proof fn lemma_represents_replace<K, V>(
    l: Seq<usize>,
    keys: Seq<K>,
    values: Seq<V>,
    m: Map<K, V>,
    a: int,
    k: K,
    v: V,
)
    requires
        represents(l, keys, values, m),
        0 <= a < l.len(),
        keys[l[a] as int] == k,
        keys.len() < usize::MAX,
    ensures
        represents(l.update(a, keys.len() as usize), keys.push(k), values.push(v), m.insert(k, v)),
{
    let n = keys.len() as usize;
    let l2 = l.update(a, n);
    let keys2 = keys.push(k);
    let values2 = values.push(v);
    let m2 = m.insert(k, v);
    assert(m.dom().contains(keys[l[a] as int]));
    assert(m2.dom() =~= m.dom());
    assert forall|b: int| 0 <= b < l2.len() implies m2.dom().contains(keys2[#[trigger] l2[b] as int])
        && m2[keys2[l2[b] as int]] == values2[l2[b] as int] by {
        if b != a {
            assert(l2[b] == l[b]);
            if a < b {
                assert(keys[l[a] as int] != keys[l[b] as int]);
            } else {
                assert(keys[l[b] as int] != keys[l[a] as int]);
            }
        }
    }
    assert forall|b: int, c: int| 0 <= b < c < l2.len() implies keys2[#[trigger] l2[b] as int]
        != keys2[#[trigger] l2[c] as int] by {
        assert(keys[l[b] as int] != keys[l[c] as int]);
        if b != a {
            assert(l2[b] == l[b]);
        }
        if c != a {
            assert(l2[c] == l[c]);
        }
    }
    assert forall|q: K| m2.dom().contains(q) implies exists|b: int|
        0 <= b < l2.len() && keys2[#[trigger] l2[b] as int] == q by {
        let b = choose|b: int| 0 <= b < l.len() && keys[#[trigger] l[b] as int] == q;
        if b != a {
            assert(l2[b] == l[b]);
        }
        assert(keys2[l2[b] as int] == q);
    }
}

/// A new entry under a key that no position points at: a position for it
/// is put into the list, at `pos`.
pub proof fn lemma_represents_insert<K, V>(
    l: Seq<usize>,
    keys: Seq<K>,
    values: Seq<V>,
    m: Map<K, V>,
    pos: int,
    k: K,
    v: V,
)
    requires
        represents(l, keys, values, m),
        0 <= pos <= l.len(),
        forall|a: int| 0 <= a < l.len() ==> keys[#[trigger] l[a] as int] != k,
        keys.len() < usize::MAX,
    ensures
        !m.dom().contains(k),
        represents(
            l.insert(pos, keys.len() as usize),
            keys.push(k),
            values.push(v),
            m.insert(k, v),
        ),
{
    broadcast use vstd::set::axiom_set_insert_len;

    let n = keys.len() as usize;
    let l2 = l.insert(pos, n);
    let keys2 = keys.push(k);
    let values2 = values.push(v);
    let m2 = m.insert(k, v);
    if m.dom().contains(k) {
        let a = choose|a: int| 0 <= a < l.len() && keys[#[trigger] l[a] as int] == k;
        assert(keys[l[a] as int] != k);
    }
    assert(m2.dom() =~= m.dom().insert(k));
    // Where position `b` of the new list was in the old one.
    let was = |b: int| if b < pos { b } else { b - 1 };
    assert forall|b: int| 0 <= b < l2.len() && b != pos implies l2[b] == l[was(b)] by {}
    assert forall|b: int| 0 <= b < l2.len() implies (#[trigger] l2[b]) < keys2.len() by {
        if b != pos {
            assert(l2[b] == l[was(b)]);
        }
    }
    assert forall|b: int| 0 <= b < l2.len() implies m2.dom().contains(keys2[#[trigger] l2[b] as int])
        && m2[keys2[l2[b] as int]] == values2[l2[b] as int] by {
        if b != pos {
            assert(l2[b] == l[was(b)]);
            assert(keys[l[was(b)] as int] != k);
        }
    }
    assert forall|b: int, c: int| 0 <= b < c < l2.len() implies keys2[#[trigger] l2[b] as int]
        != keys2[#[trigger] l2[c] as int] by {
        if b != pos {
            assert(l2[b] == l[was(b)]);
            assert(keys[l[was(b)] as int] != k);
        }
        if c != pos {
            assert(l2[c] == l[was(c)]);
            assert(keys[l[was(c)] as int] != k);
        }
        if b != pos && c != pos {
            assert(keys[l[was(b)] as int] != keys[l[was(c)] as int]);
        }
    }
    assert forall|q: K| m2.dom().contains(q) implies exists|b: int|
        0 <= b < l2.len() && keys2[#[trigger] l2[b] as int] == q by {
        if q == k {
            assert(keys2[l2[pos] as int] == q);
        } else {
            let a = choose|a: int| 0 <= a < l.len() && keys[#[trigger] l[a] as int] == q;
            let b = if a < pos { a } else { a + 1 };
            assert(l2[b] == l[a]);
            assert(keys2[l2[b] as int] == q);
        }
    }
}

/// The ascending order survives a new entry under a key that position `a`
/// points at, once the position is moved to the new entry.
pub proof fn lemma_ascending_replace(l: Seq<usize>, keys: Seq<Seq<i32>>, a: int, k: Seq<i32>)
    requires
        ascending(l, keys),
        forall|b: int| 0 <= b < l.len() ==> (#[trigger] l[b]) < keys.len(),
        0 <= a < l.len(),
        keys[l[a] as int] == k,
        keys.len() < usize::MAX,
    ensures
        ascending(l.update(a, keys.len() as usize), keys.push(k)),
{
    let l2 = l.update(a, keys.len() as usize);
    let keys2 = keys.push(k);
    assert forall|b: int, c: int| 0 <= b < c < l2.len() implies key_lt(
        keys2[#[trigger] l2[b] as int],
        keys2[#[trigger] l2[c] as int],
    ) by {
        assert(key_lt(keys[l[b] as int], keys[l[c] as int]));
        if b != a {
            assert(l2[b] == l[b]);
        }
        if c != a {
            assert(l2[c] == l[c]);
        }
    }
}

/// The ascending order survives a new entry whose position is put where
/// its key belongs: after the smaller keys and before the larger ones.
pub proof fn lemma_ascending_insert(l: Seq<usize>, keys: Seq<Seq<i32>>, pos: int, k: Seq<i32>)
    requires
        ascending(l, keys),
        forall|b: int| 0 <= b < l.len() ==> (#[trigger] l[b]) < keys.len(),
        0 <= pos <= l.len(),
        forall|b: int| 0 <= b < pos ==> key_lt(keys[#[trigger] l[b] as int], k),
        forall|b: int| pos <= b < l.len() ==> key_lt(k, keys[#[trigger] l[b] as int]),
        keys.len() < usize::MAX,
    ensures
        ascending(l.insert(pos, keys.len() as usize), keys.push(k)),
        forall|b: int| 0 <= b < l.len() ==> keys[#[trigger] l[b] as int] != k,
{
    let l2 = l.insert(pos, keys.len() as usize);
    let keys2 = keys.push(k);
    let was = |b: int| if b < pos { b } else { b - 1 };
    assert forall|b: int, c: int| 0 <= b < c < l2.len() implies key_lt(
        keys2[#[trigger] l2[b] as int],
        keys2[#[trigger] l2[c] as int],
    ) by {
        if b != pos {
            assert(l2[b] == l[was(b)]);
        }
        if c != pos {
            assert(l2[c] == l[was(c)]);
        }
        if b != pos && c != pos {
            assert(key_lt(keys[l[was(b)] as int], keys[l[was(c)] as int]));
        }
    }
    assert forall|b: int| 0 <= b < l.len() implies keys[#[trigger] l[b] as int] != k by {
        lemma_key_lt_irreflexive(k);
    }
}

/// Where the key `k` stands among the keys that `l` points at: the
/// position of the first key that is not before `k`, and whether that key
/// is `k` itself.
pub fn find_rank(l: &Vec<usize>, keys: &Vec<Vec<i32>>, k: &Vec<i32>) -> (r: (usize, bool))
    requires
        ascending(l@, key_views(keys@)),
        forall|b: int| 0 <= b < l.len() ==> (#[trigger] l[b]) < keys.len(),
    ensures
        r.0 <= l.len(),
        forall|b: int| 0 <= b < r.0 ==> key_lt(keys[#[trigger] l[b] as int]@, k@),
        r.1 ==> r.0 < l.len() && keys[l[r.0 as int] as int]@ == k@,
        !r.1 ==> forall|b: int| r.0 <= b < l.len() ==> key_lt(k@, keys[#[trigger] l[b] as int]@),
{
    let ghost ks = key_views(keys@);
    let mut lo: usize = 0;
    let mut hi: usize = l.len();
    while lo < hi
        invariant
            lo <= hi <= l.len(),
            ks == key_views(keys@),
            ascending(l@, ks),
            forall|b: int| 0 <= b < l.len() ==> (#[trigger] l[b]) < keys.len(),
            forall|b: int| 0 <= b < lo ==> key_lt(keys[#[trigger] l[b] as int]@, k@),
            forall|b: int| hi <= b < l.len() ==> key_lt(k@, keys[#[trigger] l[b] as int]@),
        decreases hi - lo,
    {
        let mid: usize = lo + (hi - lo) / 2;
        let at_mid = &keys[l[mid]];
        assert(ks[l[mid as int] as int] == at_mid@);
        match key_order(at_mid, k) {
            KeyOrder::Before => {
                assert forall|b: int| 0 <= b < mid + 1 implies key_lt(
                    keys[#[trigger] l[b] as int]@,
                    k@,
                ) by {
                    if b < mid {
                        assert(key_lt(ks[l[b] as int], ks[l[mid as int] as int]));
                        lemma_key_lt_transitive(keys[l[b] as int]@, at_mid@, k@);
                    }
                }
                lo = mid + 1;
            },
            KeyOrder::Same => {
                return (mid, true);
            },
            KeyOrder::After => {
                assert forall|b: int| mid <= b < l.len() implies key_lt(
                    k@,
                    keys[#[trigger] l[b] as int]@,
                ) by {
                    if mid < b {
                        assert(key_lt(ks[l[mid as int] as int], ks[l[b] as int]));
                        lemma_key_lt_transitive(k@, at_mid@, keys[l[b] as int]@);
                    }
                }
                hi = mid;
            },
        }
    }
    (lo, false)
}

} // verus!
