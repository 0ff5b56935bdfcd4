//! Laws of the container's contracts, stated over the map view that `get`,
//! `get_mut` and `insert` promise to maintain.

use vstd::prelude::*;

use crate::node::entries_map;

verus! {

/// Folding `insert` over a sequence of pairs, one by one.  `entries_map` is
/// exactly that fold, so it serves as the view reached by a chain of
/// `TreeMap::insert` calls with those arguments.
///
/// Order-independence: two insertion sequences over pairwise distinct keys
/// that hold the same set of pairs reach the same view, whatever their order.
pub proof fn lemma_insertion_order_independent<V>(s1: Seq<(usize, V)>, s2: Seq<(usize, V)>)
    requires
        forall|i: int, j: int| 0 <= i < j < s1.len() ==> (#[trigger] s1[i]).0 != (#[trigger] s1[j]).0,
        forall|i: int, j: int| 0 <= i < j < s2.len() ==> (#[trigger] s2[i]).0 != (#[trigger] s2[j]).0,
        forall|p: (usize, V)| s1.contains(p) <==> s2.contains(p),
    ensures
        entries_map(s1) == entries_map(s2),
{
    lemma_entries_map_of_pairs(s1);
    lemma_entries_map_of_pairs(s2);
    assert forall|k: usize| #[trigger] entries_map(s1).dom().contains(k) implies entries_map(
        s2,
    ).dom().contains(k) && entries_map(s1)[k] == entries_map(s2)[k] by {
        let i = choose|i: int| 0 <= i < s1.len() && (#[trigger] s1[i]).0 == k;
        assert(s1.contains(s1[i]));
        assert(s2.contains(s1[i]));
    }
    assert forall|k: usize| #[trigger] entries_map(s2).dom().contains(k) implies entries_map(
        s1,
    ).dom().contains(k) by {
        let i = choose|i: int| 0 <= i < s2.len() && (#[trigger] s2[i]).0 == k;
        assert(s2.contains(s2[i]));
        assert(s1.contains(s2[i]));
    }
    assert(entries_map(s1) =~= entries_map(s2));
}

/// What the fold of pairwise-distinct pairs holds: each pair of the sequence,
/// and nothing else.
pub proof fn lemma_entries_map_of_pairs<V>(s: Seq<(usize, V)>)
    requires
        forall|i: int, j: int| 0 <= i < j < s.len() ==> (#[trigger] s[i]).0 != (#[trigger] s[j]).0,
    ensures
        forall|i: int| 0 <= i < s.len() ==> entries_map(s).dom().contains((#[trigger] s[i]).0),
        forall|i: int| 0 <= i < s.len() ==> entries_map(s)[(#[trigger] s[i]).0] == s[i].1,
        forall|k: usize|
            #[trigger] entries_map(s).dom().contains(k) ==> exists|i: int|
                0 <= i < s.len() && (#[trigger] s[i]).0 == k,
    decreases s.len(),
{
    if s.len() > 0 {
        let dl = s.drop_last();
        assert(forall|i: int| 0 <= i < dl.len() ==> dl[i] == s[i]);
        lemma_entries_map_of_pairs(dl);
        assert forall|k: usize| #[trigger] entries_map(s).dom().contains(k) implies exists|i: int|
            0 <= i < s.len() && (#[trigger] s[i]).0 == k by {
            if k == s.last().0 {
                assert(s[s.len() - 1].0 == k);
            } else {
                assert(entries_map(dl).dom().contains(k));
                let i = choose|i: int| 0 <= i < dl.len() && (#[trigger] dl[i]).0 == k;
                assert(s[i].0 == k);
            }
        }
        assert forall|i: int| 0 <= i < s.len() implies entries_map(s).dom().contains(
            (#[trigger] s[i]).0,
        ) && entries_map(s)[s[i].0] == s[i].1 by {
            if i < s.len() - 1 {
                assert(dl[i] == s[i]);
                assert(s[i].0 != s[s.len() - 1].0);
            } else {
                assert(s[i] == s.last());
            }
        }
    }
}

/// What a lookup outcome means against a map view: exactly the contract of
/// `TreeMap::get` (and of the first half of `TreeMap::get_mut`), with the
/// borrowed value taken by value.
pub open spec fn lookup_post<V>(m: Map<usize, V>, key: usize, r: Option<V>) -> bool {
    match r {
        Some(v) => m.dom().contains(key) && v == m[key],
        None => !m.dom().contains(key),
    }
}

/// A lookup is a pure function of the map view and the key: any two outcomes
/// that meet the lookup contract against the same view are equal.  Since
/// `get` borrows the map immutably, its view cannot change between calls, so
/// repeated calls without an intervening mutation all return the same result.
pub proof fn lemma_lookup_deterministic<V>(
    m: Map<usize, V>,
    key: usize,
    r1: Option<V>,
    r2: Option<V>,
)
    requires
        lookup_post(m, key, r1),
        lookup_post(m, key, r2),
    ensures
        r1 == r2,
{
}

/// A pair just inserted is found by a lookup: `insert` promises the view
/// `old@.insert(key, value)`, against which the lookup contract forces
/// `Some(value)`.  The same composition covers mutation through `get_mut`:
/// writing `v2` through the returned borrow leaves the view
/// `old@.insert(key, v2)`, so a subsequent lookup returns `v2`.
pub proof fn lemma_insert_then_lookup<V>(m: Map<usize, V>, key: usize, value: V, r: Option<V>)
    requires
        lookup_post(m.insert(key, value), key, r),
    ensures
        r == Some(value),
{
}

/// A lookup for a key other than the one inserted is unaffected by the
/// insertion.
pub proof fn lemma_insert_frame<V>(m: Map<usize, V>, key: usize, value: V, other: usize)
    requires
        other != key,
    ensures
        forall|r: Option<V>|
            lookup_post(m, other, r) <==> #[trigger] lookup_post(m.insert(key, value), other, r),
{
}

/// Insertions of distinct keys commute: the view after inserting a set of
/// pairs with pairwise distinct keys does not depend on the order of the
/// insertions, since any permutation is a chain of such swaps.
pub proof fn lemma_insert_commutes<V>(m: Map<usize, V>, k1: usize, v1: V, k2: usize, v2: V)
    requires
        k1 != k2,
    ensures
        m.insert(k1, v1).insert(k2, v2) == m.insert(k2, v2).insert(k1, v1),
{
    assert(m.insert(k1, v1).insert(k2, v2) =~= m.insert(k2, v2).insert(k1, v1));
}

/// Inserting a key twice keeps only the later value.
pub proof fn lemma_insert_overwrites<V>(m: Map<usize, V>, key: usize, v1: V, v2: V)
    ensures
        m.insert(key, v1).insert(key, v2) == m.insert(key, v2),
{
    assert(m.insert(key, v1).insert(key, v2) =~= m.insert(key, v2));
}

} // verus!
