//! Proof library about the node model: how the map of a subtree decomposes
//! into the maps of its entries, separators and children.

use vstd::prelude::*;

use crate::node::{
    branch_in_range, branch_map, branches_sorted, entries_map, entries_sorted, keys_below,
    node_map, prefix_map, wf_node, Branch, Node,
};

verus! {

/// What the map of a terminal entry sequence holds: exactly the pairs of the
/// sequence, with the rightmost occurrence of a key winning (under
/// `entries_sorted` every key occurs at most once).
pub proof fn lemma_entries_map_char<V>(es: Seq<(usize, V)>)
    requires
        entries_sorted(es),
    ensures
        forall|i: int|
            0 <= i < es.len() ==> entries_map(es).dom().contains((#[trigger] es[i]).0),
        forall|i: int|
            0 <= i < es.len() ==> entries_map(es)[(#[trigger] es[i]).0] == es[i].1,
        forall|k: usize|
            #[trigger] entries_map(es).dom().contains(k) ==> exists|i: int|
                0 <= i < es.len() && (#[trigger] es[i]).0 == k,
{
    crate::laws::lemma_entries_map_of_pairs(es);
}

/// Concatenating entry sequences unions their maps, later entries winning.
pub proof fn lemma_entries_map_concat<V>(a: Seq<(usize, V)>, b: Seq<(usize, V)>)
    ensures
        entries_map(a + b) == entries_map(a).union_prefer_right(entries_map(b)),
    decreases b.len(),
{
    if b.len() == 0 {
        assert(a + b =~= a);
        assert(entries_map(a).union_prefer_right(entries_map(b)) =~= entries_map(a));
    } else {
        lemma_entries_map_concat(a, b.drop_last());
        assert((a + b).drop_last() =~= a + b.drop_last());
        assert((a + b).last() == b.last());
        assert(entries_map(a).union_prefer_right(entries_map(b.drop_last())).insert(
            b.last().0,
            b.last().1,
        ) =~= entries_map(a).union_prefer_right(
            entries_map(b.drop_last()).insert(b.last().0, b.last().1),
        ));
        assert(entries_map(b) == entries_map(b.drop_last()).insert(b.last().0, b.last().1));
    }
}

/// The keys one separator entry contributes stay inside its own range:
/// at or above its key, and below the next separator's key.
pub proof fn lemma_branch_map_bounds<V>(bs: Seq<Branch<V>>, i: int)
    requires
        branches_sorted(bs),
        0 <= i < bs.len(),
        branch_in_range(bs, i),
    ensures
        forall|k: usize|
            #[trigger] branch_map(bs[i]).dom().contains(k) ==> k >= bs[i].key && (i < bs.len() - 1
                ==> k < bs[i + 1].key),
{
    assert forall|k: usize| #[trigger] branch_map(bs[i]).dom().contains(k) implies k >= bs[i].key
        && (i < bs.len() - 1 ==> k < bs[i + 1].key) by {
        if k != bs[i].key {
            assert(node_map(*bs[i].child).dom().contains(k));
        }
    }
}

/// What the map of the first `m` separators of an internal node holds: the
/// union of the separator contributions, which do not overlap, so a key found
/// in one contribution is mapped to that contribution's value.
pub proof fn lemma_prefix_map_char<V>(n: Node<V>, m: int)
    requires
        n is Internal,
        wf_node(n),
        0 <= m <= n->Internal_0@.len(),
    ensures
        forall|k: usize|
            #[trigger] prefix_map(n, m).dom().contains(k) ==> exists|j: int|
                0 <= j < m && #[trigger] branch_map(n->Internal_0@[j]).dom().contains(k),
        forall|j: int, k: usize|
            0 <= j < m && #[trigger] branch_map(n->Internal_0@[j]).dom().contains(k)
                ==> prefix_map(n, m).dom().contains(k) && prefix_map(n, m)[k] == branch_map(
                n->Internal_0@[j],
            )[k],
    decreases m,
{
    let bs = n->Internal_0@;
    if m > 0 {
        lemma_prefix_map_char(n, m - 1);
        assert(prefix_map(n, m) == prefix_map(n, m - 1).union_prefer_right(branch_map(bs[m - 1])));
        assert forall|j: int, k: usize|
            0 <= j < m && #[trigger] branch_map(bs[j]).dom().contains(k) implies prefix_map(
            n,
            m,
        ).dom().contains(k) && prefix_map(n, m)[k] == branch_map(bs[j])[k] by {
            if j < m - 1 {
                // the key sits in an earlier contribution and the newest one
                // cannot also hold it, because ranges do not overlap
                assert(branch_in_range(bs, j));
                lemma_branch_map_bounds(bs, j);
                assert(k < bs[j + 1].key);
                assert(bs[j + 1].key <= bs[m - 1].key);
                if branch_map(bs[m - 1]).dom().contains(k) {
                    assert(branch_in_range(bs, m - 1));
                    lemma_branch_map_bounds(bs, m - 1);
                }
            }
        }
    }
}

/// Splicing a pair into a terminal entry sequence at its insertion point
/// inserts exactly that pair into the sequence's map and keeps the order.
pub proof fn lemma_entries_insert_at<V>(es: Seq<(usize, V)>, p: int, key: usize, v: V)
    requires
        entries_sorted(es),
        0 <= p <= es.len(),
        forall|j: int| 0 <= j < p ==> (#[trigger] es[j]).0 < key,
        forall|j: int| p <= j < es.len() ==> (#[trigger] es[j]).0 > key,
    ensures
        entries_map(es.insert(p, (key, v))) == entries_map(es).insert(key, v),
        entries_sorted(es.insert(p, (key, v))),
    decreases es.len(),
{
    let es2 = es.insert(p, (key, v));
    assert(forall|i: int| 0 <= i < p ==> es2[i] == es[i]);
    assert(es2[p] == (key, v));
    assert(forall|i: int| p < i < es2.len() ==> es2[i] == es[i - 1]);
    if p == es.len() {
        assert(es2.drop_last() =~= es);
    } else {
        let dl = es.drop_last();
        assert(forall|i: int| 0 <= i < dl.len() ==> dl[i] == es[i]);
        lemma_entries_insert_at(dl, p, key, v);
        assert(es2.drop_last() =~= dl.insert(p, (key, v)));
        assert(es2.last() == es.last());
        assert(key != es.last().0);
        assert(entries_map(dl).insert(key, v).insert(es.last().0, es.last().1) =~= entries_map(
            dl,
        ).insert(es.last().0, es.last().1).insert(key, v));
    }
}

/// Replacing the value of one terminal entry inserts the new pair into the
/// sequence's map and keeps the order.
pub proof fn lemma_entries_update_at<V>(es: Seq<(usize, V)>, i: int, v: V)
    requires
        entries_sorted(es),
        0 <= i < es.len(),
    ensures
        entries_map(es.update(i, (es[i].0, v))) == entries_map(es).insert(es[i].0, v),
        entries_sorted(es.update(i, (es[i].0, v))),
    decreases es.len(),
{
    let es2 = es.update(i, (es[i].0, v));
    assert(forall|j: int| 0 <= j < es.len() && j != i ==> es2[j] == es[j]);
    if i == es.len() - 1 {
        assert(es2.drop_last() =~= es.drop_last());
        assert(entries_map(es.drop_last()).insert(es[i].0, es[i].1).insert(es[i].0, v)
            =~= entries_map(es.drop_last()).insert(es[i].0, v));
    } else {
        let dl = es.drop_last();
        assert(forall|j: int| 0 <= j < dl.len() ==> dl[j] == es[j]);
        lemma_entries_update_at(dl, i, v);
        assert(es2.drop_last() =~= dl.update(i, (es[i].0, v)));
        assert(es2.last() == es.last());
        assert(es[i].0 != es.last().0);
        assert(entries_map(dl).insert(es[i].0, v).insert(es.last().0, es.last().1) =~= entries_map(
            dl,
        ).insert(es.last().0, es.last().1).insert(es[i].0, v));
    }
}

/// Splitting a sorted terminal entry sequence at a pivot: the entries below
/// the pivot (together with an even smaller key) and the entries above it
/// (led by the pivot pair itself) together make up the original map.  This is
/// the content of promoting the pivot as a new separator.
pub proof fn lemma_split_entries<V>(es: Seq<(usize, V)>, h: int, bk: usize, bv: V)
    requires
        entries_sorted(es),
        0 <= h < es.len(),
        forall|i: int| 0 <= i < es.len() ==> bk < (#[trigger] es[i]).0,
    ensures
        entries_map(es.subrange(0, h)).insert(bk, bv).union_prefer_right(
            entries_map(es.subrange(h + 1, es.len() as int)).insert(es[h].0, es[h].1),
        ) == entries_map(es).insert(bk, bv),
        entries_sorted(es.subrange(0, h)),
        entries_sorted(es.subrange(h + 1, es.len() as int)),
{
    let len = es.len() as int;
    let left = es.subrange(0, h);
    let right = es.subrange(h + 1, len);
    let mid = seq![es[h]];
    let pk = es[h].0;
    let pv = es[h].1;
    assert(forall|i: int| 0 <= i < left.len() ==> left[i] == es[i]);
    assert(forall|i: int| 0 <= i < right.len() ==> right[i] == es[h + 1 + i]);
    assert(es =~= left + (mid + right));
    lemma_entries_map_concat(left, mid + right);
    lemma_entries_map_concat(mid, right);
    assert(mid.drop_last() =~= Seq::<(usize, V)>::empty());
    assert(entries_map(mid) == entries_map(mid.drop_last()).insert(pk, pv));
    lemma_entries_map_char(es);
    lemma_entries_map_char(left);
    lemma_entries_map_char(right);
    let lhs = entries_map(left).insert(bk, bv).union_prefer_right(
        entries_map(right).insert(pk, pv),
    );
    let rhs = entries_map(es).insert(bk, bv);
    assert forall|k: usize| #[trigger] lhs.dom().contains(k) implies rhs.dom().contains(k)
        && lhs[k] == rhs[k] by {
        if k == bk {
            // bk is smaller than every entry key, so the right half cannot win
            if entries_map(right).dom().contains(k) {
                let i = choose|i: int| 0 <= i < right.len() && (#[trigger] right[i]).0 == k;
                assert(es[h + 1 + i].0 == k);
                assert(false);
            }
        } else if k == pk {
            assert(entries_map(es)[pk] == pv);
        } else if entries_map(right).dom().contains(k) {
            let i = choose|i: int| 0 <= i < right.len() && (#[trigger] right[i]).0 == k;
            assert(es[h + 1 + i].0 == k);
            assert(entries_map(es)[k] == es[h + 1 + i].1);
            assert(entries_map(right)[k] == right[i].1);
        } else {
            assert(entries_map(left).dom().contains(k));
            let i = choose|i: int| 0 <= i < left.len() && (#[trigger] left[i]).0 == k;
            assert(es[i].0 == k);
            assert(k < pk);
            assert(entries_map(es)[k] == es[i].1);
            assert(entries_map(left)[k] == left[i].1);
        }
    }
    assert forall|k: usize| #[trigger] rhs.dom().contains(k) implies lhs.dom().contains(k) by {
        if k != bk {
            let i = choose|i: int| 0 <= i < es.len() && (#[trigger] es[i]).0 == k;
            if i < h {
                assert(left[i].0 == k);
            } else if i == h {
                assert(k == pk);
            } else {
                assert(right[i - h - 1].0 == k);
            }
        }
    }
    assert(lhs =~= rhs);
}

/// A separator key of a well-formed internal node is mapped, by the whole
/// subtree, to that separator's own value: the lookup may stop at this level.
pub proof fn lemma_internal_found<V>(n: Node<V>, i: int)
    requires
        n is Internal,
        wf_node(n),
        0 <= i < n->Internal_0@.len(),
    ensures
        node_map(n).dom().contains(n->Internal_0@[i].key),
        node_map(n)[n->Internal_0@[i].key] == n->Internal_0@[i].value@,
{
    let bs = n->Internal_0@;
    lemma_prefix_map_char(n, bs.len() as int);
    assert(branch_map(bs[i]).dom().contains(bs[i].key));
    assert(branch_map(bs[i])[bs[i].key] == bs[i].value@);
}

/// A key that falls strictly between separator `p - 1` and separator `p` is
/// settled entirely by the child of separator `p - 1`: the subtree maps it
/// if and only if that child does, and to the same value.
pub proof fn lemma_internal_descend<V>(n: Node<V>, key: usize, p: int)
    requires
        n is Internal,
        wf_node(n),
        1 <= p <= n->Internal_0@.len(),
        forall|j: int| 0 <= j < p ==> (#[trigger] n->Internal_0@[j]).key < key,
        forall|j: int|
            p <= j < n->Internal_0@.len() ==> (#[trigger] n->Internal_0@[j]).key > key,
    ensures
        node_map(n).dom().contains(key) <==> node_map(*n->Internal_0@[p - 1].child).dom().contains(
            key,
        ),
        node_map(n).dom().contains(key) ==> node_map(n)[key] == node_map(
            *n->Internal_0@[p - 1].child,
        )[key],
{
    let bs = n->Internal_0@;
    lemma_prefix_map_char(n, bs.len() as int);
    if node_map(*bs[p - 1].child).dom().contains(key) {
        assert(branch_map(bs[p - 1]).dom().contains(key));
    }
    if node_map(n).dom().contains(key) {
        assert(node_map(n) == prefix_map(n, bs.len() as int));
        assert(prefix_map(n, bs.len() as int).dom().contains(key));
        let j = choose|j: int|
            0 <= j < bs.len() && #[trigger] branch_map(bs[j]).dom().contains(key);
        assert(branch_in_range(bs, j));
        lemma_branch_map_bounds(bs, j);
        if j < p - 1 {
            assert(key < bs[j + 1].key);
            assert(bs[j + 1].key < key || bs[j + 1].key == bs[p - 1].key);
            assert(false);
        }
        if j > p - 1 {
            assert(key >= bs[j].key);
            assert(false);
        }
        assert(branch_map(bs[p - 1]).dom().contains(key));
        assert(key != bs[p - 1].key);
        assert(node_map(*bs[p - 1].child).dom().contains(key));
        assert(branch_map(bs[p - 1])[key] == node_map(*bs[p - 1].child)[key]);
    }
}

/// A key below every separator key lies below the whole subtree: it is not
/// mapped.
pub proof fn lemma_internal_below<V>(n: Node<V>, key: usize)
    requires
        n is Internal,
        wf_node(n),
        forall|j: int| 0 <= j < n->Internal_0@.len() ==> (#[trigger] n->Internal_0@[j]).key > key,
    ensures
        !node_map(n).dom().contains(key),
{
    let bs = n->Internal_0@;
    lemma_prefix_map_char(n, bs.len() as int);
    if node_map(n).dom().contains(key) {
        assert(node_map(n) == prefix_map(n, bs.len() as int));
        assert(prefix_map(n, bs.len() as int).dom().contains(key));
        let j = choose|j: int|
            0 <= j < bs.len() && #[trigger] branch_map(bs[j]).dom().contains(key);
        assert(branch_in_range(bs, j));
        lemma_branch_map_bounds(bs, j);
    }
}

/// Replacing one separator entry by one whose contribution gains exactly the
/// pair `key -> v` makes the whole subtree's map gain exactly that pair, as
/// long as no later contribution holds the key (an earlier one never can,
/// because contributions prefer the rightmost occurrence).
pub proof fn lemma_update_branch<V>(n: Node<V>, n2: Node<V>, j: int, key: usize, v: V)
    requires
        n is Internal,
        n2 is Internal,
        0 <= j < n->Internal_0@.len(),
        n2->Internal_0@ == n->Internal_0@.update(j, n2->Internal_0@[j]),
        branch_map(n2->Internal_0@[j]) == branch_map(n->Internal_0@[j]).insert(key, v),
        forall|j2: int|
            j < j2 < n->Internal_0@.len() ==> !(#[trigger] branch_map(
                n->Internal_0@[j2],
            )).dom().contains(key),
    ensures
        node_map(n2) == node_map(n).insert(key, v),
{
    let bs = n->Internal_0@;
    let bs2 = n2->Internal_0@;
    assert(bs2.len() == bs.len());
    lemma_update_branch_prefix(n, n2, j, key, v, bs.len() as int);
}

proof fn lemma_update_branch_prefix<V>(n: Node<V>, n2: Node<V>, j: int, key: usize, v: V, m: int)
    requires
        n is Internal,
        n2 is Internal,
        0 <= j < n->Internal_0@.len(),
        0 <= m <= n->Internal_0@.len(),
        n2->Internal_0@ == n->Internal_0@.update(j, n2->Internal_0@[j]),
        branch_map(n2->Internal_0@[j]) == branch_map(n->Internal_0@[j]).insert(key, v),
        forall|j2: int|
            j < j2 < n->Internal_0@.len() ==> !(#[trigger] branch_map(
                n->Internal_0@[j2],
            )).dom().contains(key),
    ensures
        m <= j ==> prefix_map(n2, m) == prefix_map(n, m),
        m > j ==> prefix_map(n2, m) == prefix_map(n, m).insert(key, v),
    decreases m,
{
    let bs = n->Internal_0@;
    let bs2 = n2->Internal_0@;
    if m > 0 {
        lemma_update_branch_prefix(n, n2, j, key, v, m - 1);
        if m - 1 < j {
            assert(bs2[m - 1] == bs[m - 1]);
        } else if m - 1 == j {
            assert(prefix_map(n2, m) =~= prefix_map(n, m).insert(key, v));
        } else {
            assert(bs2[m - 1] == bs[m - 1]);
            assert(!branch_map(bs[m - 1]).dom().contains(key));
            assert(prefix_map(n2, m) =~= prefix_map(n, m).insert(key, v));
        }
    }
}

/// The map of the first `m` separators depends on those separators alone.
pub proof fn lemma_prefix_map_congruent<V>(n: Node<V>, n2: Node<V>, m: int)
    requires
        n is Internal,
        n2 is Internal,
        0 <= m <= n->Internal_0@.len(),
        m <= n2->Internal_0@.len(),
        forall|x: int| 0 <= x < m ==> n->Internal_0@[x] == n2->Internal_0@[x],
    ensures
        prefix_map(n, m) == prefix_map(n2, m),
    decreases m,
{
    if m > 0 {
        lemma_prefix_map_congruent(n, n2, m - 1);
    }
}

/// Cutting the separator sequence at `h`: the first `h + t` separators
/// describe what the first `h` describe, together with what the first `t`
/// separators of the remainder describe.
pub proof fn lemma_prefix_map_concat<V>(n: Node<V>, n2: Node<V>, h: int, t: int)
    requires
        n is Internal,
        n2 is Internal,
        0 <= h <= n->Internal_0@.len(),
        0 <= t <= n->Internal_0@.len() - h,
        n2->Internal_0@ == n->Internal_0@.skip(h),
    ensures
        prefix_map(n, h + t) == prefix_map(n, h).union_prefer_right(prefix_map(n2, t)),
    decreases t,
{
    let bs = n->Internal_0@;
    let bs2 = n2->Internal_0@;
    if t == 0 {
        assert(prefix_map(n, h).union_prefer_right(prefix_map(n2, 0)) =~= prefix_map(n, h));
    } else {
        lemma_prefix_map_concat(n, n2, h, t - 1);
        assert(bs2[t - 1] == bs[h + t - 1]);
        assert(prefix_map(n, h + t) == prefix_map(n, h + t - 1).union_prefer_right(
            branch_map(bs[h + t - 1]),
        ));
        assert(prefix_map(n2, t) == prefix_map(n2, t - 1).union_prefer_right(
            branch_map(bs2[t - 1]),
        ));
        assert(prefix_map(n, h).union_prefer_right(
            prefix_map(n2, t - 1).union_prefer_right(branch_map(bs2[t - 1])),
        ) =~= prefix_map(n, h).union_prefer_right(prefix_map(n2, t - 1)).union_prefer_right(
            branch_map(bs2[t - 1]),
        ));
    }
}

/// Replacing the head separator by one whose contribution loses exactly the
/// pair of the head key makes the whole subtree's map lose that pair.
pub proof fn lemma_shrink_head_branch<V>(n: Node<V>, n2: Node<V>)
    requires
        n is Internal,
        n2 is Internal,
        wf_node(n),
        n->Internal_0@.len() >= 1,
        n2->Internal_0@ == n->Internal_0@.update(0, n2->Internal_0@[0]),
        branch_map(n2->Internal_0@[0]) == branch_map(n->Internal_0@[0]).remove(
            n->Internal_0@[0].key,
        ),
    ensures
        node_map(n2) == node_map(n).remove(n->Internal_0@[0].key),
    decreases n->Internal_0@.len(),
{
    let bs = n->Internal_0@;
    let bs2 = n2->Internal_0@;
    let key = bs[0].key;
    lemma_shrink_head_prefix(n, n2, bs.len() as int);
}

proof fn lemma_shrink_head_prefix<V>(n: Node<V>, n2: Node<V>, m: int)
    requires
        n is Internal,
        n2 is Internal,
        wf_node(n),
        1 <= m <= n->Internal_0@.len(),
        n2->Internal_0@ == n->Internal_0@.update(0, n2->Internal_0@[0]),
        branch_map(n2->Internal_0@[0]) == branch_map(n->Internal_0@[0]).remove(
            n->Internal_0@[0].key,
        ),
    ensures
        prefix_map(n2, m) == prefix_map(n, m).remove(n->Internal_0@[0].key),
    decreases m,
{
    let bs = n->Internal_0@;
    let bs2 = n2->Internal_0@;
    let key = bs[0].key;
    if m == 1 {
        assert(prefix_map(n2, 0) =~= Map::<usize, V>::empty());
        assert(prefix_map(n, 0) =~= Map::<usize, V>::empty());
        assert(prefix_map(n2, 1) == prefix_map(n2, 0).union_prefer_right(branch_map(bs2[0])));
        assert(prefix_map(n, 1) == prefix_map(n, 0).union_prefer_right(branch_map(bs[0])));
        assert(prefix_map(n2, 1) =~= prefix_map(n, 1).remove(key));
    } else {
        lemma_shrink_head_prefix(n, n2, m - 1);
        assert(bs2[m - 1] == bs[m - 1]);
        assert(branch_in_range(bs, m - 1));
        lemma_branch_map_bounds(bs, m - 1);
        assert(!branch_map(bs[m - 1]).dom().contains(key));
        assert(prefix_map(n, m - 1).remove(key).union_prefer_right(branch_map(bs[m - 1]))
            =~= prefix_map(n, m - 1).union_prefer_right(branch_map(bs[m - 1])).remove(key));
    }
}

/// Dropping the head separator, whose child is empty, removes exactly the
/// pair of the head key from the whole subtree's map.
pub proof fn lemma_drop_head_branch<V>(n: Node<V>, n2: Node<V>)
    requires
        n is Internal,
        n2 is Internal,
        wf_node(n),
        n->Internal_0@.len() >= 1,
        n2->Internal_0@ == n->Internal_0@.skip(1),
        node_map(*n->Internal_0@[0].child) == Map::<usize, V>::empty(),
    ensures
        node_map(n2) == node_map(n).remove(n->Internal_0@[0].key),
        wf_node(n2),
{
    let bs = n->Internal_0@;
    let bs2 = n2->Internal_0@;
    let key = bs[0].key;
    // well-formedness of the shifted level
    assert(branches_sorted(bs2));
    assert forall|x: int| 0 <= x < bs2.len() implies wf_node(*(#[trigger] bs2[x]).child) by {
        assert(bs2[x] == bs[x + 1]);
        assert(wf_node(*bs[x + 1].child));
    }
    assert forall|x: int| 0 <= x < bs2.len() implies #[trigger] branch_in_range(bs2, x) by {
        assert(branch_in_range(bs, x + 1));
        assert(bs2[x] == bs[x + 1]);
        assert(x < bs2.len() - 1 ==> bs2[x + 1] == bs[x + 2]);
    }
    assert(wf_node(n2));
    // the head's contribution was the head pair alone
    lemma_prefix_map_concat(n, n2, 1, bs.len() as int - 1);
    assert(node_map(n) == prefix_map(n, 1).union_prefer_right(prefix_map(n2, bs.len() as int - 1)));
    assert(prefix_map(n, 0) =~= Map::<usize, V>::empty());
    assert(prefix_map(n, 1) == prefix_map(n, 0).union_prefer_right(branch_map(bs[0])));
    assert(prefix_map(n, 1) =~= branch_map(bs[0]));
    assert(branch_map(bs[0]) =~= Map::<usize, V>::empty().insert(key, bs[0].value@));
    lemma_prefix_map_char(n2, bs.len() as int - 1);
    assert forall|k: usize| #[trigger] prefix_map(n2, bs.len() as int - 1).dom().contains(
        k,
    ) implies k != key by {
        let j = choose|j: int|
            0 <= j < bs2.len() && #[trigger] branch_map(bs2[j]).dom().contains(k);
        assert(bs2[j] == bs[j + 1]);
        assert(branch_in_range(bs, j + 1));
        lemma_branch_map_bounds(bs, j + 1);
        assert(k >= bs[j + 1].key);
    }
    assert(node_map(n2) == prefix_map(n2, bs.len() as int - 1));
    assert(node_map(n2) =~= node_map(n).remove(key));
}

/// Replacing the value owned by separator `j` — keeping its key and child —
/// keeps the level well formed and inserts the new pair into the subtree map.
pub proof fn lemma_replace_value<V>(n: Node<V>, n2: Node<V>, j: int, v: V)
    requires
        n is Internal,
        n2 is Internal,
        wf_node(n),
        0 <= j < n->Internal_0@.len(),
        n2->Internal_0@ == n->Internal_0@.update(j, n2->Internal_0@[j]),
        n2->Internal_0@[j].key == n->Internal_0@[j].key,
        n2->Internal_0@[j].child == n->Internal_0@[j].child,
        n2->Internal_0@[j].value@ == v,
    ensures
        wf_node(n2),
        node_map(n2) == node_map(n).insert(n->Internal_0@[j].key, v),
{
    let bs = n->Internal_0@;
    let bs2 = n2->Internal_0@;
    let key = bs[j].key;
    assert(branch_map(bs2[j]) =~= branch_map(bs[j]).insert(key, v));
    assert forall|j2: int| j < j2 < bs.len() implies !(#[trigger] branch_map(
        bs[j2],
    )).dom().contains(key) by {
        assert(branch_in_range(bs, j2));
        lemma_branch_map_bounds(bs, j2);
    }
    lemma_update_branch(n, n2, j, key, v);
    assert(branches_sorted(bs2));
    assert forall|x: int| 0 <= x < bs2.len() implies wf_node(*(#[trigger] bs2[x]).child) by {
        assert(bs2[x].child == bs[x].child);
        assert(wf_node(*bs[x].child));
    }
    assert forall|x: int| 0 <= x < bs2.len() implies #[trigger] branch_in_range(bs2, x) by {
        assert(branch_in_range(bs, x));
        assert(bs2[x].child == bs[x].child && bs2[x].key == bs[x].key);
        assert(x < bs2.len() - 1 ==> bs2[x + 1].key == bs[x + 1].key);
    }
}

/// Replacing the child of separator `j` — keeping its key and value — by one
/// whose map gains exactly the pair `key -> v`, where `key` falls strictly
/// inside separator `j`'s range, keeps the level well formed and inserts the
/// pair into the subtree map.
pub proof fn lemma_replace_child<V>(n: Node<V>, n2: Node<V>, j: int, key: usize, v: V)
    requires
        n is Internal,
        n2 is Internal,
        wf_node(n),
        0 <= j < n->Internal_0@.len(),
        n2->Internal_0@ == n->Internal_0@.update(j, n2->Internal_0@[j]),
        n2->Internal_0@[j].key == n->Internal_0@[j].key,
        n2->Internal_0@[j].value@ == n->Internal_0@[j].value@,
        wf_node(*n2->Internal_0@[j].child),
        node_map(*n2->Internal_0@[j].child) == node_map(*n->Internal_0@[j].child).insert(key, v),
        n->Internal_0@[j].key < key,
        j < n->Internal_0@.len() - 1 ==> key < n->Internal_0@[j + 1].key,
    ensures
        wf_node(n2),
        node_map(n2) == node_map(n).insert(key, v),
{
    let bs = n->Internal_0@;
    let bs2 = n2->Internal_0@;
    let b2 = bs2[j];
    assert(branch_map(bs[j]) == node_map(*bs[j].child).insert(bs[j].key, bs[j].value@));
    assert(branch_map(b2) =~= branch_map(bs[j]).insert(key, v));
    assert forall|j2: int| j < j2 < bs.len() implies !(#[trigger] branch_map(
        bs[j2],
    )).dom().contains(key) by {
        assert(branch_in_range(bs, j2));
        lemma_branch_map_bounds(bs, j2);
    }
    lemma_update_branch(n, n2, j, key, v);
    assert(branches_sorted(bs2));
    assert(branch_in_range(bs, j));
    assert forall|k: usize| #[trigger] node_map(*b2.child).dom().contains(k) implies k
        > bs[j].key by {
        if k != key {
            assert(node_map(*bs[j].child).dom().contains(k));
        }
    }
    if j < bs.len() - 1 {
        assert(keys_below(*bs[j].child, bs[j + 1].key));
        assert forall|k: usize| #[trigger] node_map(*b2.child).dom().contains(k) implies k < bs[j
            + 1].key by {
            if k != key {
                assert(node_map(*bs[j].child).dom().contains(k));
            }
        }
    }
    assert(branch_in_range(bs2, j));
    assert forall|x: int| 0 <= x < bs2.len() implies #[trigger] branch_in_range(bs2, x) by {
        if x != j {
            assert(branch_in_range(bs, x));
            assert(bs2[x].child == bs[x].child && bs2[x].key == bs[x].key);
            assert(x < bs2.len() - 1 ==> bs2[x + 1].key == bs[x + 1].key);
        }
    }
    assert forall|x: int| 0 <= x < bs2.len() implies wf_node(*(#[trigger] bs2[x]).child) by {
        if x != j {
            assert(bs2[x].child == bs[x].child);
            assert(wf_node(*bs[x].child));
        }
    }
}

/// Replacing the child of separator `j` — keeping its key and value — by one
/// with the same map keeps the level well formed and the subtree map
/// unchanged.
pub proof fn lemma_same_child<V>(n: Node<V>, n2: Node<V>, j: int)
    requires
        n is Internal,
        n2 is Internal,
        wf_node(n),
        0 <= j < n->Internal_0@.len(),
        n2->Internal_0@ == n->Internal_0@.update(j, n2->Internal_0@[j]),
        n2->Internal_0@[j].key == n->Internal_0@[j].key,
        n2->Internal_0@[j].value@ == n->Internal_0@[j].value@,
        wf_node(*n2->Internal_0@[j].child),
        node_map(*n2->Internal_0@[j].child) == node_map(*n->Internal_0@[j].child),
    ensures
        wf_node(n2),
        node_map(n2) == node_map(n),
{
    let bs = n->Internal_0@;
    let bs2 = n2->Internal_0@;
    let key = bs[j].key;
    let v = bs[j].value@;
    assert(branch_map(bs2[j]) =~= branch_map(bs[j]).insert(key, v));
    assert forall|j2: int| j < j2 < bs.len() implies !(#[trigger] branch_map(
        bs[j2],
    )).dom().contains(key) by {
        assert(branch_in_range(bs, j2));
        lemma_branch_map_bounds(bs, j2);
    }
    lemma_update_branch(n, n2, j, key, v);
    lemma_internal_found(n, j);
    assert(node_map(n).insert(key, v) =~= node_map(n));
    assert(branches_sorted(bs2));
    assert(branch_in_range(bs, j));
    assert forall|k: usize| #[trigger] node_map(*bs2[j].child).dom().contains(k) implies k
        > key by {
        assert(node_map(*bs[j].child).dom().contains(k));
    }
    if j < bs.len() - 1 {
        assert(keys_below(*bs[j].child, bs[j + 1].key));
        assert forall|k: usize| #[trigger] node_map(*bs2[j].child).dom().contains(k) implies k
            < bs[j + 1].key by {
            assert(node_map(*bs[j].child).dom().contains(k));
        }
    }
    assert(branch_in_range(bs2, j));
    assert forall|x: int| 0 <= x < bs2.len() implies #[trigger] branch_in_range(bs2, x) by {
        if x != j {
            assert(branch_in_range(bs, x));
            assert(bs2[x].child == bs[x].child && bs2[x].key == bs[x].key);
            assert(x < bs2.len() - 1 ==> bs2[x + 1].key == bs[x + 1].key);
        }
    }
    assert forall|x: int| 0 <= x < bs2.len() implies wf_node(*(#[trigger] bs2[x]).child) by {
        if x != j {
            assert(bs2[x].child == bs[x].child);
            assert(wf_node(*bs[x].child));
        }
    }
}

/// Replacing one separator entry by two whose contributions together equal
/// the old contribution leaves the whole subtree's map unchanged.
pub proof fn lemma_split_branch<V>(n: Node<V>, n2: Node<V>, j: int)
    requires
        n is Internal,
        n2 is Internal,
        0 <= j < n->Internal_0@.len(),
        n2->Internal_0@ == n->Internal_0@.update(j, n2->Internal_0@[j]).insert(
            j + 1,
            n2->Internal_0@[j + 1],
        ),
        branch_map(n2->Internal_0@[j]).union_prefer_right(branch_map(n2->Internal_0@[j + 1]))
            == branch_map(n->Internal_0@[j]),
    ensures
        node_map(n2) == node_map(n),
{
    let bs = n->Internal_0@;
    let bs2 = n2->Internal_0@;
    assert(bs2.len() == bs.len() + 1);
    lemma_split_branch_prefix(n, n2, j, bs.len() as int);
}

proof fn lemma_split_branch_prefix<V>(n: Node<V>, n2: Node<V>, j: int, m: int)
    requires
        n is Internal,
        n2 is Internal,
        0 <= j < n->Internal_0@.len(),
        0 <= m <= n->Internal_0@.len(),
        n2->Internal_0@ == n->Internal_0@.update(j, n2->Internal_0@[j]).insert(
            j + 1,
            n2->Internal_0@[j + 1],
        ),
        branch_map(n2->Internal_0@[j]).union_prefer_right(branch_map(n2->Internal_0@[j + 1]))
            == branch_map(n->Internal_0@[j]),
    ensures
        m <= j ==> prefix_map(n2, m) == prefix_map(n, m),
        m > j ==> prefix_map(n2, m + 1) == prefix_map(n, m),
    decreases m,
{
    let bs = n->Internal_0@;
    let bs2 = n2->Internal_0@;
    assert(bs2.len() == bs.len() + 1);
    if m > 0 {
        lemma_split_branch_prefix(n, n2, j, m - 1);
        if m - 1 < j {
            assert(bs2[m - 1] == bs[m - 1]);
        } else if m - 1 == j {
            // prefix(n2, j + 2) adds the two new contributions in turn;
            // associativity of the union folds them back into the old one
            assert(prefix_map(n2, j + 1) == prefix_map(n2, j).union_prefer_right(
                branch_map(bs2[j]),
            ));
            assert(prefix_map(n2, j + 2) == prefix_map(n2, j + 1).union_prefer_right(
                branch_map(bs2[j + 1]),
            ));
            assert(prefix_map(n2, j + 2) =~= prefix_map(n, j).union_prefer_right(
                branch_map(bs2[j]).union_prefer_right(branch_map(bs2[j + 1])),
            ));
            assert(prefix_map(n, j + 1) == prefix_map(n, j).union_prefer_right(
                branch_map(bs[j]),
            ));
        } else {
            assert(bs2[m] == bs[m - 1]);
            assert(prefix_map(n2, m + 1) == prefix_map(n2, m).union_prefer_right(
                branch_map(bs2[m]),
            ));
        }
    }
}

} // verus!
