//! The insertion visitor: descends like the lookup visitor, places the new
//! pair at its level, and splits a node that has outgrown the fanout bound,
//! promoting the split-off half's minimum pair into the parent as a new
//! separator.

use vstd::prelude::*;

use crate::cell::OwnCell;
use crate::lemmas::{
    lemma_branch_map_bounds, lemma_drop_head_branch, lemma_entries_insert_at,
    lemma_entries_map_char, lemma_entries_update_at, lemma_internal_below, lemma_internal_descend,
    lemma_internal_found, lemma_prefix_map_char, lemma_prefix_map_concat,
    lemma_prefix_map_congruent, lemma_replace_child, lemma_replace_value,
    lemma_shrink_head_branch, lemma_split_branch, lemma_split_entries, lemma_update_branch,
};
use crate::node::{
    branch_in_range, branch_map, branches_sorted, entries_map, entries_sorted, keys_above,
    keys_below, node_map, prefix_map, spec_node_len, wf_node, Branch, Node,
};
use crate::search::{branch_search, entry_search};

verus! {

/// Extract the minimum pair of a subtree, leaving the rest of the subtree in
/// place: the mechanism by which a split promotes a subtree minimum into a
/// parent separator without duplicating it below.
#[verifier::rlimit(60)]
fn pull_min<V>(n: &mut Node<V>) -> (r: Option<(usize, V)>)
    requires
        wf_node(*old(n)),
    ensures
        wf_node(*final(n)),
        match r {
            Some(kv) => node_map(*old(n)).dom().contains(kv.0) && node_map(*old(n))[kv.0] == kv.1
                && node_map(*final(n)) == node_map(*old(n)).remove(kv.0) && (forall|k: usize|
                #[trigger] node_map(*old(n)).dom().contains(k) ==> k >= kv.0),
            None => node_map(*old(n)) == Map::<usize, V>::empty() && *final(n) == *old(n),
        },
    decreases *old(n),
{
    let ghost n0 = *old(n);
    match n {
        Node::Terminal(es) => {
            if es.len() == 0 {
                proof {
                    assert(node_map(n0) =~= Map::<usize, V>::empty());
                }
                None
            } else {
                let ghost es0 = es@;
                let e = es.remove(0);
                proof {
                    lemma_entries_map_char(es0);
                    assert(es@ =~= es0.skip(1));
                    assert(forall|i: int| 0 <= i < es@.len() ==> es@[i] == es0[i + 1]);
                    assert(entries_sorted(es@));
                    lemma_entries_map_char(es@);
                    assert forall|k: usize| #[trigger] entries_map(es@).dom().contains(
                        k,
                    ) implies entries_map(es0).dom().contains(k) && k != e.0 && entries_map(
                        es0,
                    )[k] == entries_map(es@)[k] by {
                        let i = choose|i: int| 0 <= i < es@.len() && (#[trigger] es@[i]).0 == k;
                        assert(es0[i + 1].0 == k);
                    }
                    assert forall|k: usize| #[trigger] entries_map(es0).dom().contains(k) && k
                        != e.0 implies entries_map(es@).dom().contains(k) by {
                        let i = choose|i: int| 0 <= i < es0.len() && (#[trigger] es0[i]).0 == k;
                        assert(i >= 1);
                        assert(es@[i - 1].0 == k);
                    }
                    assert(entries_map(es@) =~= entries_map(es0).remove(e.0));
                    assert forall|k: usize| #[trigger] entries_map(es0).dom().contains(
                        k,
                    ) implies k >= e.0 by {
                        let i = choose|i: int| 0 <= i < es0.len() && (#[trigger] es0[i]).0 == k;
                        assert(es0[0].0 <= es0[i].0);
                    }
                }
                Some(e)
            }
        },
        Node::Internal(bs) => {
            if bs.len() == 0 {
                proof {
                    assert(prefix_map(n0, 0) =~= Map::<usize, V>::empty());
                    assert(node_map(n0) =~= Map::<usize, V>::empty());
                }
                None
            } else {
                let ghost bs0 = bs@;
                let b = bs.remove(0);
                let Branch { key: k0, value: cell0, child: mut c0 } = b;
                let ghost child0 = *c0;
                proof {
                    assert(wf_node(*bs0[0].child));
                    assert(branch_in_range(bs0, 0));
                    assert(decreases_to!(n0 => n0->Internal_0));
                    assert(decreases_to!(n0->Internal_0 => n0->Internal_0@[0]));
                    assert(decreases_to!(n0->Internal_0@[0] => *n0->Internal_0@[0].child));
                    assert(child0 == *n0->Internal_0@[0].child);
                    lemma_internal_found(n0, 0);
                    lemma_prefix_map_char(n0, bs0.len() as int);
                    assert forall|k: usize| #[trigger] node_map(n0).dom().contains(k) implies k
                        >= k0 by {
                        assert(node_map(n0) == prefix_map(n0, bs0.len() as int));
                        assert(prefix_map(n0, bs0.len() as int).dom().contains(k));
                        let j = choose|j: int|
                            0 <= j < bs0.len() && #[trigger] branch_map(bs0[j]).dom().contains(k);
                        assert(branch_in_range(bs0, j));
                        lemma_branch_map_bounds(bs0, j);
                        assert(k >= bs0[j].key);
                        assert(bs0[0].key <= bs0[j].key);
                    }
                }
                let pulled = pull_min(&mut *c0);
                match pulled {
                    Some(mkv) => {
                        let nb = Branch { key: mkv.0, value: OwnCell::new(mkv.1), child: c0 };
                        bs.insert(0, nb);
                        proof {
                            let n2 = Node::Internal(*bs);
                            let b2 = bs@[0];
                            let mk = mkv.0;
                            assert(bs@ =~= bs0.update(0, b2));
                            assert(keys_above(child0, k0));
                            assert(node_map(child0).remove(mk).insert(mk, mkv.1) =~= node_map(
                                child0,
                            ));
                            assert(node_map(child0).insert(k0, bs0[0].value@).remove(k0)
                                =~= node_map(child0));
                            assert(branch_map(b2) =~= branch_map(bs0[0]).remove(k0));
                            lemma_shrink_head_branch(n0, n2);
                            // well-formedness: the pulled-up minimum keeps to
                            // the old child's range
                            assert(node_map(child0).dom().contains(mk));
                            assert(mk > k0);
                            if bs0.len() > 1 {
                                assert(keys_below(child0, bs0[1].key));
                            }
                            assert(branches_sorted(bs@));
                            assert forall|k: usize| #[trigger] node_map(*b2.child).dom().contains(
                                k,
                            ) implies k > mk by {
                                assert(node_map(child0).dom().contains(k));
                            }
                            assert(keys_above(*b2.child, mk));
                            if bs0.len() > 1 {
                                assert forall|k: usize| #[trigger] node_map(
                                    *b2.child,
                                ).dom().contains(k) implies k < bs0[1].key by {
                                    assert(node_map(child0).dom().contains(k));
                                }
                            }
                            assert(branch_in_range(bs@, 0));
                            assert forall|x: int|
                                0 <= x < bs@.len() implies #[trigger] branch_in_range(
                                bs@,
                                x,
                            ) by {
                                if x > 0 {
                                    assert(branch_in_range(bs0, x));
                                    assert(bs@[x] == bs0[x]);
                                    assert(x < bs@.len() - 1 ==> bs@[x + 1] == bs0[x + 1]);
                                }
                            }
                            assert forall|x: int| 0 <= x < bs@.len() implies wf_node(
                                *(#[trigger] bs@[x]).child,
                            ) by {
                                if x > 0 {
                                    assert(bs@[x] == bs0[x]);
                                    assert(wf_node(*bs0[x].child));
                                }
                            }
                            assert(wf_node(n2));
                        }
                        Some((k0, cell0.into_inner()))
                    },
                    None => {
                        // the child below held nothing: the head separator
                        // leaves whole, and its level shifts left
                        proof {
                            let n2 = Node::Internal(*bs);
                            assert(bs@ =~= bs0.skip(1));
                            lemma_drop_head_branch(n0, n2);
                        }
                        Some((k0, cell0.into_inner()))
                    },
                }
            }
        },
    }
}

/// Split the terminal child of separator `j`, which has outgrown its bound:
/// keep the lower half under the old separator, and promote the minimum pair
/// of the upper half as a new separator owning the rest of the upper half.
#[verifier::rlimit(60)]
fn split_terminal_at<V>(bs: &mut Vec<Branch<V>>, j: usize)
    requires
        wf_node(Node::Internal(*old(bs))),
        j < old(bs)@.len(),
        (*old(bs)@[j as int].child) is Terminal,
        spec_node_len(*old(bs)@[j as int].child) >= 2,
    ensures
        wf_node(Node::Internal(*final(bs))),
        node_map(Node::Internal(*final(bs))) == node_map(Node::Internal(*old(bs))),
        final(bs)@.len() == old(bs)@.len() + 1,
{
    let ghost bs0 = old(bs)@;
    let ghost n0 = Node::Internal(*old(bs));
    let ghost child0 = *old(bs)@[j as int].child;
    let b = bs.remove(j);
    let Branch { key: bk, value: bv, child: bc } = b;
    match *bc {
        Node::Terminal(mut es) => {
            let ghost es0 = es@;
            let ghost bvv = bv@;
            let h = es.len() / 2;
            let mut right = es.split_off(h);
            let (pk, pv) = right.remove(0);
            proof {
                assert(n0->Internal_0@ == bs0);
                assert(es0 == child0->Terminal_0@);
                assert(wf_node(*bs0[j as int].child));
                assert(wf_node(child0));
                assert(entries_sorted(es0));
                assert(branch_in_range(bs0, j as int));
                assert(es@ =~= es0.subrange(0, h as int));
                assert(right@ =~= es0.subrange(h as int + 1, es0.len() as int));
                assert((pk, pv) == es0[h as int]);
            }
            let bl = Branch { key: bk, value: bv, child: Box::new(Node::Terminal(es)) };
            let br = Branch { key: pk, value: OwnCell::new(pv), child: Box::new(Node::Terminal(right)) };
            bs.insert(j, br);
            bs.insert(j, bl);
            proof {
                let n2 = Node::Internal(*bs);
                let bs2 = bs@;
                let jj = j as int;
                let len0 = bs0.len() as int;
                let ll = es0.len() as int;
                let hh = h as int;
                let left = es0.subrange(0, hh);
                let rest = es0.subrange(hh + 1, ll);
                lemma_entries_map_char(es0);
                // the separator key sits below every key of its child subtree
                assert forall|i: int| 0 <= i < ll implies bk < (#[trigger] es0[i]).0 by {
                    assert(entries_map(es0).dom().contains(es0[i].0));
                    assert(node_map(child0).dom().contains(es0[i].0));
                }
                lemma_split_entries(es0, hh, bk, bvv);
                // the two new contributions together equal the old one
                assert(bs2[jj] == bl && bs2[jj + 1] == br);
                assert(branch_map(bl) == entries_map(left).insert(bk, bvv));
                assert(branch_map(br) == entries_map(rest).insert(pk, pv));
                assert(branch_map(bs0[jj]) == entries_map(es0).insert(bk, bvv));
                assert(branch_map(bs2[jj]).union_prefer_right(branch_map(bs2[jj + 1]))
                    == branch_map(bs0[jj]));
                assert(bs2 =~= bs0.update(jj, bs2[jj]).insert(jj + 1, bs2[jj + 1]));
                lemma_split_branch(n0, n2, jj);
                // well-formedness of the reshaped level
                assert(forall|x: int| 0 <= x < jj ==> bs2[x] == bs0[x]);
                assert(forall|x: int| jj + 2 <= x < bs2.len() ==> bs2[x] == bs0[x - 1]);
                assert(bk == bs0[jj].key);
                assert(entries_map(es0).dom().contains(es0[hh].0));
                assert(node_map(child0).dom().contains(pk));
                assert(bk < pk);
                assert(jj < len0 - 1 ==> pk < bs0[jj + 1].key);
                lemma_entries_map_char(left);
                lemma_entries_map_char(rest);
                assert(forall|i: int| 0 <= i < left.len() ==> left[i] == es0[i]);
                assert(forall|i: int| 0 <= i < rest.len() ==> rest[i] == es0[hh + 1 + i]);
                assert forall|k: usize| #[trigger] entries_map(left).dom().contains(k) implies
                    node_map(child0).dom().contains(k) && k < pk by {
                    let i = choose|i: int| 0 <= i < left.len() && (#[trigger] left[i]).0 == k;
                    assert(es0[i].0 == k);
                    assert(entries_map(es0).dom().contains(k));
                }
                assert forall|k: usize| #[trigger] entries_map(rest).dom().contains(k) implies
                    node_map(child0).dom().contains(k) && k > pk by {
                    let i = choose|i: int| 0 <= i < rest.len() && (#[trigger] rest[i]).0 == k;
                    assert(es0[hh + 1 + i].0 == k);
                    assert(entries_map(es0).dom().contains(k));
                }
                assert(branches_sorted(bs2));
                assert forall|x: int| 0 <= x < bs2.len() implies wf_node(
                    *(#[trigger] bs2[x]).child,
                ) by {
                    if x < jj {
                        assert(wf_node(*bs0[x].child));
                    } else if x == jj {
                        assert(node_map(*bs2[jj].child) == entries_map(left));
                    } else if x == jj + 1 {
                        assert(node_map(*bs2[jj + 1].child) == entries_map(rest));
                    } else {
                        assert(wf_node(*bs0[x - 1].child));
                    }
                }
                assert forall|x: int| 0 <= x < bs2.len() implies #[trigger] branch_in_range(
                    bs2,
                    x,
                ) by {
                    if x < jj {
                        assert(branch_in_range(bs0, x));
                        assert(x < jj - 1 ==> bs2[x + 1] == bs0[x + 1]);
                        assert(x == jj - 1 ==> bs2[x + 1].key == bs0[x + 1].key);
                    } else if x == jj {
                        assert(keys_above(*bs2[jj].child, bk));
                        assert(keys_below(*bs2[jj].child, pk));
                    } else if x == jj + 1 {
                        assert(keys_above(*bs2[jj + 1].child, pk));
                        if jj + 1 < bs2.len() - 1 {
                            assert(bs2[jj + 2].key == bs0[jj + 1].key);
                            assert(keys_below(child0, bs0[jj + 1].key));
                            assert(keys_below(*bs2[jj + 1].child, bs0[jj + 1].key));
                        }
                    } else {
                        assert(branch_in_range(bs0, x - 1));
                        assert(x < bs2.len() - 1 ==> bs2[x + 1] == bs0[x]);
                    }
                }
                assert(wf_node(n2));
            }
        },
        Node::Internal(_) => {
            proof {
                assert(false);
            }
        },
    }
}

/// Split the internal child of separator `j`, which has outgrown its bound:
/// keep the lower half of its separators under the old parent separator, and
/// promote the middle separator's own pair into the parent; the minimum of
/// the middle separator's subtree is pulled up to take its place at the head
/// of the upper half.
#[verifier::rlimit(100)]
fn split_internal_at<V>(bs: &mut Vec<Branch<V>>, j: usize)
    requires
        wf_node(Node::Internal(*old(bs))),
        j < old(bs)@.len(),
        (*old(bs)@[j as int].child) is Internal,
        spec_node_len(*old(bs)@[j as int].child) >= 2,
    ensures
        wf_node(Node::Internal(*final(bs))),
        node_map(Node::Internal(*final(bs))) == node_map(Node::Internal(*old(bs))),
        final(bs)@.len() == old(bs)@.len() + 1,
{
    let ghost bs0 = old(bs)@;
    let ghost n0 = Node::Internal(*old(bs));
    let ghost child0 = *old(bs)@[j as int].child;
    let b = bs.remove(j);
    let Branch { key: bk, value: bv, child: bc } = b;
    match *bc {
        Node::Internal(mut cbs) => {
            let ghost cbs0 = cbs@;
            let ghost bvv = bv@;
            let h = cbs.len() / 2;
            let mut right_bs = cbs.split_off(h);
            let ghost skip_h = Node::Internal(right_bs);
            let bh = right_bs.remove(0);
            let ghost skip_h1 = Node::Internal(right_bs);
            let Branch { key: pk, value: pv, child: mut hc } = bh;
            let ghost hc0 = *hc;
            let ghost left_n = Node::Internal(cbs);
            proof {
                assert(n0->Internal_0@ == bs0);
                assert(child0 == *n0->Internal_0@[j as int].child);
                assert(wf_node(*bs0[j as int].child));
                assert(branch_in_range(bs0, j as int));
                assert(child0->Internal_0@ == cbs0);
                assert(cbs@ =~= cbs0.subrange(0, h as int));
                assert(skip_h->Internal_0@ =~= cbs0.skip(h as int));
                assert(skip_h1->Internal_0@ =~= cbs0.skip(h as int + 1));
                assert(bh == cbs0[h as int]);
                assert(wf_node(hc0));
                assert(branch_in_range(cbs0, h as int));
                assert(decreases_to!(child0 => child0->Internal_0));
                assert(decreases_to!(child0->Internal_0 => child0->Internal_0@[h as int]));
                assert(decreases_to!(child0->Internal_0@[h as int] => *child0->Internal_0@[h
                    as int].child));
                assert(hc0 == *child0->Internal_0@[h as int].child);
            }
            let pulled = pull_min(&mut *hc);
            match pulled {
                Some(mkv) => {
                    right_bs.insert(0, Branch { key: mkv.0, value: OwnCell::new(mkv.1), child: hc });
                },
                None => {},
            }
            let bl = Branch { key: bk, value: bv, child: Box::new(Node::Internal(cbs)) };
            let br = Branch { key: pk, value: pv, child: Box::new(Node::Internal(right_bs)) };
            bs.insert(j, br);
            bs.insert(j, bl);
            proof {
                let jj = j as int;
                let bs2 = bs@;
                assert(bs2 =~= bs0.update(jj, bs2[jj]).insert(jj + 1, bs2[jj + 1]));
                if pulled is Some {
                    let rbs = (*bs2[jj + 1].child)->Internal_0@;
                    assert(rbs =~= cbs0.skip(h as int + 1).insert(0, rbs[0]));
                    assert(rbs.skip(1) =~= cbs0.skip(h as int + 1));
                } else {
                    assert((*bs2[jj + 1].child)->Internal_0@ =~= cbs0.skip(h as int + 1));
                }
                let hcf = if pulled is Some {
                    *bs@[j as int + 1].child->Internal_0@[0].child
                } else {
                    hc0
                };
                lemma_internal_split_reshape(
                    n0,
                    Node::Internal(*bs),
                    j as int,
                    child0,
                    left_n,
                    skip_h,
                    skip_h1,
                    hc0,
                    hcf,
                    pulled,
                    h as int,
                );
            }
        },
        Node::Terminal(_) => {
            proof {
                assert(false);
            }
        },
    }
}

/// The reshaping step of an internal-child split, in the ghost: given the
/// halves and the pulled-up minimum, the two new separator contributions
/// together equal the old one, and every level involved stays well formed.
#[verifier::rlimit(100)]
proof fn lemma_internal_split_reshape<V>(
    n0: Node<V>,
    n2: Node<V>,
    jj: int,
    child0: Node<V>,
    left_n: Node<V>,
    skip_h: Node<V>,
    skip_h1: Node<V>,
    hc0: Node<V>,
    hcf: Node<V>,
    pulled: Option<(usize, V)>,
    hh: int,
)
    requires
        n0 is Internal,
        n2 is Internal,
        wf_node(n0),
        0 <= jj < n0->Internal_0@.len(),
        child0 == *n0->Internal_0@[jj].child,
        child0 is Internal,
        1 <= hh <= child0->Internal_0@.len() - 1,
        left_n is Internal,
        left_n->Internal_0@ == child0->Internal_0@.subrange(0, hh),
        skip_h is Internal,
        skip_h->Internal_0@ == child0->Internal_0@.skip(hh),
        skip_h1 is Internal,
        skip_h1->Internal_0@ == child0->Internal_0@.skip(hh + 1),
        hc0 == *child0->Internal_0@[hh].child,
        match pulled {
            Some(kv) => node_map(hc0).dom().contains(kv.0) && node_map(hc0)[kv.0] == kv.1
                && node_map(hcf) == node_map(hc0).remove(kv.0) && (forall|k: usize|
                #[trigger] node_map(hc0).dom().contains(k) ==> k >= kv.0) && wf_node(hcf),
            None => node_map(hc0) == Map::<usize, V>::empty() && hcf == hc0,
        },
        n2->Internal_0@ == n0->Internal_0@.update(jj, n2->Internal_0@[jj]).insert(
            jj + 1,
            n2->Internal_0@[jj + 1],
        ),
        n2->Internal_0@[jj].key == n0->Internal_0@[jj].key,
        n2->Internal_0@[jj].value@ == n0->Internal_0@[jj].value@,
        *n2->Internal_0@[jj].child == left_n,
        n2->Internal_0@[jj + 1].key == child0->Internal_0@[hh].key,
        n2->Internal_0@[jj + 1].value@ == child0->Internal_0@[hh].value@,
        (*n2->Internal_0@[jj + 1].child) is Internal,
        match pulled {
            Some(kv) => (*n2->Internal_0@[jj + 1].child)->Internal_0@.len()
                == child0->Internal_0@.len() - hh && (*n2->Internal_0@[jj
                + 1].child)->Internal_0@.skip(1) == child0->Internal_0@.skip(hh + 1) && (*n2->Internal_0@[jj
                + 1].child)->Internal_0@[0].key == kv.0 && (*n2->Internal_0@[jj
                + 1].child)->Internal_0@[0].value@ == kv.1 && *(*n2->Internal_0@[jj
                + 1].child)->Internal_0@[0].child == hcf,
            None => (*n2->Internal_0@[jj + 1].child)->Internal_0@ == child0->Internal_0@.skip(
                hh + 1,
            ),
        },
    ensures
        wf_node(n2),
        node_map(n2) == node_map(n0),
{
    let bs0 = n0->Internal_0@;
    let bs2 = n2->Internal_0@;
    let cbs0 = child0->Internal_0@;
    let ll = cbs0.len() as int;
    let bk = bs0[jj].key;
    let bvv = bs0[jj].value@;
    let pk = cbs0[hh].key;
    let pvv = cbs0[hh].value@;
    let right_n = *bs2[jj + 1].child;
    assert(wf_node(*bs0[jj].child));
    assert(branch_in_range(bs0, jj));
    assert(wf_node(hc0));
    assert(branch_in_range(cbs0, hh));

                // decompose the old child's map at the promoted separator
                lemma_prefix_map_concat(child0, skip_h, hh, ll - hh);
                assert(skip_h1->Internal_0@ =~= skip_h->Internal_0@.skip(1));
                lemma_prefix_map_concat(skip_h, skip_h1, 1, ll - hh - 1);
                assert(prefix_map(skip_h, 0) =~= Map::<usize, V>::empty());
                assert(prefix_map(skip_h, 1) == prefix_map(skip_h, 0).union_prefer_right(
                    branch_map(cbs0[hh]),
                ));
                assert(prefix_map(skip_h, 1) =~= branch_map(cbs0[hh]));
                assert(node_map(child0) == prefix_map(child0, hh).union_prefer_right(
                    branch_map(cbs0[hh]).union_prefer_right(node_map(skip_h1)),
                ));
                assert(branch_map(cbs0[hh]) == node_map(hc0).insert(pk, pvv));
                // the lower half keeps exactly the first separators' map
                lemma_prefix_map_congruent(child0, left_n, hh);
                assert(node_map(left_n) == prefix_map(child0, hh));
                // the upper half's map: the old middle child plus the rest
                if pulled is Some {
                    let lead = right_n->Internal_0@[0];
                    let mk = pulled->Some_0.0;
                    lemma_prefix_map_concat(right_n, skip_h1, 1, ll - hh - 1);
                    assert(prefix_map(right_n, 0) =~= Map::<usize, V>::empty());
                    assert(prefix_map(right_n, 1) == prefix_map(right_n, 0).union_prefer_right(
                        branch_map(lead),
                    ));
                    assert(node_map(*lead.child) == node_map(hc0).remove(mk));
                    assert(branch_map(lead) =~= node_map(hc0));
                    assert(node_map(right_n) == prefix_map(right_n, 1 + (ll - hh - 1)));
                    assert(node_map(right_n) =~= node_map(hc0).union_prefer_right(
                        node_map(skip_h1),
                    ));
                } else {
                    assert(node_map(hc0) =~= Map::<usize, V>::empty());
                    assert(right_n->Internal_0@ =~= skip_h1->Internal_0@);
                    lemma_prefix_map_congruent(right_n, skip_h1, ll - hh - 1);
                    assert(node_map(right_n) =~= node_map(hc0).union_prefer_right(
                        node_map(skip_h1),
                    ));
                }
                // range facts for the three components
                lemma_internal_found(child0, hh);
                assert(node_map(child0).dom().contains(pk));
                assert(keys_above(child0, bk));
                assert(bk < pk);
                lemma_prefix_map_char(child0, hh);
                assert forall|k: usize| #[trigger] prefix_map(child0, hh).dom().contains(
                    k,
                ) implies bk < k && k < pk by {
                    let x = choose|x: int|
                        0 <= x < hh && #[trigger] branch_map(cbs0[x]).dom().contains(k);
                    assert(branch_in_range(cbs0, x));
                    lemma_branch_map_bounds(cbs0, x);
                    assert(k < cbs0[x + 1].key);
                    assert(cbs0[x + 1].key <= cbs0[hh].key);
                    assert(node_map(child0).dom().contains(k));
                }
                assert(keys_above(hc0, pk));
                assert(hh < ll - 1 ==> keys_below(hc0, cbs0[hh + 1].key));
                // the remainder needs its own well-formedness for its ranges
                assert(forall|x: int|
                    0 <= x < skip_h1->Internal_0@.len() ==> skip_h1->Internal_0@[x] == cbs0[hh + 1
                        + x]);
                assert(branches_sorted(skip_h1->Internal_0@));
                assert forall|x: int| 0 <= x < skip_h1->Internal_0@.len() implies wf_node(
                    *(#[trigger] skip_h1->Internal_0@[x]).child,
                ) by {
                    assert(wf_node(*cbs0[hh + 1 + x].child));
                }
                assert forall|x: int|
                    0 <= x < skip_h1->Internal_0@.len() implies #[trigger] branch_in_range(
                    skip_h1->Internal_0@,
                    x,
                ) by {
                    assert(branch_in_range(cbs0, hh + 1 + x));
                    assert(x < skip_h1->Internal_0@.len() - 1 ==> skip_h1->Internal_0@[x + 1]
                        == cbs0[hh + 2 + x]);
                }
                assert(wf_node(skip_h1));
                lemma_prefix_map_char(skip_h1, ll - hh - 1);
                assert forall|k: usize| #[trigger] node_map(skip_h1).dom().contains(k) implies k
                    > pk && node_map(child0).dom().contains(k) by {
                    assert(node_map(skip_h1) == prefix_map(skip_h1, ll - hh - 1));
                    let x = choose|x: int|
                        0 <= x < ll - hh - 1 && #[trigger] branch_map(
                            skip_h1->Internal_0@[x],
                        ).dom().contains(k);
                    assert(skip_h1->Internal_0@[x] == cbs0[hh + 1 + x]);
                    assert(branch_in_range(cbs0, hh + 1 + x));
                    lemma_branch_map_bounds(cbs0, hh + 1 + x);
                    assert(k >= cbs0[hh + 1 + x].key);
                    assert(cbs0[hh].key < cbs0[hh + 1].key);
                    assert(cbs0[hh + 1].key <= cbs0[hh + 1 + x].key);
                }
                assert forall|k: usize| #[trigger] node_map(hc0).dom().contains(
                    k,
                ) implies node_map(child0).dom().contains(k) by {
                    assert(branch_map(cbs0[hh]).dom().contains(k));
                    lemma_prefix_map_char(child0, ll);
                    assert(node_map(child0) == prefix_map(child0, ll));
                }
                // the two new contributions together equal the old one
                assert(branch_map(bs2[jj]) == node_map(left_n).insert(bk, bvv));
                assert(branch_map(bs2[jj + 1]) == node_map(right_n).insert(pk, pvv));
                assert(branch_map(bs0[jj]) == node_map(child0).insert(bk, bvv));
                assert(branch_map(bs2[jj]).union_prefer_right(branch_map(bs2[jj + 1]))
                    =~= branch_map(bs0[jj]));
                assert(bs2 =~= bs0.update(jj, bs2[jj]).insert(jj + 1, bs2[jj + 1]));
                lemma_split_branch(n0, n2, jj);
                // well-formedness of the reshaped level and the two halves
                assert(forall|x: int| 0 <= x < jj ==> bs2[x] == bs0[x]);
                assert(forall|x: int| jj + 2 <= x < bs2.len() ==> bs2[x] == bs0[x - 1]);
                assert(bk == bs0[jj].key);
                assert(jj < bs0.len() - 1 ==> keys_below(child0, bs0[jj + 1].key));
                assert(jj < bs0.len() - 1 ==> pk < bs0[jj + 1].key);
                assert(branches_sorted(bs2));
                // the lower half
                assert(forall|x: int| 0 <= x < hh ==> left_n->Internal_0@[x] == cbs0[x]);
                assert(branches_sorted(left_n->Internal_0@));
                assert forall|x: int| 0 <= x < hh implies wf_node(
                    *(#[trigger] left_n->Internal_0@[x]).child,
                ) by {
                    assert(wf_node(*cbs0[x].child));
                }
                assert forall|x: int| 0 <= x < hh implies #[trigger] branch_in_range(
                    left_n->Internal_0@,
                    x,
                ) by {
                    assert(branch_in_range(cbs0, x));
                    assert(x < hh - 1 ==> left_n->Internal_0@[x + 1] == cbs0[x + 1]);
                }
                assert(wf_node(left_n));
                // the upper half
                if pulled is Some {
                    let lead = right_n->Internal_0@[0];
                    let mk = pulled->Some_0.0;
                    assert(node_map(hc0).dom().contains(mk));
                    assert(mk > pk);
                    assert(hh < ll - 1 ==> mk < cbs0[hh + 1].key);
                    assert forall|x: int|
                        1 <= x < right_n->Internal_0@.len() implies right_n->Internal_0@[x]
                        == cbs0[hh + x] by {
                        assert(right_n->Internal_0@[x] == right_n->Internal_0@.skip(1)[x - 1]);
                        assert(cbs0.skip(hh + 1)[x - 1] == cbs0[hh + x]);
                    }
                    assert(branches_sorted(right_n->Internal_0@));
                    assert forall|k: usize| #[trigger] node_map(*lead.child).dom().contains(
                        k,
                    ) implies k > mk by {
                        assert(node_map(hc0).dom().contains(k));
                    }
                    assert(keys_above(*lead.child, mk));
                    if right_n->Internal_0@.len() > 1 {
                        assert forall|k: usize| #[trigger] node_map(*lead.child).dom().contains(
                            k,
                        ) implies k < cbs0[hh + 1].key by {
                            assert(node_map(hc0).dom().contains(k));
                        }
                    }
                    assert(branch_in_range(right_n->Internal_0@, 0));
                    assert forall|x: int|
                        0 <= x < right_n->Internal_0@.len() implies #[trigger] branch_in_range(
                        right_n->Internal_0@,
                        x,
                    ) by {
                        if x > 0 {
                            assert(branch_in_range(cbs0, hh + x));
                            assert(right_n->Internal_0@[x] == cbs0[hh + x]);
                            assert(x < right_n->Internal_0@.len() - 1 ==> right_n->Internal_0@[x
                                + 1] == cbs0[hh + x + 1]);
                        }
                    }
                    assert forall|x: int| 0 <= x < right_n->Internal_0@.len() implies wf_node(
                        *(#[trigger] right_n->Internal_0@[x]).child,
                    ) by {
                        if x > 0 {
                            assert(right_n->Internal_0@[x] == cbs0[hh + x]);
                            assert(wf_node(*cbs0[hh + x].child));
                        }
                    }
                    assert(wf_node(right_n));
                } else {
                    assert(wf_node(right_n));
                }
                // the parent level's ranges
                assert forall|k: usize| #[trigger] node_map(*bs2[jj].child).dom().contains(
                    k,
                ) implies k > bk && k < pk by {
                    assert(prefix_map(child0, hh).dom().contains(k));
                }
                assert forall|k: usize| #[trigger] node_map(*bs2[jj + 1].child).dom().contains(
                    k,
                ) implies k > pk && node_map(child0).dom().contains(k) by {
                    if node_map(hc0).dom().contains(k) {
                        assert(k > pk);
                    } else {
                        assert(node_map(skip_h1).dom().contains(k));
                    }
                }
                assert(keys_above(*bs2[jj].child, bk));
                assert(keys_below(*bs2[jj].child, pk));
                assert(keys_above(*bs2[jj + 1].child, pk));
                assert(branch_in_range(bs2, jj));
                if jj + 1 < bs2.len() - 1 {
                    assert(bs2[jj + 2].key == bs0[jj + 1].key);
                    assert forall|k: usize| #[trigger] node_map(
                        *bs2[jj + 1].child,
                    ).dom().contains(k) implies k < bs0[jj + 1].key by {
                        assert(node_map(child0).dom().contains(k));
                    }
                }
                assert(branch_in_range(bs2, jj + 1));
                assert forall|x: int| 0 <= x < bs2.len() implies #[trigger] branch_in_range(
                    bs2,
                    x,
                ) by {
                    if x < jj {
                        assert(branch_in_range(bs0, x));
                        assert(x < jj - 1 ==> bs2[x + 1] == bs0[x + 1]);
                        assert(x == jj - 1 ==> bs2[x + 1].key == bs0[x + 1].key);
                    } else if jj + 2 <= x {
                        assert(branch_in_range(bs0, x - 1));
                        assert(x < bs2.len() - 1 ==> bs2[x + 1] == bs0[x]);
                    }
                }
                assert forall|x: int| 0 <= x < bs2.len() implies wf_node(
                    *(#[trigger] bs2[x]).child,
                ) by {
                    if x < jj {
                        assert(wf_node(*bs0[x].child));
                    } else if jj + 2 <= x {
                        assert(wf_node(*bs0[x - 1].child));
                    }
                }
}

/// Split the child of separator `j`, whatever its kind, once it has outgrown
/// its bound.
fn split_child_at<V>(bs: &mut Vec<Branch<V>>, j: usize)
    requires
        wf_node(Node::Internal(*old(bs))),
        j < old(bs)@.len(),
        spec_node_len(*old(bs)@[j as int].child) >= 2,
    ensures
        wf_node(Node::Internal(*final(bs))),
        node_map(Node::Internal(*final(bs))) == node_map(Node::Internal(*old(bs))),
        final(bs)@.len() == old(bs)@.len() + 1,
{
    let terminal = bs[j].child.is_terminal();
    if terminal {
        split_terminal_at(bs, j);
    } else {
        split_internal_at(bs, j);
    }
}

/// Replace a root that has outgrown its bound by an internal root over it:
/// the root's minimum pair is pulled up into the new root's single separator,
/// and the old root, now that separator's child, is split in two.
pub(crate) fn grow_root<V>(root: &mut Node<V>, fanout: usize)
    requires
        wf_node(*old(root)),
        spec_node_len(*old(root)) >= 2,
        fanout >= 2,
    ensures
        wf_node(*final(root)),
        node_map(*final(root)) == node_map(*old(root)),
{
    let ghost root0 = *old(root);
    let empty: Vec<(usize, V)> = Vec::new();
    let mut tmp = Node::Terminal(empty);
    core::mem::swap(&mut tmp, root);
    let pulled = pull_min(&mut tmp);
    match pulled {
        Some(kv) => {
            let clen = tmp.len();
            let mut bs: Vec<Branch<V>> = Vec::new();
            bs.push(Branch { key: kv.0, value: OwnCell::new(kv.1), child: Box::new(tmp) });
            proof {
                let n2 = Node::Internal(bs);
                assert forall|k: usize| #[trigger] node_map(*bs@[0].child).dom().contains(
                    k,
                ) implies k > kv.0 by {
                    assert(node_map(root0).dom().contains(k));
                }
                assert(keys_above(*bs@[0].child, kv.0));
                assert(branch_in_range(bs@, 0));
                assert(forall|x: int|
                    0 <= x < bs@.len() ==> #[trigger] branch_in_range(bs@, x));
                assert(forall|x: int|
                    0 <= x < bs@.len() ==> wf_node(*(#[trigger] bs@[x]).child));
                assert(wf_node(n2));
                assert(prefix_map(n2, 0) =~= Map::<usize, V>::empty());
                assert(prefix_map(n2, 1) == prefix_map(n2, 0).union_prefer_right(
                    branch_map(bs@[0]),
                ));
                assert(node_map(n2) == prefix_map(n2, 1));
                assert(node_map(n2) =~= node_map(root0));
            }
            if clen > fanout {
                split_child_at(&mut bs, 0);
            }
            *root = Node::Internal(bs);
        },
        None => {
            *root = tmp;
        },
    }
}

/// The traversal pass of the insertion visitor: place the pair at the level
/// the shared binary-search policy picks, replacing the value if the key is
/// already present, and split a terminal child that has outgrown `fanout`.
/// A node may leave this function holding one entry more than the bound; the
/// caller (its parent, or the map container at the root) splits it.
///
/// Returns the value previously mapped to the key, if any.
#[verifier::rlimit(60)]
pub(crate) fn accept_insert<V>(n: &mut Node<V>, key: usize, value: V, fanout: usize) -> (r: Option<
    V,
>)
    requires
        wf_node(*old(n)),
        fanout >= 2,
    ensures
        wf_node(*final(n)),
        node_map(*final(n)) == node_map(*old(n)).insert(key, value),
        match r {
            Some(v) => node_map(*old(n)).dom().contains(key) && v == node_map(*old(n))[key],
            None => !node_map(*old(n)).dom().contains(key),
        },
    decreases *old(n),
{
    let ghost n0 = *old(n);
    match n {
        Node::Terminal(es) => {
            proof {
                lemma_entries_map_char(es@);
            }
            let ghost es0 = es@;
            match entry_search(es, key) {
                Ok(i) => {
                    let old_pair = es.remove(i);
                    es.insert(i, (key, value));
                    proof {
                        assert(es@ =~= es0.update(i as int, (key, value)));
                        lemma_entries_update_at(es0, i as int, value);
                    }
                    Some(old_pair.1)
                },
                Err(p) => {
                    es.insert(p, (key, value));
                    proof {
                        lemma_entries_insert_at(es0, p as int, key, value);
                        if entries_map(es0).dom().contains(key) {
                            let i = choose|i: int|
                                0 <= i < es0.len() && (#[trigger] es0[i]).0 == key;
                            assert(false);
                        }
                    }
                    None
                },
            }
        },
        Node::Internal(bs) => {
            let ghost bs0 = bs@;
            match branch_search(bs, key) {
                Ok(i) => {
                    let mut b = bs.remove(i);
                    let old_v = b.value.replace(value);
                    bs.insert(i, b);
                    proof {
                        let ii = i as int;
                        assert(bs@ =~= bs0.update(ii, bs@[ii]));
                        lemma_internal_found(n0, ii);
                        lemma_replace_value(n0, Node::Internal(*bs), ii, value);
                    }
                    Some(old_v)
                },
                Err(p) => {
                    if p == 0 {
                        if bs.len() == 0 {
                            // an internal level with no separators yet: the
                            // pair becomes its first separator, over an empty
                            // terminal subtree
                            let empty: Vec<(usize, V)> = Vec::new();
                            let nb = Branch {
                                key,
                                value: OwnCell::new(value),
                                child: Box::new(Node::Terminal(empty)),
                            };
                            bs.push(nb);
                            proof {
                                let bs2 = bs@;
                                assert(entries_map(Seq::<(usize, V)>::empty()) =~= Map::<
                                    usize,
                                    V,
                                >::empty());
                                assert(node_map(*bs2[0].child) =~= Map::<usize, V>::empty());
                                assert(prefix_map(n0, 0) =~= Map::<usize, V>::empty());
                                assert(node_map(n0) =~= Map::<usize, V>::empty());
                                let n2 = Node::Internal(*bs);
                                assert(prefix_map(n2, 1) == prefix_map(n2, 0).union_prefer_right(
                                    branch_map(bs2[0]),
                                ));
                                assert(node_map(n2) =~= node_map(n0).insert(key, value));
                                assert(branch_in_range(bs2, 0));
                                assert(wf_node(*bs2[0].child));
                                assert(forall|x: int|
                                    0 <= x < bs2.len() ==> wf_node(*(#[trigger] bs2[x]).child));
                                assert(forall|x: int|
                                    0 <= x < bs2.len() ==> #[trigger] branch_in_range(bs2, x));
                                assert(wf_node(n2));
                            }
                            None
                        } else {
                            // the new key precedes the subtree minimum: it
                            // takes over separator 0, whose old pair sinks
                            // into its child, where it is again the minimum
                            let mut b = bs.remove(0);
                            let old_key = b.key;
                            b.key = key;
                            let old_val = b.value.replace(value);
                            let ghost child0 = *b.child;
                            proof {
                                assert(b.child == bs0[0].child);
                                assert(wf_node(*bs0[0].child));
                                assert(decreases_to!(n0 => n0->Internal_0));
                                assert(decreases_to!(n0->Internal_0 => n0->Internal_0@[0]));
                                assert(decreases_to!(n0->Internal_0@[0] => *n0->Internal_0@[0].child));
                                assert(child0 == *n0->Internal_0@[0].child);
                            }
                            let _sunk = accept_insert(&mut *b.child, old_key, old_val, fanout);
                            let clen = b.child.len();
                            bs.insert(0, b);
                            proof {
                                let b2 = bs@[0];
                                assert(bs@ =~= bs0.update(0, b2));
                                assert(branch_in_range(bs0, 0));
                                assert(keys_above(child0, old_key));
                                assert(node_map(*b2.child) == node_map(child0).insert(
                                    old_key,
                                    old_val,
                                ));
                                assert(branch_map(bs0[0]) == node_map(child0).insert(
                                    old_key,
                                    old_val,
                                ));
                                assert(branch_map(b2) =~= branch_map(bs0[0]).insert(key, value));
                                assert forall|j2: int| 0 < j2 < bs0.len() implies !(
                                #[trigger] branch_map(bs0[j2])).dom().contains(key) by {
                                    assert(branch_in_range(bs0, j2));
                                    lemma_branch_map_bounds(bs0, j2);
                                }
                                lemma_update_branch(n0, Node::Internal(*bs), 0, key, value);
                                lemma_internal_below(n0, key);
                                // well-formedness: the stolen separator stays
                                // below its grown child and the next key
                                assert(branches_sorted(bs@));
                                assert forall|k: usize| #[trigger] node_map(
                                    *b2.child,
                                ).dom().contains(k) implies k > key by {
                                    if k != old_key {
                                        assert(node_map(child0).dom().contains(k));
                                    }
                                }
                                assert(keys_above(*b2.child, key));
                                if bs0.len() > 1 {
                                    assert(keys_below(child0, bs0[1].key));
                                    assert forall|k: usize| #[trigger] node_map(
                                        *b2.child,
                                    ).dom().contains(k) implies k < bs0[1].key by {
                                        if k != old_key {
                                            assert(node_map(child0).dom().contains(k));
                                        }
                                    }
                                }
                                assert(branch_in_range(bs@, 0));
                                assert forall|x: int|
                                    0 <= x < bs@.len() implies #[trigger] branch_in_range(
                                    bs@,
                                    x,
                                ) by {
                                    if x > 0 {
                                        assert(branch_in_range(bs0, x));
                                        assert(bs@[x].child == bs0[x].child && bs@[x].key == bs0[
                                            x
                                        ].key);
                                        assert(x < bs@.len() - 1 ==> bs@[x + 1].key == bs0[x
                                            + 1].key);
                                    }
                                }
                                assert forall|x: int| 0 <= x < bs@.len() implies wf_node(
                                    *(#[trigger] bs@[x]).child,
                                ) by {
                                    if x > 0 {
                                        assert(bs@[x].child == bs0[x].child);
                                        assert(wf_node(*bs0[x].child));
                                    }
                                }
                                assert(wf_node(Node::Internal(*bs)));
                            }
                            if clen > fanout {
                                split_child_at(bs, 0);
                            }
                            None
                        }
                    } else {
                        // descend into the child of the greatest separator
                        // key below the search key
                        let mut b = bs.remove(p - 1);
                        let ghost child0 = *b.child;
                        let ghost pp = p as int;
                        proof {
                            assert(b == bs0[pp - 1]);
                            assert(wf_node(*bs0[pp - 1].child));
                            assert(decreases_to!(n0 => n0->Internal_0));
                            assert(decreases_to!(n0->Internal_0 => n0->Internal_0@[pp - 1]));
                            assert(decreases_to!(n0->Internal_0@[pp - 1] => *n0->Internal_0@[pp
                                - 1].child));
                            assert(child0 == *n0->Internal_0@[pp - 1].child);
                        }
                        let r2 = accept_insert(&mut *b.child, key, value, fanout);
                        let clen = b.child.len();
                        bs.insert(p - 1, b);
                        proof {
                            assert(bs@ =~= bs0.update(pp - 1, bs@[pp - 1]));
                            lemma_replace_child(n0, Node::Internal(*bs), pp - 1, key, value);
                            lemma_internal_descend(n0, key, pp);
                        }
                        if clen > fanout {
                            split_child_at(bs, p - 1);
                        }
                        r2
                    }
                },
            }
        },
    }
}

} // verus!
