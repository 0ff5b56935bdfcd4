//! The point-lookup visitor and the traversal engine that drives it.
//!
//! The visitor describes the decision taken at each node: binary-search the
//! node's ordered entries; on an exact match record the value found and
//! finish; otherwise hand the engine the insertion point to descend at.  The
//! engine walks from the root, one visit per level, interpreting the returned
//! `Motion`, and never revisits a node.

use vstd::prelude::*;

use crate::lemmas::{
    lemma_entries_map_char, lemma_entries_update_at, lemma_internal_below, lemma_internal_descend,
    lemma_internal_found, lemma_replace_child, lemma_replace_value, lemma_same_child,
};
use crate::node::{branches_sorted, entries_map, entries_sorted, node_map, wf_node, Branch, Motion, Node};
use crate::search::{branch_search, entry_search};

verus! {

/// The lookup visitor's decision at an internal node: on an exact match,
/// record the separator's value and finish; otherwise descend at the
/// insertion point.
pub fn visit_internal<'a, V>(bs: &'a Vec<Branch<V>>, key: usize) -> (r: (Motion, Option<&'a V>))
    requires
        branches_sorted(bs@),
    ensures
        match r.0 {
            Motion::Finish => r.1 matches Some(v) && exists|i: int|
                0 <= i < bs@.len() && (#[trigger] bs@[i]).key == key && *v == bs@[i].value@,
            Motion::Descend(p) => r.1 is None && 0 <= p <= bs@.len() && (forall|j: int|
                0 <= j < p ==> (#[trigger] bs@[j]).key < key) && (forall|j: int|
                p <= j < bs@.len() ==> (#[trigger] bs@[j]).key > key),
        },
{
    match branch_search(bs, key) {
        Ok(i) => (Motion::Finish, Some(bs[i].value.borrow())),
        Err(p) => (Motion::Descend(p), None),
    }
}

/// The lookup visitor's action at a terminal node: record the value on an
/// exact match; a terminal node is always the last level visited.
pub fn visit_leaf<'a, V>(es: &'a Vec<(usize, V)>, key: usize) -> (r: Option<&'a V>)
    requires
        entries_sorted(es@),
    ensures
        match r {
            Some(v) => entries_map(es@).dom().contains(key) && *v == entries_map(es@)[key],
            None => !entries_map(es@).dom().contains(key),
        },
{
    proof {
        lemma_entries_map_char(es@);
    }
    match entry_search(es, key) {
        Ok(i) => Some(&es[i].1),
        Err(_) => {
            proof {
                if entries_map(es@).dom().contains(key) {
                    let i = choose|i: int| 0 <= i < es@.len() && (#[trigger] es@[i]).0 == key;
                    assert(es@[i].0 == key);
                }
            }
            None
        },
    }
}

/// The traversal engine for a point lookup: drive the visitor from `n`
/// downwards, one visit per level, following its `Motion` directives.
pub fn accept_get<'a, V>(n: &'a Node<V>, key: usize) -> (r: Option<&'a V>)
    requires
        wf_node(*n),
    ensures
        match r {
            Some(v) => node_map(*n).dom().contains(key) && *v == node_map(*n)[key],
            None => !node_map(*n).dom().contains(key),
        },
    decreases *n,
{
    match n {
        Node::Internal(bs) => {
            match visit_internal(bs, key) {
                (Motion::Finish, found) => {
                    proof {
                        let i = choose|i: int|
                            0 <= i < bs@.len() && (#[trigger] bs@[i]).key == key
                                && *found->Some_0 == bs@[i].value@;
                        lemma_internal_found(*n, i);
                    }
                    found
                },
                (Motion::Descend(p), _) => {
                    if p == 0 {
                        // the key precedes the subtree minimum
                        proof {
                            lemma_internal_below(*n, key);
                        }
                        None
                    } else {
                        proof {
                            lemma_internal_descend(*n, key, p as int);
                        }
                        accept_get(&bs[p - 1].child, key)
                    }
                },
            }
        },
        Node::Terminal(es) => visit_leaf(es, key),
    }
}

/// The mutable lookup visitor's own traversal pass: the same walk as the
/// read-only visitor, but threading mutable access through the node arrays
/// end-to-end, so that the matched storage slot — inside a separator's
/// ownership cell or inside a terminal entry — comes back as a mutable
/// borrow.  The tree holds, after the borrow is given back, whatever the
/// caller wrote through it, and stays well formed.
pub fn accept_get_mut<'a, V>(n: &'a mut Node<V>, key: usize) -> (r: Option<&'a mut V>)
    requires
        wf_node(*old(n)),
    ensures
        wf_node(*final(n)),
        match r {
            Some(v) => node_map(*old(n)).dom().contains(key) && *v == node_map(*old(n))[key]
                && node_map(*final(n)) == node_map(*old(n)).insert(key, *final(v)),
            None => !node_map(*old(n)).dom().contains(key) && node_map(*final(n)) == node_map(
                *old(n),
            ),
        },
    decreases *old(n),
{
    let ghost n0 = *old(n);
    match n {
        Node::Internal(bs) => {
            let ghost bs0 = bs@;
            match branch_search(bs, key) {
                Ok(i) => {
                    let ghost ii = i as int;
                    proof {
                        lemma_internal_found(n0, ii);
                        // whatever value the caller leaves in the cell, the
                        // level stays well formed and the map gains that pair
                        assert forall|n2: Node<V>|
                            #![trigger node_map(n2)]
                            #![trigger wf_node(n2)]
                            n2 is Internal && n2->Internal_0@.len() == bs0.len() && (forall|x: int|
                                0 <= x < bs0.len() && x != ii ==> n2->Internal_0@[x] == bs0[x])
                                && n2->Internal_0@[ii].key == bs0[ii].key
                                && n2->Internal_0@[ii].child == bs0[ii].child implies wf_node(n2)
                            && node_map(n2) == node_map(n0).insert(
                            key,
                            n2->Internal_0@[ii].value@,
                        ) by {
                            assert(n2->Internal_0@ =~= bs0.update(ii, n2->Internal_0@[ii]));
                            lemma_replace_value(n0, n2, ii, n2->Internal_0@[ii].value@);
                        }
                    }
                    let vref = bs[i].value.borrow_mut();
                    Some(vref)
                },
                Err(p) => {
                    if p == 0 {
                        proof {
                            lemma_internal_below(n0, key);
                        }
                        None
                    } else {
                        let ghost pp = p as int;
                        proof {
                            lemma_internal_descend(n0, key, pp);
                            assert(wf_node(*bs0[pp - 1].child));
                            assert(decreases_to!(n0 => n0->Internal_0));
                            assert(decreases_to!(n0->Internal_0 => n0->Internal_0@[pp - 1]));
                            assert(decreases_to!(n0->Internal_0@[pp - 1] => *n0->Internal_0@[pp
                                - 1].child));
                            let child0 = *bs0[pp - 1].child;
                            // whatever the walk below hands back, lift its
                            // effect on the child's map to this level
                            assert forall|n2: Node<V>|
                                #![trigger node_map(n2)]
                                #![trigger wf_node(n2)]
                                n2 is Internal && n2->Internal_0@.len() == bs0.len() && (forall|
                                    x: int,
                                |
                                    0 <= x < bs0.len() && x != pp - 1 ==> n2->Internal_0@[x]
                                        == bs0[x]) && n2->Internal_0@[pp - 1].key == bs0[pp - 1].key
                                    && n2->Internal_0@[pp - 1].value@ == bs0[pp - 1].value@
                                    && wf_node(*n2->Internal_0@[pp - 1].child) implies (
                            (node_map(*n2->Internal_0@[pp - 1].child) == node_map(child0).insert(
                                key,
                                node_map(*n2->Internal_0@[pp - 1].child)[key],
                            ) ==> wf_node(n2) && node_map(n2) == node_map(n0).insert(
                                key,
                                node_map(*n2->Internal_0@[pp - 1].child)[key],
                            )) && (node_map(*n2->Internal_0@[pp - 1].child) == node_map(child0)
                                ==> wf_node(n2) && node_map(n2) == node_map(n0))) by {
                                assert(n2->Internal_0@ =~= bs0.update(
                                    pp - 1,
                                    n2->Internal_0@[pp - 1],
                                ));
                                if node_map(*n2->Internal_0@[pp - 1].child) == node_map(
                                    child0,
                                ).insert(key, node_map(*n2->Internal_0@[pp - 1].child)[key]) {
                                    lemma_replace_child(
                                        n0,
                                        n2,
                                        pp - 1,
                                        key,
                                        node_map(*n2->Internal_0@[pp - 1].child)[key],
                                    );
                                }
                                if node_map(*n2->Internal_0@[pp - 1].child) == node_map(child0) {
                                    lemma_same_child(n0, n2, pp - 1);
                                }
                            }
                        }
                        let r = accept_get_mut(&mut bs[p - 1].child, key);
                        r
                    }
                },
            }
        },
        Node::Terminal(es) => {
            let ghost es0 = es@;
            proof {
                lemma_entries_map_char(es0);
            }
            match entry_search(es, key) {
                Ok(i) => {
                    let ghost ii = i as int;
                    proof {
                        // whatever value the caller leaves in the entry, the
                        // level stays sorted and the map gains that pair
                        assert forall|s2: Seq<(usize, V)>|
                            #![trigger entries_map(s2)]
                            #![trigger entries_sorted(s2)]
                            s2.len() == es0.len() && (forall|x: int|
                                0 <= x < es0.len() && x != ii ==> s2[x] == es0[x]) && s2[ii].0
                                == es0[ii].0 implies entries_sorted(s2)
                            && entries_map(s2) == entries_map(es0).insert(
                            key,
                            s2[ii].1,
                        ) by {
                            assert(s2 =~= es0.update(ii, (es0[ii].0, s2[ii].1)));
                            lemma_entries_update_at(es0, ii, s2[ii].1);
                        }
                    }
                    let vref = &mut es[i].1;
                    Some(vref)
                },
                Err(_) => {
                    proof {
                        if entries_map(es0).dom().contains(key) {
                            let i = choose|i: int|
                                0 <= i < es0.len() && (#[trigger] es0[i]).0 == key;
                            assert(false);
                        }
                    }
                    None
                },
            }
        },
    }
}

} // verus!
