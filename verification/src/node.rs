//! The node model: internal nodes made of ordered separator entries, and
//! terminal nodes made of ordered key-value pairs, together with the
//! mathematical view of a subtree as a map and its well-formedness invariant.

use vstd::prelude::*;

use crate::cell::OwnCell;

verus! {

/// The directive a visitor hands back at an internal node.
///
/// `Descend(p)` carries the binary-search insertion point for the key: the
/// index of the first separator whose key is strictly greater.  The engine
/// descends into the child of separator `p - 1` (the greatest separator key
/// below the search key); `Descend(0)` means the key precedes every separator
/// and so lies below the subtree minimum, which ends the walk.  `Finish`
/// means the decision is already resolved at this level.
pub enum Motion {
    Descend(usize),
    Finish,
}

/// A separator entry of an internal node: a key, the value owned for exactly
/// that key, and the subtree of strictly greater keys that was split off
/// when this entry was promoted.
pub struct Branch<V> {
    pub key: usize,
    pub value: OwnCell<V>,
    pub child: Box<Node<V>>,
}

/// A node of the search tree: an internal node holds separator entries in
/// strictly increasing key order; a terminal node holds key-value pairs in
/// strictly increasing key order.
pub enum Node<V> {
    Internal(Vec<Branch<V>>),
    Terminal(Vec<(usize, V)>),
}

/// Key-value pairs in strictly increasing key order.
pub open spec fn entries_sorted<V>(es: Seq<(usize, V)>) -> bool {
    forall|i: int, j: int| 0 <= i < j < es.len() ==> (#[trigger] es[i]).0 < (#[trigger] es[j]).0
}

/// Separator entries in strictly increasing key order.
pub open spec fn branches_sorted<V>(bs: Seq<Branch<V>>) -> bool {
    forall|i: int, j: int| 0 <= i < j < bs.len() ==> (#[trigger] bs[i]).key < (#[trigger] bs[j]).key
}

/// The map described by a sequence of terminal entries.
pub open spec fn entries_map<V>(es: Seq<(usize, V)>) -> Map<usize, V>
    decreases es.len(),
{
    if es.len() == 0 {
        Map::empty()
    } else {
        entries_map(es.drop_last()).insert(es.last().0, es.last().1)
    }
}

/// The map contributed by one separator entry: everything below its child,
/// plus its own key-value pair.
pub open spec fn branch_map<V>(b: Branch<V>) -> Map<usize, V>
    decreases b, 1int, 0int,
{
    node_map(*b.child).insert(b.key, b.value@)
}

/// The map described by the first `i` separator entries of an internal node.
pub open spec fn prefix_map<V>(n: Node<V>, i: int) -> Map<usize, V>
    decreases n, 0int, i,
{
    match n {
        Node::Internal(bs) => if i <= 0 || i > bs@.len() {
            Map::empty()
        } else {
            prefix_map(n, i - 1).union_prefer_right(branch_map(bs@[i - 1]))
        },
        Node::Terminal(_) => Map::empty(),
    }
}

/// The map described by a whole subtree.
pub open spec fn node_map<V>(n: Node<V>) -> Map<usize, V>
    decreases n, 1int, 0int,
{
    match n {
        Node::Internal(bs) => prefix_map(n, bs@.len() as int),
        Node::Terminal(es) => entries_map(es@),
    }
}

/// Everything a subtree maps lies strictly above `key`.
pub open spec fn keys_above<V>(n: Node<V>, key: usize) -> bool {
    forall|k: usize| #[trigger] node_map(n).dom().contains(k) ==> k > key
}

/// Everything a subtree maps lies strictly below `key`.
pub open spec fn keys_below<V>(n: Node<V>, key: usize) -> bool {
    forall|k: usize| #[trigger] node_map(n).dom().contains(k) ==> k < key
}

/// The range constraint on the child of separator `i`: only keys strictly
/// greater than its own key and strictly smaller than the next separator key.
pub open spec fn branch_in_range<V>(bs: Seq<Branch<V>>, i: int) -> bool {
    &&& keys_above(*bs[i].child, bs[i].key)
    &&& (i < bs.len() - 1 ==> keys_below(*bs[i].child, bs[i + 1].key))
}

/// Well-formedness of a subtree: keys strictly increase at every level, and
/// each separator's child subtree stays inside that separator's key range.
pub open spec fn wf_node<V>(n: Node<V>) -> bool
    decreases n,
{
    match n {
        Node::Internal(bs) => {
            &&& branches_sorted(bs@)
            &&& (forall|i: int| 0 <= i < bs@.len() ==> wf_node(*(#[trigger] bs@[i]).child))
            &&& (forall|i: int| 0 <= i < bs@.len() ==> #[trigger] branch_in_range(bs@, i))
        },
        Node::Terminal(es) => entries_sorted(es@),
    }
}

/// Number of entries held directly in a node; the fanout bound applies to it.
pub open spec fn spec_node_len<V>(n: Node<V>) -> nat {
    match n {
        Node::Internal(bs) => bs@.len(),
        Node::Terminal(es) => es@.len(),
    }
}

impl<V> Node<V> {
    /// How many entries this node holds directly.
    pub fn len(&self) -> (r: usize)
        ensures
            r == spec_node_len(*self),
    {
        match self {
            Node::Internal(bs) => bs.len(),
            Node::Terminal(es) => es.len(),
        }
    }

    /// Whether this node is a terminal node.
    pub fn is_terminal(&self) -> (r: bool)
        ensures
            r == (*self is Terminal),
    {
        match self {
            Node::Internal(_) => false,
            Node::Terminal(_) => true,
        }
    }
}

} // verus!
