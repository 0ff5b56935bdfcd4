//! The map container: owns the root node and the fanout bound fixed at
//! construction, and exposes point lookup and update over the traversal
//! engine.

use vstd::prelude::*;

use crate::insert::{accept_insert, grow_root};
use crate::node::{node_map, wf_node, Node};
use crate::visit::{accept_get, accept_get_mut};
use crate::B;

verus! {

/// An ordered map from `usize` keys to values, backed by a multi-level
/// search tree whose nodes hold at most `fanout` entries each.
pub struct TreeMap<V> {
    root: Node<V>,
    fanout: usize,
}

impl<V> View for TreeMap<V> {
    type V = Map<usize, V>;

    closed spec fn view(&self) -> Map<usize, V> {
        node_map(self.root)
    }
}

impl<V> TreeMap<V> {
    /// The container's invariant: the tree below the root is well formed and
    /// the fanout bound is large enough for a node to be splittable.
    pub closed spec fn wf(self) -> bool {
        &&& wf_node(self.root)
        &&& self.fanout >= 2
    }

    /// The fanout bound this map was constructed with.
    pub closed spec fn spec_fanout(self) -> usize {
        self.fanout
    }

    /// An empty map with the default fanout bound.
    pub fn new() -> (r: Self)
        ensures
            r.wf(),
            r@ == Map::<usize, V>::empty(),
            r.spec_fanout() == B,
    {
        Self::with_fanout(B)
    }

    /// An empty map with the given fanout bound, fixed for its lifetime.
    pub fn with_fanout(fanout: usize) -> (r: Self)
        requires
            fanout >= 2,
        ensures
            r.wf(),
            r@ == Map::<usize, V>::empty(),
            r.spec_fanout() == fanout,
    {
        let empty: Vec<(usize, V)> = Vec::new();
        let r = TreeMap { root: Node::Terminal(empty), fanout };
        proof {
            assert(r@ =~= Map::<usize, V>::empty());
        }
        r
    }

    /// The fanout bound.
    pub fn fanout(&self) -> (r: usize)
        ensures
            r == self.spec_fanout(),
    {
        self.fanout
    }

    /// Look the key up: the value mapped to it, if any.  Read-only; two
    /// lookups without a mutation in between return the same result.
    pub fn get(&self, key: usize) -> (r: Option<&V>)
        requires
            self.wf(),
        ensures
            match r {
                Some(v) => self@.dom().contains(key) && *v == self@[key],
                None => !self@.dom().contains(key),
            },
    {
        accept_get(&self.root, key)
    }

    /// Look the key up for mutation: a mutable borrow of the storage slot
    /// the key's value lives in — inside a separator's ownership cell or a
    /// terminal entry — or nothing if the key is absent.  After the borrow
    /// is given back, the map holds whatever the caller wrote through it.
    pub fn get_mut(&mut self, key: usize) -> (r: Option<&mut V>)
        requires
            old(self).wf(),
        ensures
            final(self).wf(),
            final(self).spec_fanout() == old(self).spec_fanout(),
            match r {
                Some(v) => old(self)@.dom().contains(key) && *v == old(self)@[key]
                    && final(self)@ == old(self)@.insert(key, *final(v)),
                None => !old(self)@.dom().contains(key) && final(self)@ == old(self)@,
            },
    {
        accept_get_mut(&mut self.root, key)
    }

    /// Map the key to the value, replacing and returning the value the key
    /// was mapped to before, if any.  Splits nodes that outgrow the fanout
    /// bound, promoting each split-off half's minimum pair into the parent.
    pub fn insert(&mut self, key: usize, value: V) -> (r: Option<V>)
        requires
            old(self).wf(),
        ensures
            final(self).wf(),
            final(self)@ == old(self)@.insert(key, value),
            final(self).spec_fanout() == old(self).spec_fanout(),
            match r {
                Some(v) => old(self)@.dom().contains(key) && v == old(self)@[key],
                None => !old(self)@.dom().contains(key),
            },
    {
        let fanout = self.fanout;
        let r = accept_insert(&mut self.root, key, value, fanout);
        let rl = self.root.len();
        if rl > fanout {
            grow_root(&mut self.root, fanout);
        }
        r
    }
}

} // verus!
