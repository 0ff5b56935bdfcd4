//! A sorted, in-memory associative container: an ordered map from `usize`
//! keys to values of any type, backed by a multi-level search tree with a
//! configurable fanout bound.
//!
//! Internal levels hold *separator* entries: a key, the value owned for that
//! exact key, and the subtree of strictly greater keys promoted out of a
//! split.  A lookup that hits a separator key resolves at that level without
//! descending further.

use vstd::prelude::*;

mod cell;
mod insert;
mod laws;
mod lemmas;
mod node;
mod search;
mod tree;
mod visit;

pub use cell::OwnCell;
pub use node::{
    branch_in_range, branch_map, branches_sorted, entries_map, entries_sorted, keys_above,
    keys_below, node_map, prefix_map, spec_node_len, wf_node, Branch, Motion, Node,
};
pub use visit::{accept_get, accept_get_mut, visit_internal, visit_leaf};
pub use laws::{
    lemma_entries_map_of_pairs, lemma_insert_commutes, lemma_insert_frame, lemma_insert_overwrites,
    lemma_insert_then_lookup, lemma_insertion_order_independent, lemma_lookup_deterministic,
    lookup_post,
};
pub use tree::TreeMap;

verus! {

/// Default fanout bound: the maximum number of entries one node may hold
/// before an insertion must split it.
pub const B: usize = 6;

} // verus!
