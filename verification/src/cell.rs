//! The ownership cell: the single-owner slot that holds the value promoted
//! into a separator entry.
//!
//! A separator owns the value for its key directly; the key-value pair is
//! *not* duplicated inside the child subtree it was promoted from.  The cell
//! stores its value inline: Rust's ownership discipline already gives every
//! traversal a stable path to the slot, so no heap indirection is needed.

use vstd::prelude::*;

verus! {

pub struct OwnCell<V> {
    v: V,
}

impl<V> View for OwnCell<V> {
    type V = V;

    closed spec fn view(&self) -> V {
        self.v
    }
}

impl<V> OwnCell<V> {
    /// Wrap a value, typically one being promoted into a separator.
    pub fn new(v: V) -> (c: Self)
        ensures
            c@ == v,
    {
        OwnCell { v }
    }

    /// Borrow the stored value.
    pub fn borrow(&self) -> (r: &V)
        ensures
            *r == self@,
    {
        &self.v
    }

    /// Borrow the stored value mutably; the cell afterwards holds whatever
    /// the caller wrote through the borrow.
    pub fn borrow_mut(&mut self) -> (r: &mut V)
        ensures
            *r == old(self)@,
            final(self)@ == *final(r),
    {
        &mut self.v
    }

    /// Swap in a new value, handing back the one held so far.
    pub fn replace(&mut self, v: V) -> (r: V)
        ensures
            r == old(self)@,
            final(self)@ == v,
    {
        let mut taken = v;
        core::mem::swap(&mut self.v, &mut taken);
        taken
    }

    /// Unwrap the cell, e.g. when a separator entry is dissolved.
    pub fn into_inner(self) -> (r: V)
        ensures
            r == self@,
    {
        self.v
    }
}

} // verus!
