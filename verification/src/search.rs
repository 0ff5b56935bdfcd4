//! Binary search over the ordered entry arrays of a node.
//!
//! The tie-break policy is shared by every visitor: an exact match yields its
//! index (`Ok`); otherwise the insertion point — the index of the first entry
//! with a strictly greater key — is yielded (`Err`).

use vstd::prelude::*;

use crate::node::{branches_sorted, entries_sorted, Branch};

verus! {

/// Binary search among separator entries.
pub fn branch_search<V>(bs: &Vec<Branch<V>>, key: usize) -> (r: Result<usize, usize>)
    requires
        branches_sorted(bs@),
    ensures
        match r {
            Ok(i) => 0 <= i < bs@.len() && bs@[i as int].key == key,
            Err(p) => 0 <= p <= bs@.len() && (forall|j: int|
                0 <= j < p ==> (#[trigger] bs@[j]).key < key) && (forall|j: int|
                p <= j < bs@.len() ==> (#[trigger] bs@[j]).key > key),
        },
{
    let mut lo: usize = 0;
    let mut hi: usize = bs.len();
    while lo < hi
        invariant
            lo <= hi <= bs@.len(),
            branches_sorted(bs@),
            forall|j: int| 0 <= j < lo ==> (#[trigger] bs@[j]).key < key,
            forall|j: int| hi <= j < bs@.len() ==> (#[trigger] bs@[j]).key > key,
        decreases hi - lo,
    {
        let mid = lo + (hi - lo) / 2;
        let k = bs[mid].key;
        if k == key {
            return Ok(mid);
        } else if k < key {
            lo = mid + 1;
        } else {
            hi = mid;
        }
    }
    Err(lo)
}

/// Binary search among terminal entries.
pub fn entry_search<V>(es: &Vec<(usize, V)>, key: usize) -> (r: Result<usize, usize>)
    requires
        entries_sorted(es@),
    ensures
        match r {
            Ok(i) => 0 <= i < es@.len() && es@[i as int].0 == key,
            Err(p) => 0 <= p <= es@.len() && (forall|j: int|
                0 <= j < p ==> (#[trigger] es@[j]).0 < key) && (forall|j: int|
                p <= j < es@.len() ==> (#[trigger] es@[j]).0 > key),
        },
{
    let mut lo: usize = 0;
    let mut hi: usize = es.len();
    while lo < hi
        invariant
            lo <= hi <= es@.len(),
            entries_sorted(es@),
            forall|j: int| 0 <= j < lo ==> (#[trigger] es@[j]).0 < key,
            forall|j: int| hi <= j < es@.len() ==> (#[trigger] es@[j]).0 > key,
        decreases hi - lo,
    {
        let mid = lo + (hi - lo) / 2;
        let k = es[mid].0;
        if k == key {
            return Ok(mid);
        } else if k < key {
            lo = mid + 1;
        } else {
            hi = mid;
        }
    }
    Err(lo)
}

} // verus!
