//! Searching a node: the entry of a key in a leaf, the child of a key in an internal node.
use vstd::prelude::*;

use crate::engine::node::LeafEntry;
use crate::engine::tree::{entries_sorted, lemma_route, route, route_from};

verus! {

/// Binary search for `key` among entries with strictly increasing keys: `Ok` with the
/// index that holds it, or `Err` with the index where it would be inserted to keep the
/// keys increasing.
pub fn search_entries(entries: &Vec<LeafEntry>, key: u64) -> (result: Result<usize, usize>)
    requires
        entries_sorted(entries@),
    ensures
        match result {
            Ok(i) => i < entries@.len() && entries@[i as int].key == key,
            Err(i) => {
                &&& i <= entries@.len()
                &&& forall|j: int| 0 <= j < i ==> #[trigger] entries@[j].key < key
                &&& forall|j: int| i <= j < entries@.len() ==> #[trigger] entries@[j].key > key
            },
        },
{
    let mut lo: usize = 0;
    let mut hi: usize = entries.len();
    while lo < hi
        invariant
            entries_sorted(entries@),
            lo <= hi <= entries@.len(),
            forall|j: int| 0 <= j < lo ==> #[trigger] entries@[j].key < key,
            forall|j: int| hi <= j < entries@.len() ==> #[trigger] entries@[j].key > key,
        decreases hi - lo,
    {
        let mid = lo + (hi - lo) / 2;
        let mid_key = entries[mid].key;
        if mid_key == key {
            return Ok(mid);
        } else if mid_key < key {
            assert forall|j: int| 0 <= j < mid + 1 implies #[trigger] entries@[j].key < key by {
                if j < mid {
                    assert(entries@[j].key < entries@[mid as int].key);
                }
            }
            lo = mid + 1;
        } else {
            assert forall|j: int| mid <= j < entries@.len() implies #[trigger] entries@[j].key > key by {
                if j > mid {
                    assert(entries@[mid as int].key < entries@[j].key);
                }
            }
            hi = mid;
        }
    }
    Err(lo)
}

/// The child a lookup of `key` descends into: the first separator at least `key`, or one
/// past the last separator.
pub fn route_index(max_keys: &Vec<u64>, key: u64) -> (idx: usize)
    ensures
        idx == route(max_keys@, key),
        idx <= max_keys@.len(),
{
    let mut i: usize = 0;
    while i < max_keys.len() && key > max_keys[i]
        invariant
            i <= max_keys@.len(),
            route(max_keys@, key) == route_from(max_keys@, key, i as int),
        decreases max_keys@.len() - i,
    {
        i = i + 1;
    }
    proof {
        lemma_route(max_keys@, key, 0);
    }
    i
}

} // verus!
