//! What an insertion does to a subtree, and the lemmas that carry it from a leaf up
//! through the internal nodes.
use vstd::prelude::*;

use crate::engine::disk::disk_page;
use crate::engine::node::{
    decode_node, encode_node, lemma_node_round_trip, LeafEntry, NodeView, INTERNAL_CAPACITY, LEAF_CAPACITY,
};
use crate::engine::tree::{
    agree_at, agree_on, children_ok, children_wf, entries_sorted, leaf_lookup, lemma_children_ordered,
    lemma_decoded_internal, lemma_leaf_lookup_at, lemma_min_le_max, lemma_route, lemma_route_insert,
    lemma_route_prefix, lemma_route_suffix, lemma_tree_frame, lemma_tree_pages_in_file, lookup, max_key, min_key,
    node_at, route, tree_pages, tree_wf,
};

verus! {

/// What a lookup of `k` below `p` finds once `key` is set to `value` there.
pub open spec fn updated_lookup(disk: Seq<Seq<u8>>, p: u32, h: nat, key: u64, value: u64, k: u64) -> Option<u64> {
    if k == key {
        Some(value)
    } else {
        lookup(disk, p, k, h)
    }
}

/// The node at `p` is a leaf without entries.
pub open spec fn empty_leaf(disk: Seq<Seq<u8>>, p: u32) -> bool {
    node_at(disk, p) matches Some(NodeView::Leaf(entries)) && entries.len() == 0
}

/// The least key below `p` once `key` is added.
pub open spec fn low_after(disk: Seq<Seq<u8>>, p: u32, h: nat, key: u64) -> u64 {
    if empty_leaf(disk, p) || key < min_key(disk, p, h) {
        key
    } else {
        min_key(disk, p, h)
    }
}

/// The greatest key below `p` once `key` is added.
pub open spec fn high_after(disk: Seq<Seq<u8>>, p: u32, h: nat, key: u64) -> u64 {
    if empty_leaf(disk, p) || key > max_key(disk, p, h) {
        key
    } else {
        max_key(disk, p, h)
    }
}

/// Every page of `s` is in `pages` or numbered in `lo .. hi`.
pub open spec fn within(s: Set<u32>, pages: Set<u32>, lo: int, hi: int) -> bool {
    forall|q: u32| #[trigger] s.contains(q) ==> pages.contains(q) || (lo <= q < hi)
}

/// `new` extends `old` and holds the same bytes in every page of `old` outside `pages`.
pub open spec fn unchanged_outside(old: Seq<Seq<u8>>, new: Seq<Seq<u8>>, pages: Set<u32>) -> bool {
    &&& old.len() <= new.len()
    &&& forall|q: u32| (q as int) < old.len() && !pages.contains(q) ==> #[trigger] agree_at(old, new, q)
}

/// Inserting `key` with `value` below `p` turned `old` into `new`. Without a split the
/// subtree at `p` holds the old contents with `key` set; with a split into `p` and a new
/// page `r`, `p` holds those contents up to its greatest key and `r` the rest. Pages
/// outside the old subtree are untouched, at most one page per level is added, and the
/// key range widens to take in `key`.
pub open spec fn insert_done(
    old: Seq<Seq<u8>>,
    new: Seq<Seq<u8>>,
    p: u32,
    h: nat,
    allow_empty: bool,
    key: u64,
    value: u64,
    split: Option<u32>,
) -> bool {
    &&& unchanged_outside(old, new, tree_pages(old, p, h))
    &&& new.len() <= old.len() + h + 1
    &&& min_key(new, p, h) == low_after(old, p, h, key)
    &&& within(tree_pages(new, p, h), tree_pages(old, p, h), old.len() as int, new.len() as int)
    &&& match split {
        None => {
            &&& tree_wf(new, p, h, allow_empty)
            &&& max_key(new, p, h) == high_after(old, p, h, key)
            &&& forall|k: u64| #[trigger] lookup(new, p, k, h) == updated_lookup(old, p, h, key, value, k)
        },
        Some(r) => {
            &&& old.len() <= r < new.len()
            &&& tree_wf(new, p, h, false)
            &&& tree_wf(new, r, h, false)
            &&& within(tree_pages(new, r, h), tree_pages(old, p, h), old.len() as int, new.len() as int)
            &&& tree_pages(new, p, h).disjoint(tree_pages(new, r, h))
            &&& max_key(new, r, h) == high_after(old, p, h, key)
            &&& max_key(new, p, h) < min_key(new, r, h)
            &&& forall|k: u64| #[trigger] updated_lookup(old, p, h, key, value, k) == if k <= max_key(new, p, h) {
                lookup(new, p, k, h)
            } else {
                lookup(new, r, k, h)
            }
        },
    }
}

/// Whether inserting `key` below `p` splits the node at `p`: a node splits only when it is
/// full and must take one more item, so the leaf reached must be full and lack `key`, and
/// every internal node on the way down from `p` must be full as well.
pub open spec fn splits(disk: Seq<Seq<u8>>, p: u32, h: nat, key: u64) -> bool
    decreases h,
{
    match node_at(disk, p) {
        Some(NodeView::Leaf(entries)) => entries.len() == LEAF_CAPACITY && leaf_lookup(entries, key) is None,
        Some(NodeView::Internal(children, max_keys)) => {
            &&& h > 0
            &&& max_keys.len() == INTERNAL_CAPACITY
            &&& splits(disk, children[route(max_keys, key)], (h - 1) as nat, key)
        },
        None => false,
    }
}

/// The number of pages that inserting `key` below `p` adds: one for every node on the way
/// down that splits, and none otherwise.
pub open spec fn pages_added(disk: Seq<Seq<u8>>, p: u32, h: nat, key: u64) -> nat
    decreases h,
{
    let own: nat = if splits(disk, p, h, key) {
        1
    } else {
        0
    };
    match node_at(disk, p) {
        Some(NodeView::Internal(children, max_keys)) => {
            if h == 0 {
                own
            } else {
                pages_added(disk, children[route(max_keys, key)], (h - 1) as nat, key) + own
            }
        },
        _ => own,
    }
}

/// At most one page per level, the node at `p` included, is added below `p`.
pub proof fn lemma_pages_added_bound(disk: Seq<Seq<u8>>, p: u32, h: nat, key: u64)
    ensures
        pages_added(disk, p, h, key) <= h + 1,
    decreases h,
{
    if let Some(NodeView::Internal(children, max_keys)) = node_at(disk, p) {
        if h > 0 {
            lemma_pages_added_bound(disk, children[route(max_keys, key)], (h - 1) as nat, key);
        }
    }
}

/// Setting a key in a leaf keeps its length when the key is there and adds one entry when
/// it is not.
pub proof fn lemma_entries_put_len(entries: Seq<LeafEntry>, key: u64, value: u64, found: Result<usize, usize>)
    requires
        entries_sorted(entries),
        search_result(entries, key, found),
    ensures
        entries_put(entries, key, value, found).len() == if leaf_lookup(entries, key) is Some {
            entries.len()
        } else {
            entries.len() + 1
        },
{
    match found {
        Ok(i) => {
            lemma_leaf_lookup_at(entries, key, i as int);
        },
        Err(i) => {
            assert(!(exists|j: int| 0 <= j < entries.len() && entries[j].key == key)) by {
                assert forall|j: int| 0 <= j < entries.len() implies entries[j].key != key by {
                    if j < i {
                        assert(entries[j].key < key);
                    } else {
                        assert(entries[j].key > key);
                    }
                }
            }
        },
    }
}

/// The entries after `key` is set to `value` at the position a search reported.
pub open spec fn entries_put(entries: Seq<LeafEntry>, key: u64, value: u64, found: Result<usize, usize>) -> Seq<LeafEntry> {
    match found {
        Ok(i) => entries.update(i as int, LeafEntry { key, value }),
        Err(i) => entries.insert(i as int, LeafEntry { key, value }),
    }
}

/// What a search for `key` in `entries` may report.
pub open spec fn search_result(entries: Seq<LeafEntry>, key: u64, found: Result<usize, usize>) -> bool {
    match found {
        Ok(i) => i < entries.len() && entries[i as int].key == key,
        Err(i) => {
            &&& i <= entries.len()
            &&& forall|j: int| 0 <= j < i ==> #[trigger] entries[j].key < key
            &&& forall|j: int| i <= j < entries.len() ==> #[trigger] entries[j].key > key
        },
    }
}

/// Setting a key in sorted entries keeps them sorted, sets the key, keeps the other keys,
/// and widens the key range to take in the key.
pub proof fn lemma_entries_put(entries: Seq<LeafEntry>, key: u64, value: u64, found: Result<usize, usize>)
    requires
        entries_sorted(entries),
        search_result(entries, key, found),
    ensures
        ({
            let put = entries_put(entries, key, value, found);
            &&& entries_sorted(put)
            &&& put.len() > 0
            &&& put.len() <= entries.len() + 1
            &&& forall|k: u64| #[trigger] leaf_lookup(put, k) == if k == key {
                Some(value)
            } else {
                leaf_lookup(entries, k)
            }
            &&& put[0].key == if entries.len() == 0 || key < entries[0].key {
                key
            } else {
                entries[0].key
            }
            &&& put.last().key == if entries.len() == 0 || key > entries.last().key {
                key
            } else {
                entries.last().key
            }
        }),
{
    let put = entries_put(entries, key, value, found);
    let e = LeafEntry { key, value };
    let pos: int = match found {
        Ok(i) => i as int,
        Err(i) => i as int,
    };
    // Where each old entry went.
    let moved = |j: int| -> int {
        match found {
            Ok(i) => j,
            Err(i) => if j < i { j } else { j + 1 },
        }
    };
    assert(put[pos] == e);
    assert forall|j: int| 0 <= j < entries.len() && entries[j].key != key implies 0 <= #[trigger] moved(j) < put.len()
        && put[moved(j)] == entries[j] && moved(j) != pos by {}
    assert forall|m: int| #![trigger put[m]] 0 <= m < put.len() && m != pos implies exists|j: int|
        0 <= j < entries.len() && #[trigger] moved(j) == m && put[m] == entries[j] by {
        match found {
            Ok(i) => {
                assert(moved(m) == m);
            },
            Err(i) => {
                if m < i {
                    assert(moved(m) == m);
                } else {
                    assert(moved(m - 1) == m);
                }
            },
        }
    }
    assert(entries_sorted(put)) by {
        assert forall|a: int, b: int| 0 <= a < b < put.len() implies put[a].key < put[b].key by {
            match found {
                Ok(i) => {
                    if a != i && b != i {
                        assert(put[a] == entries[a] && put[b] == entries[b]);
                    }
                },
                Err(i) => {
                    if b < i {
                        assert(put[a] == entries[a] && put[b] == entries[b]);
                    } else if a > i {
                        assert(put[a] == entries[a - 1] && put[b] == entries[b - 1]);
                    } else if a < i && b > i {
                        assert(put[a] == entries[a] && put[b] == entries[b - 1]);
                    } else if a < i {
                        assert(put[a] == entries[a]);
                    } else {
                        assert(put[b] == entries[b - 1]);
                    }
                },
            }
        }
    }
    assert forall|k: u64| #[trigger] leaf_lookup(put, k) == if k == key {
        Some(value)
    } else {
        leaf_lookup(entries, k)
    } by {
        if k == key {
            lemma_leaf_lookup_at(put, key, pos);
        } else if exists|j: int| 0 <= j < entries.len() && entries[j].key == k {
            let j = choose|j: int| 0 <= j < entries.len() && entries[j].key == k;
            lemma_leaf_lookup_at(entries, k, j);
            assert(0 <= moved(j) < put.len() && put[moved(j)] == entries[j]);
            lemma_leaf_lookup_at(put, k, moved(j));
        } else {
            if exists|m: int| 0 <= m < put.len() && put[m].key == k {
                let m = choose|m: int| 0 <= m < put.len() && put[m].key == k;
                assert(m != pos);
                let j = choose|j: int| 0 <= j < entries.len() && #[trigger] moved(j) == m && put[m] == entries[j];
                assert(entries[j].key == k);
            }
        }
    }
    if entries.len() > 0 {
        match found {
            Ok(i) => {
                if i == 0 {
                    assert(put[0].key == entries[0].key);
                } else {
                    assert(put[0] == entries[0]);
                }
                if i == entries.len() - 1 {
                    assert(put.last().key == entries.last().key);
                } else {
                    assert(put.last() == entries.last());
                    assert(entries[i as int].key < entries.last().key);
                }
                if i > 0 {
                    assert(entries[0].key < entries[i as int].key);
                }
            },
            Err(i) => {
                if i > 0 {
                    assert(put[0] == entries[0]);
                    assert(entries[0].key < key);
                } else {
                    assert(entries[0].key > key);
                }
                if i < entries.len() {
                    assert(put.last() == entries.last());
                    assert(entries.last().key > key);
                } else {
                    assert(entries.last().key < key);
                }
            },
        }
    }
}

/// Splitting sorted entries at `mid` gives two sorted halves, the left one entirely below
/// the right, that together hold what the whole did.
pub proof fn lemma_entries_split(entries: Seq<LeafEntry>, mid: int)
    requires
        entries_sorted(entries),
        0 < mid < entries.len(),
    ensures
        ({
            let left = entries.subrange(0, mid);
            let right = entries.subrange(mid, entries.len() as int);
            &&& entries_sorted(left)
            &&& entries_sorted(right)
            &&& left.len() > 0 && right.len() > 0
            &&& left[0] == entries[0]
            &&& right.last() == entries.last()
            &&& left.last().key < right[0].key
            &&& forall|k: u64| #[trigger] leaf_lookup(entries, k) == if k <= left.last().key {
                leaf_lookup(left, k)
            } else {
                leaf_lookup(right, k)
            }
        }),
{
    let left = entries.subrange(0, mid);
    let right = entries.subrange(mid, entries.len() as int);
    assert(left.last() == entries[mid - 1]);
    assert(right[0] == entries[mid]);
    assert forall|k: u64| #[trigger] leaf_lookup(entries, k) == if k <= left.last().key {
        leaf_lookup(left, k)
    } else {
        leaf_lookup(right, k)
    } by {
        if exists|j: int| 0 <= j < entries.len() && entries[j].key == k {
            let j = choose|j: int| 0 <= j < entries.len() && entries[j].key == k;
            lemma_leaf_lookup_at(entries, k, j);
            if j < mid {
                if j < mid - 1 {
                    assert(entries[j].key < entries[mid - 1].key);
                }
                lemma_leaf_lookup_at(left, k, j);
            } else {
                assert(entries[mid - 1].key < entries[j].key);
                lemma_leaf_lookup_at(right, k, j - mid);
            }
        } else {
            if exists|m: int| 0 <= m < left.len() && left[m].key == k {
                let m = choose|m: int| 0 <= m < left.len() && left[m].key == k;
                assert(entries[m].key == k);
            }
            if exists|m: int| 0 <= m < right.len() && right[m].key == k {
                let m = choose|m: int| 0 <= m < right.len() && right[m].key == k;
                assert(entries[m + mid].key == k);
            }
        }
    }
}

/// A leaf page rewritten with `entries` (at most a page's worth) holds them.
pub proof fn lemma_leaf_written(disk: Seq<Seq<u8>>, p: u32, entries: Seq<LeafEntry>)
    requires
        (p as int) < disk.len(),
        entries.len() <= 255,
    ensures
        node_at(disk.update(p as int, encode_node(NodeView::Leaf(entries))), p) == Some(NodeView::Leaf(entries)),
{
    crate::engine::node::lemma_capacities();
    lemma_node_round_trip(NodeView::Leaf(entries));
}

/// Setting a key in a leaf that keeps within a page.
pub proof fn lemma_leaf_insert_done(
    old: Seq<Seq<u8>>,
    p: u32,
    h: nat,
    allow_empty: bool,
    key: u64,
    value: u64,
    entries: Seq<LeafEntry>,
    found: Result<usize, usize>,
)
    requires
        tree_wf(old, p, h, allow_empty),
        node_at(old, p) == Some(NodeView::Leaf(entries)),
        search_result(entries, key, found),
        entries_put(entries, key, value, found).len() <= 255,
    ensures
        insert_done(
            old,
            old.update(p as int, encode_node(NodeView::Leaf(entries_put(entries, key, value, found)))),
            p,
            h,
            allow_empty,
            key,
            value,
            None,
        ),
{
    let put = entries_put(entries, key, value, found);
    let new = old.update(p as int, encode_node(NodeView::Leaf(put)));
    lemma_entries_put(entries, key, value, found);
    lemma_leaf_written(old, p, put);
    assert(tree_pages(new, p, h) == set![p]);
    assert(tree_pages(old, p, h) == set![p]);
    assert forall|k: u64| #[trigger] lookup(new, p, k, h) == updated_lookup(old, p, h, key, value, k) by {}
    assert forall|q: u32| (q as int) < old.len() && !tree_pages(old, p, h).contains(q) implies #[trigger] agree_at(old, new, q) by {}
}

/// Setting a key in a full leaf and splitting it: the lower half stays at `p`, the upper
/// half goes to the new page `r`, the page after the old end of the file.
pub proof fn lemma_leaf_split_done(
    old: Seq<Seq<u8>>,
    p: u32,
    h: nat,
    allow_empty: bool,
    key: u64,
    value: u64,
    entries: Seq<LeafEntry>,
    found: Result<usize, usize>,
    r: u32,
    zero: Seq<u8>,
    mid: int,
)
    requires
        tree_wf(old, p, h, allow_empty),
        node_at(old, p) == Some(NodeView::Leaf(entries)),
        search_result(entries, key, found),
        entries_put(entries, key, value, found).len() == 256,
        mid == 128,
        r == old.len(),
    ensures
        ({
            let put = entries_put(entries, key, value, found);
            let new = old.push(zero).update(p as int, encode_node(NodeView::Leaf(put.subrange(0, mid)))).update(
                r as int,
                encode_node(NodeView::Leaf(put.subrange(mid, put.len() as int))),
            );
            insert_done(old, new, p, h, allow_empty, key, value, Some(r))
        }),
{
    let put = entries_put(entries, key, value, found);
    let left = put.subrange(0, mid);
    let right = put.subrange(mid, put.len() as int);
    let d1 = old.push(zero);
    let d2 = d1.update(p as int, encode_node(NodeView::Leaf(left)));
    let new = d2.update(r as int, encode_node(NodeView::Leaf(right)));
    lemma_entries_put(entries, key, value, found);
    lemma_entries_split(put, mid);
    lemma_leaf_written(d1, p, left);
    lemma_leaf_written(d2, r, right);
    assert(node_at(new, p) == Some(NodeView::Leaf(left))) by {
        assert(disk_page(new, p as int) == disk_page(d2, p as int));
    }
    assert(node_at(new, r) == Some(NodeView::Leaf(right)));
    assert(tree_pages(new, p, h) == set![p]);
    assert(tree_pages(new, r, h) == set![r]);
    assert(tree_pages(old, p, h) == set![p]);
    assert(min_key(new, p, h) == left[0].key);
    assert(max_key(new, p, h) == left.last().key);
    assert(min_key(new, r, h) == right[0].key);
    assert(max_key(new, r, h) == right.last().key);
    assert(min_key(old, p, h) == entries[0].key);
    assert(max_key(old, p, h) == entries.last().key);
    assert(tree_wf(new, p, h, false));
    assert(tree_wf(new, r, h, false));
    assert forall|k: u64| #[trigger] updated_lookup(old, p, h, key, value, k) == if k <= max_key(new, p, h) {
        lookup(new, p, k, h)
    } else {
        lookup(new, r, k, h)
    } by {
        assert(lookup(new, p, k, h) == leaf_lookup(left, k));
        assert(lookup(new, r, k, h) == leaf_lookup(right, k));
        assert(lookup(old, p, k, h) == leaf_lookup(entries, k));
        assert(leaf_lookup(put, k) == if k == key { Some(value) } else { leaf_lookup(entries, k) });
        assert(leaf_lookup(put, k) == if k <= left.last().key { leaf_lookup(left, k) } else { leaf_lookup(right, k) });
    }
    assert forall|q: u32| (q as int) < old.len() && !tree_pages(old, p, h).contains(q) implies #[trigger] agree_at(old, new, q) by {}
    assert(tree_pages(new, p, h).disjoint(tree_pages(new, r, h)));
    assert(unchanged_outside(old, new, tree_pages(old, p, h)));
    assert(within(tree_pages(new, p, h), tree_pages(old, p, h), old.len() as int, new.len() as int));
    assert(within(tree_pages(new, r, h), tree_pages(old, p, h), old.len() as int, new.len() as int));
}

/// The state of an internal node `p` once the insertion below its routed child is done
/// and the separators are recomputed on `d1`: `children` and `max_keys` form a valid node
/// whose routed lookups give the updated contents, within the old pages and new ones.
pub open spec fn merged_ok(
    old: Seq<Seq<u8>>,
    d1: Seq<Seq<u8>>,
    p: u32,
    h: nat,
    key: u64,
    value: u64,
    children: Seq<u32>,
    max_keys: Seq<u64>,
) -> bool {
    let hc = (h - 1) as nat;
    &&& h > 0
    &&& children_wf(d1, children, hc)
    &&& children_ok(d1, p, children, max_keys, hc)
    &&& forall|i: int| 0 <= i < children.len() ==> within(
        #[trigger] tree_pages(d1, children[i], hc),
        tree_pages(old, p, h),
        old.len() as int,
        d1.len() as int,
    )
    &&& forall|k: u64| #[trigger] lookup(d1, children[route(max_keys, k)], k, hc) == updated_lookup(old, p, h, key, value, k)
    &&& min_key(d1, children[0], hc) == low_after(old, p, h, key)
    &&& max_key(d1, children.last(), hc) == high_after(old, p, h, key)
    &&& unchanged_outside(old, d1, tree_pages(old, p, h))
    &&& d1.len() <= old.len() + h
}

/// A child other than the routed one is the same subtree after the insertion.
proof fn lemma_other_child(old: Seq<Seq<u8>>, d1: Seq<Seq<u8>>, p: u32, h: nat, allow_empty: bool, r: int, i: int)
    requires
        tree_wf(old, p, h, allow_empty),
        node_at(old, p) matches Some(NodeView::Internal(cs, ms)) && 0 <= r < cs.len() && 0 <= i < cs.len() && i != r,
        unchanged_outside(old, d1, tree_pages(old, node_at(old, p)->Some_0->Internal_0[r], (h - 1) as nat)),
    ensures
        ({
            let c = node_at(old, p)->Some_0->Internal_0[i];
            let hc = (h - 1) as nat;
            &&& tree_wf(d1, c, hc, false)
            &&& tree_pages(d1, c, hc) == tree_pages(old, c, hc)
            &&& forall|k: u64| #[trigger] lookup(d1, c, k, hc) == lookup(old, c, k, hc)
            &&& min_key(d1, c, hc) == min_key(old, c, hc)
            &&& max_key(d1, c, hc) == max_key(old, c, hc)
        }),
{
    let cs = node_at(old, p)->Some_0->Internal_0;
    let hc = (h - 1) as nat;
    assert(tree_wf(old, cs[i], hc, false));
    lemma_tree_pages_in_file(old, cs[i], hc, false);
    if i < r {
        assert(tree_pages(old, cs[i], hc).disjoint(tree_pages(old, cs[r], hc)));
    } else {
        assert(tree_pages(old, cs[r], hc).disjoint(tree_pages(old, cs[i], hc)));
    }
    assert forall|q: u32| #[trigger] tree_pages(old, cs[i], hc).contains(q) implies agree_at(old, d1, q) by {
        assert(!tree_pages(old, cs[r], hc).contains(q));
    }
    assert(agree_on(old, d1, tree_pages(old, cs[i], hc)));
    lemma_tree_frame(old, d1, cs[i], hc, false);
}

/// The pages of a child lie among the pages of its parent.
proof fn lemma_child_pages(disk: Seq<Seq<u8>>, p: u32, h: nat, allow_empty: bool, i: int)
    requires
        tree_wf(disk, p, h, allow_empty),
        node_at(disk, p) matches Some(NodeView::Internal(cs, ms)) && 0 <= i < cs.len(),
    ensures
        forall|q: u32| #[trigger] tree_pages(disk, node_at(disk, p)->Some_0->Internal_0[i], (h - 1) as nat).contains(q)
            ==> tree_pages(disk, p, h).contains(q),
{
}

/// Facts about the routed child of `p` before and after an insertion into it.
proof fn lemma_routed_child(old: Seq<Seq<u8>>, d1: Seq<Seq<u8>>, p: u32, h: nat, allow_empty: bool, key: u64, value: u64, split: Option<u32>)
    requires
        tree_wf(old, p, h, allow_empty),
        node_at(old, p) matches Some(NodeView::Internal(cs, ms)),
        insert_done(
            old,
            d1,
            node_at(old, p)->Some_0->Internal_0[route(node_at(old, p)->Some_0->Internal_1, key)],
            (h - 1) as nat,
            false,
            key,
            value,
            split,
        ),
    ensures
        ({
            let cs = node_at(old, p)->Some_0->Internal_0;
            let ms = node_at(old, p)->Some_0->Internal_1;
            let r = route(ms, key);
            let c = cs[r];
            let hc = (h - 1) as nat;
            &&& cs.len() == ms.len() + 1
            &&& 0 <= r < cs.len()
            &&& r < ms.len() ==> key <= ms[r]
            &&& forall|j: int| 0 <= j < r ==> key > #[trigger] ms[j]
            &&& tree_wf(old, c, hc, false)
            &&& !empty_leaf(old, c)
            &&& min_key(old, c, hc) <= max_key(old, c, hc)
            &&& low_after(old, c, hc, key) == if key < min_key(old, c, hc) { key } else { min_key(old, c, hc) }
            &&& high_after(old, c, hc, key) == if key > max_key(old, c, hc) { key } else { max_key(old, c, hc) }
            &&& r < ms.len() ==> high_after(old, c, hc, key) == ms[r]
            &&& r > 0 ==> low_after(old, c, hc, key) > max_key(old, cs[r - 1], hc)
            &&& !tree_pages(old, c, hc).contains(p)
            &&& forall|q: u32| #[trigger] tree_pages(old, c, hc).contains(q) ==> tree_pages(old, p, h).contains(q)
            &&& forall|q: u32| #[trigger] tree_pages(old, c, hc).contains(q) ==> 1 <= q < old.len()
            &&& (p as int) < old.len()
            &&& unchanged_outside(old, d1, tree_pages(old, p, h))
            &&& d1.len() <= old.len() + h
        }),
{
    let cs = node_at(old, p)->Some_0->Internal_0;
    let ms = node_at(old, p)->Some_0->Internal_1;
    let hc = (h - 1) as nat;
    lemma_decoded_internal(disk_page(old, p as int));
    lemma_route(ms, key, 0);
    let r = route(ms, key);
    let c = cs[r];
    assert(tree_wf(old, c, hc, false));
    lemma_min_le_max(old, c, hc);
    lemma_tree_pages_in_file(old, c, hc, false);
    lemma_child_pages(old, p, h, allow_empty, r);
    if r > 0 {
        assert(min_key(old, cs[r], hc) > max_key(old, cs[r - 1], hc));
        assert(key > ms[r - 1]);
    }
    assert forall|q: u32| (q as int) < old.len() && !tree_pages(old, p, h).contains(q) implies #[trigger] agree_at(old, d1, q) by {
        assert(!tree_pages(old, c, hc).contains(q));
    }
}

/// Merging an insertion that did not split the routed child: the separators stay as they
/// were, and the node's routed lookups give the updated contents.
pub proof fn lemma_merge_unsplit(
    old: Seq<Seq<u8>>,
    d1: Seq<Seq<u8>>,
    p: u32,
    h: nat,
    allow_empty: bool,
    key: u64,
    value: u64,
    max_keys2: Seq<u64>,
)
    requires
        tree_wf(old, p, h, allow_empty),
        node_at(old, p) matches Some(NodeView::Internal(cs, ms)),
        insert_done(
            old,
            d1,
            node_at(old, p)->Some_0->Internal_0[route(node_at(old, p)->Some_0->Internal_1, key)],
            (h - 1) as nat,
            false,
            key,
            value,
            None,
        ),
        max_keys2.len() + 1 == node_at(old, p)->Some_0->Internal_0.len(),
        forall|i: int| 0 <= i < max_keys2.len() ==> #[trigger] max_keys2[i] == max_key(
            d1,
            node_at(old, p)->Some_0->Internal_0[i],
            (h - 1) as nat,
        ),
    ensures
        max_keys2 == node_at(old, p)->Some_0->Internal_1,
        merged_ok(old, d1, p, h, key, value, node_at(old, p)->Some_0->Internal_0, max_keys2),
{
    let cs = node_at(old, p)->Some_0->Internal_0;
    let ms = node_at(old, p)->Some_0->Internal_1;
    let hc = (h - 1) as nat;
    lemma_routed_child(old, d1, p, h, allow_empty, key, value, None);
    let r = route(ms, key);
    let c = cs[r];
    assert forall|i: int| 0 <= i < cs.len() && i != r implies {
        &&& tree_wf(d1, cs[i], hc, false)
        &&& tree_pages(d1, cs[i], hc) == tree_pages(old, cs[i], hc)
        &&& forall|k: u64| #[trigger] lookup(d1, cs[i], k, hc) == lookup(old, cs[i], k, hc)
        &&& min_key(d1, cs[i], hc) == min_key(old, cs[i], hc)
        &&& max_key(d1, cs[i], hc) == max_key(old, cs[i], hc)
    } by {
        lemma_other_child(old, d1, p, h, allow_empty, r, i);
    }
    assert(max_keys2 =~= ms);
    assert(children_wf(d1, cs, hc));
    assert forall|i: int| 1 <= i < cs.len() implies #[trigger] min_key(d1, cs[i], hc) > max_key(d1, cs[i - 1], hc) by {
        assert(min_key(old, cs[i], hc) > max_key(old, cs[i - 1], hc));
    }
    assert forall|i: int| 0 <= i < cs.len() implies !(#[trigger] tree_pages(d1, cs[i], hc)).contains(p) by {
        if i == r {
            if tree_pages(d1, c, hc).contains(p) {
                assert(tree_pages(old, c, hc).contains(p) || old.len() <= p);
            }
        } else {
            assert(!tree_pages(old, cs[i], hc).contains(p));
        }
    }
    assert forall|i: int, j: int| 0 <= i < j < cs.len() implies tree_pages(d1, #[trigger] cs[i], hc).disjoint(
        tree_pages(d1, #[trigger] cs[j], hc)) by {
        assert(tree_pages(old, cs[i], hc).disjoint(tree_pages(old, cs[j], hc)));
        if i == r {
            lemma_tree_pages_in_file(old, cs[j], hc, false);
            assert forall|q: u32| tree_pages(d1, cs[i], hc).contains(q) implies !tree_pages(d1, cs[j], hc).contains(q) by {
                assert(tree_pages(old, cs[i], hc).contains(q) || old.len() <= q);
            }
        } else if j == r {
            lemma_tree_pages_in_file(old, cs[i], hc, false);
            assert forall|q: u32| tree_pages(d1, cs[j], hc).contains(q) implies !tree_pages(d1, cs[i], hc).contains(q) by {
                assert(tree_pages(old, cs[j], hc).contains(q) || old.len() <= q);
            }
        }
    }
    assert(children_ok(d1, p, cs, max_keys2, hc));
    assert forall|i: int| 0 <= i < cs.len() implies within(
        #[trigger] tree_pages(d1, cs[i], hc),
        tree_pages(old, p, h),
        old.len() as int,
        d1.len() as int,
    ) by {
        lemma_child_pages(old, p, h, allow_empty, i);
    }
    assert forall|k: u64| #[trigger] lookup(d1, cs[route(max_keys2, k)], k, hc) == updated_lookup(old, p, h, key, value, k) by {
        lemma_route(ms, k, 0);
        let j = route(ms, k);
        assert(lookup(old, p, k, h) == lookup(old, cs[j], k, hc));
    }
    // The key range of the node.
    assert(min_key(old, p, h) == min_key(old, cs[0], hc));
    assert(max_key(old, p, h) == max_key(old, cs.last(), hc));
    assert(children_wf(old, cs, hc));
    if r > 0 {
        lemma_children_ordered(old, cs, hc, 0, r - 1);
    }
    if r < cs.len() - 1 {
        lemma_children_ordered(old, cs, hc, r, cs.len() - 1);
    }
}

/// A child of the split-merged node other than the two halves of the routed child is an
/// old child, unchanged.
proof fn lemma_split_other(old: Seq<Seq<u8>>, d1: Seq<Seq<u8>>, p: u32, h: nat, allow_empty: bool, nr: u32, r: int, i: int)
    requires
        tree_wf(old, p, h, allow_empty),
        node_at(old, p) matches Some(NodeView::Internal(cs, ms)) && 0 <= r < cs.len(),
        unchanged_outside(old, d1, tree_pages(old, node_at(old, p)->Some_0->Internal_0[r], (h - 1) as nat)),
        0 <= i <= node_at(old, p)->Some_0->Internal_0.len(),
        i != r,
        i != r + 1,
    ensures
        ({
            let cs = node_at(old, p)->Some_0->Internal_0;
            let oi = if i < r { i } else { i - 1 };
            let c = cs.insert(r + 1, nr)[i];
            let hc = (h - 1) as nat;
            &&& 0 <= oi < cs.len() && oi != r
            &&& c == cs[oi]
            &&& tree_wf(d1, c, hc, false)
            &&& tree_pages(d1, c, hc) == tree_pages(old, c, hc)
            &&& forall|k: u64| #[trigger] lookup(d1, c, k, hc) == lookup(old, c, k, hc)
            &&& min_key(d1, c, hc) == min_key(old, c, hc)
            &&& max_key(d1, c, hc) == max_key(old, c, hc)
        }),
{
    let oi = if i < r { i } else { i - 1 };
    lemma_other_child(old, d1, p, h, allow_empty, r, oi);
}

/// The separators of the split-merged node: the old ones with the routed child's new
/// greatest key at `r`.
proof fn lemma_split_keys(
    old: Seq<Seq<u8>>,
    d1: Seq<Seq<u8>>,
    p: u32,
    h: nat,
    allow_empty: bool,
    key: u64,
    value: u64,
    nr: u32,
    max_keys2: Seq<u64>,
)
    requires
        tree_wf(old, p, h, allow_empty),
        node_at(old, p) matches Some(NodeView::Internal(cs, ms)),
        insert_done(
            old,
            d1,
            node_at(old, p)->Some_0->Internal_0[route(node_at(old, p)->Some_0->Internal_1, key)],
            (h - 1) as nat,
            false,
            key,
            value,
            Some(nr),
        ),
        max_keys2.len() == node_at(old, p)->Some_0->Internal_0.len(),
        forall|i: int| 0 <= i < max_keys2.len() ==> #[trigger] max_keys2[i] == max_key(
            d1,
            node_at(old, p)->Some_0->Internal_0.insert(route(node_at(old, p)->Some_0->Internal_1, key) + 1, nr)[i],
            (h - 1) as nat,
        ),
    ensures
        max_keys2 == node_at(old, p)->Some_0->Internal_1.insert(
            route(node_at(old, p)->Some_0->Internal_1, key),
            max_key(d1, node_at(old, p)->Some_0->Internal_0[route(node_at(old, p)->Some_0->Internal_1, key)], (h - 1) as nat),
        ),
{
    let cs = node_at(old, p)->Some_0->Internal_0;
    let ms = node_at(old, p)->Some_0->Internal_1;
    let hc = (h - 1) as nat;
    lemma_routed_child(old, d1, p, h, allow_empty, key, value, Some(nr));
    let r = route(ms, key);
    let c = cs[r];
    let cs2 = cs.insert(r + 1, nr);
    let ml = max_key(d1, c, hc);
    assert forall|i: int| 0 <= i < max_keys2.len() implies max_keys2[i] == ms.insert(r, ml)[i] by {
        if i == r + 1 {
            assert(cs2[i] == nr);
        } else if i != r {
            lemma_split_other(old, d1, p, h, allow_empty, nr, r, i);
            let oi = if i < r { i } else { i - 1 };
            assert(ms[oi] == max_key(old, cs[oi], hc));
        }
    }
    assert(max_keys2 =~= ms.insert(r, ml));
}

/// The split-merged node's children form a valid node within the old and new pages.
#[verifier::spinoff_prover]
proof fn lemma_split_shape(
    old: Seq<Seq<u8>>,
    d1: Seq<Seq<u8>>,
    p: u32,
    h: nat,
    allow_empty: bool,
    key: u64,
    value: u64,
    nr: u32,
    max_keys2: Seq<u64>,
)
    requires
        tree_wf(old, p, h, allow_empty),
        node_at(old, p) matches Some(NodeView::Internal(cs, ms)),
        insert_done(
            old,
            d1,
            node_at(old, p)->Some_0->Internal_0[route(node_at(old, p)->Some_0->Internal_1, key)],
            (h - 1) as nat,
            false,
            key,
            value,
            Some(nr),
        ),
        max_keys2.len() == node_at(old, p)->Some_0->Internal_0.len(),
        forall|i: int| 0 <= i < max_keys2.len() ==> #[trigger] max_keys2[i] == max_key(
            d1,
            node_at(old, p)->Some_0->Internal_0.insert(route(node_at(old, p)->Some_0->Internal_1, key) + 1, nr)[i],
            (h - 1) as nat,
        ),
    ensures
        children_wf(d1, node_at(old, p)->Some_0->Internal_0.insert(route(node_at(old, p)->Some_0->Internal_1, key) + 1, nr), (h - 1) as nat),
        children_ok(d1, p, node_at(old, p)->Some_0->Internal_0.insert(route(node_at(old, p)->Some_0->Internal_1, key) + 1, nr), max_keys2, (h - 1) as nat),
        forall|i: int| 0 <= i < node_at(old, p)->Some_0->Internal_0.insert(route(node_at(old, p)->Some_0->Internal_1, key) + 1, nr).len() ==> within(
            #[trigger] tree_pages(d1, node_at(old, p)->Some_0->Internal_0.insert(route(node_at(old, p)->Some_0->Internal_1, key) + 1, nr)[i], (h - 1) as nat),
            tree_pages(old, p, h),
            old.len() as int,
            d1.len() as int,
        ),
{
    let cs = node_at(old, p)->Some_0->Internal_0;
    let ms = node_at(old, p)->Some_0->Internal_1;
    let hc = (h - 1) as nat;
    lemma_routed_child(old, d1, p, h, allow_empty, key, value, Some(nr));
    let r = route(ms, key);
    let c = cs[r];
    let cs2 = cs.insert(r + 1, nr);
    let ml = max_key(d1, c, hc);
    assert(children_wf(d1, cs2, hc)) by {
        assert forall|i: int| 0 <= i < cs2.len() implies tree_wf(d1, #[trigger] cs2[i], hc, false) by {
            if i != r && i != r + 1 {
                lemma_split_other(old, d1, p, h, allow_empty, nr, r, i);
            }
        }
    }
    assert forall|i: int| 1 <= i < cs2.len() implies #[trigger] min_key(d1, cs2[i], hc) > max_key(d1, cs2[i - 1], hc) by {
        if i < r {
            lemma_split_other(old, d1, p, h, allow_empty, nr, r, i);
            lemma_split_other(old, d1, p, h, allow_empty, nr, r, i - 1);
            assert(min_key(old, cs[i], hc) > max_key(old, cs[i - 1], hc));
        } else if i == r {
            if r > 0 {
                lemma_split_other(old, d1, p, h, allow_empty, nr, r, r - 1);
            }
        } else if i == r + 1 {
        } else if i == r + 2 {
            lemma_split_other(old, d1, p, h, allow_empty, nr, r, i);
            assert(min_key(old, cs[r + 1], hc) > max_key(old, cs[r], hc));
        } else {
            lemma_split_other(old, d1, p, h, allow_empty, nr, r, i);
            lemma_split_other(old, d1, p, h, allow_empty, nr, r, i - 1);
            assert(min_key(old, cs[i - 1], hc) > max_key(old, cs[i - 2], hc));
        }
    }
    lemma_tree_pages_in_file(d1, nr, hc, false);
    assert forall|i: int| 0 <= i < cs2.len() implies !(#[trigger] tree_pages(d1, cs2[i], hc)).contains(p) by {
        if i == r || i == r + 1 {
            if tree_pages(d1, cs2[i], hc).contains(p) {
                assert(tree_pages(old, c, hc).contains(p) || old.len() <= p);
            }
        } else {
            lemma_split_other(old, d1, p, h, allow_empty, nr, r, i);
            let oi = if i < r { i } else { i - 1 };
            assert(!tree_pages(old, cs[oi], hc).contains(p));
        }
    }
    assert forall|i: int, j: int| 0 <= i < j < cs2.len() implies tree_pages(d1, #[trigger] cs2[i], hc).disjoint(
        tree_pages(d1, #[trigger] cs2[j], hc)) by {
        let oi = if i <= r { i } else { i - 1 };
        let oj = if j <= r { j } else { j - 1 };
        if (i == r || i == r + 1) && (j == r || j == r + 1) {
        } else if i == r || i == r + 1 {
            lemma_split_other(old, d1, p, h, allow_empty, nr, r, j);
            lemma_tree_pages_in_file(old, cs[oj], hc, false);
            assert(tree_pages(old, cs[r], hc).disjoint(tree_pages(old, cs[oj], hc)));
            assert forall|q: u32| tree_pages(d1, cs2[i], hc).contains(q) implies !tree_pages(d1, cs2[j], hc).contains(q) by {
                assert(tree_pages(old, c, hc).contains(q) || old.len() <= q);
            }
        } else if j == r || j == r + 1 {
            lemma_split_other(old, d1, p, h, allow_empty, nr, r, i);
            lemma_tree_pages_in_file(old, cs[oi], hc, false);
            assert(tree_pages(old, cs[oi], hc).disjoint(tree_pages(old, cs[r], hc)));
            assert forall|q: u32| tree_pages(d1, cs2[j], hc).contains(q) implies !tree_pages(d1, cs2[i], hc).contains(q) by {
                assert(tree_pages(old, c, hc).contains(q) || old.len() <= q);
            }
        } else {
            lemma_split_other(old, d1, p, h, allow_empty, nr, r, i);
            lemma_split_other(old, d1, p, h, allow_empty, nr, r, j);
            assert(tree_pages(old, cs[oi], hc).disjoint(tree_pages(old, cs[oj], hc)));
        }
    }
    assert forall|i: int| 0 <= i < max_keys2.len() implies #[trigger] max_keys2[i] == max_key(d1, cs2[i], hc) by {}
    assert(children_ok(d1, p, cs2, max_keys2, hc));
    assert forall|i: int| 0 <= i < cs2.len() implies within(
        #[trigger] tree_pages(d1, cs2[i], hc),
        tree_pages(old, p, h),
        old.len() as int,
        d1.len() as int,
    ) by {
        if i != r && i != r + 1 {
            lemma_split_other(old, d1, p, h, allow_empty, nr, r, i);
            let oi = if i < r { i } else { i - 1 };
            lemma_child_pages(old, p, h, allow_empty, oi);
        }
    }
}

/// The split-merged node's routed lookups give the updated contents.
#[verifier::spinoff_prover]
proof fn lemma_split_lookups(
    old: Seq<Seq<u8>>,
    d1: Seq<Seq<u8>>,
    p: u32,
    h: nat,
    allow_empty: bool,
    key: u64,
    value: u64,
    nr: u32,
    max_keys2: Seq<u64>,
)
    requires
        tree_wf(old, p, h, allow_empty),
        node_at(old, p) matches Some(NodeView::Internal(cs, ms)),
        insert_done(
            old,
            d1,
            node_at(old, p)->Some_0->Internal_0[route(node_at(old, p)->Some_0->Internal_1, key)],
            (h - 1) as nat,
            false,
            key,
            value,
            Some(nr),
        ),
        max_keys2.len() == node_at(old, p)->Some_0->Internal_0.len(),
        forall|i: int| 0 <= i < max_keys2.len() ==> #[trigger] max_keys2[i] == max_key(
            d1,
            node_at(old, p)->Some_0->Internal_0.insert(route(node_at(old, p)->Some_0->Internal_1, key) + 1, nr)[i],
            (h - 1) as nat,
        ),
    ensures
        forall|k: u64| #[trigger] lookup(d1, node_at(old, p)->Some_0->Internal_0.insert(route(node_at(old, p)->Some_0->Internal_1, key) + 1, nr)[route(max_keys2, k)], k, (h - 1) as nat)
            == updated_lookup(old, p, h, key, value, k),
{
    let cs = node_at(old, p)->Some_0->Internal_0;
    let ms = node_at(old, p)->Some_0->Internal_1;
    let hc = (h - 1) as nat;
    lemma_routed_child(old, d1, p, h, allow_empty, key, value, Some(nr));
    let r = route(ms, key);
    let c = cs[r];
    let cs2 = cs.insert(r + 1, nr);
    let ml = max_key(d1, c, hc);
    lemma_split_keys(old, d1, p, h, allow_empty, key, value, nr, max_keys2);
    assert forall|k: u64| #[trigger] lookup(d1, cs2[route(max_keys2, k)], k, hc) == updated_lookup(old, p, h, key, value, k) by {
        lemma_route(ms, k, 0);
        lemma_route_insert(ms, ml, r, k);
        let j = route(ms, k);
        assert(lookup(old, p, k, h) == lookup(old, cs[j], k, hc));
        assert(updated_lookup(old, c, hc, key, value, k) == if k <= ml {
            lookup(d1, c, k, hc)
        } else {
            lookup(d1, nr, k, hc)
        });
        if j < r {
            lemma_split_other(old, d1, p, h, allow_empty, nr, r, j);
        } else if k <= ml {
            if j > r {
                assert(ml < min_key(d1, nr, hc));
                lemma_min_le_max(d1, nr, hc);
                assert(k > ms[r]);
            }
        } else if j > r {
            lemma_split_other(old, d1, p, h, allow_empty, nr, r, j + 1);
        }
    }
}

/// Merging an insertion that split the routed child `r` into itself and `nr`: `nr` joins
/// the children right after it, the separators gain the child's new greatest key at `r`,
/// and the node's routed lookups give the updated contents.
pub proof fn lemma_merge_split(
    old: Seq<Seq<u8>>,
    d1: Seq<Seq<u8>>,
    p: u32,
    h: nat,
    allow_empty: bool,
    key: u64,
    value: u64,
    nr: u32,
    max_keys2: Seq<u64>,
)
    requires
        tree_wf(old, p, h, allow_empty),
        node_at(old, p) matches Some(NodeView::Internal(cs, ms)),
        insert_done(
            old,
            d1,
            node_at(old, p)->Some_0->Internal_0[route(node_at(old, p)->Some_0->Internal_1, key)],
            (h - 1) as nat,
            false,
            key,
            value,
            Some(nr),
        ),
        max_keys2.len() == node_at(old, p)->Some_0->Internal_0.len(),
        forall|i: int| 0 <= i < max_keys2.len() ==> #[trigger] max_keys2[i] == max_key(
            d1,
            node_at(old, p)->Some_0->Internal_0.insert(route(node_at(old, p)->Some_0->Internal_1, key) + 1, nr)[i],
            (h - 1) as nat,
        ),
    ensures
        merged_ok(old, d1, p, h, key, value, node_at(old, p)->Some_0->Internal_0.insert(route(node_at(old, p)->Some_0->Internal_1, key) + 1, nr), max_keys2),
{
    let cs = node_at(old, p)->Some_0->Internal_0;
    let ms = node_at(old, p)->Some_0->Internal_1;
    let hc = (h - 1) as nat;
    lemma_routed_child(old, d1, p, h, allow_empty, key, value, Some(nr));
    let r = route(ms, key);
    let c = cs[r];
    let cs2 = cs.insert(r + 1, nr);
    let ml = max_key(d1, c, hc);
    lemma_split_shape(old, d1, p, h, allow_empty, key, value, nr, max_keys2);
    lemma_split_lookups(old, d1, p, h, allow_empty, key, value, nr, max_keys2);
    // The key range of the node.
    assert(min_key(old, p, h) == min_key(old, cs[0], hc));
    assert(max_key(old, p, h) == max_key(old, cs.last(), hc));
    assert(children_wf(old, cs, hc));
    if r > 0 {
        lemma_children_ordered(old, cs, hc, 0, r - 1);
        lemma_split_other(old, d1, p, h, allow_empty, nr, r, 0);
    }
    if r < cs.len() - 1 {
        lemma_children_ordered(old, cs, hc, r, cs.len() - 1);
        lemma_split_other(old, d1, p, h, allow_empty, nr, r, cs.len() as int);
    }
}

/// A child valid on `d1` whose pages `d2` leaves alone is the same child on `d2`.
proof fn lemma_child_frame_at(d1: Seq<Seq<u8>>, d2: Seq<Seq<u8>>, cs: Seq<u32>, hc: nat, i: int)
    requires
        children_wf(d1, cs, hc),
        0 <= i < cs.len(),
        agree_on(d1, d2, tree_pages(d1, cs[i], hc)),
    ensures
        tree_wf(d2, cs[i], hc, false),
        tree_pages(d2, cs[i], hc) == tree_pages(d1, cs[i], hc),
        min_key(d2, cs[i], hc) == min_key(d1, cs[i], hc),
        max_key(d2, cs[i], hc) == max_key(d1, cs[i], hc),
        forall|k: u64| #[trigger] lookup(d2, cs[i], k, hc) == lookup(d1, cs[i], k, hc),
{
    assert(tree_wf(d1, cs[i], hc, false));
    lemma_tree_frame(d1, d2, cs[i], hc, false);
}

/// Children valid on `d1` whose pages `d2` leaves alone are the same children on `d2`.
proof fn lemma_children_frame(d1: Seq<Seq<u8>>, d2: Seq<Seq<u8>>, p: u32, cs: Seq<u32>, ms: Seq<u64>, hc: nat)
    requires
        children_wf(d1, cs, hc),
        children_ok(d1, p, cs, ms, hc),
        forall|i: int| 0 <= i < cs.len() ==> agree_on(d1, d2, #[trigger] tree_pages(d1, cs[i], hc)),
    ensures
        children_wf(d2, cs, hc),
        children_ok(d2, p, cs, ms, hc),
{
    assert forall|i: int| 0 <= i < cs.len() implies tree_wf(d2, #[trigger] cs[i], hc, false) by {
        lemma_child_frame_at(d1, d2, cs, hc, i);
    }
    assert forall|i: int| 0 <= i < ms.len() implies #[trigger] ms[i] == max_key(d2, cs[i], hc) by {
        lemma_child_frame_at(d1, d2, cs, hc, i);
    }
    assert forall|i: int| 1 <= i < cs.len() implies #[trigger] min_key(d2, cs[i], hc) > max_key(d2, cs[i - 1], hc) by {
        lemma_child_frame_at(d1, d2, cs, hc, i);
        lemma_child_frame_at(d1, d2, cs, hc, i - 1);
        assert(min_key(d1, cs[i], hc) > max_key(d1, cs[i - 1], hc));
    }
    assert forall|i: int| 0 <= i < cs.len() implies !(#[trigger] tree_pages(d2, cs[i], hc)).contains(p) by {
        lemma_child_frame_at(d1, d2, cs, hc, i);
    }
    assert forall|i: int, j: int| 0 <= i < j < cs.len() implies tree_pages(d2, #[trigger] cs[i], hc).disjoint(
        tree_pages(d2, #[trigger] cs[j], hc)) by {
        lemma_child_frame_at(d1, d2, cs, hc, i);
        lemma_child_frame_at(d1, d2, cs, hc, j);
        assert(tree_pages(d1, cs[i], hc).disjoint(tree_pages(d1, cs[j], hc)));
    }
}

/// Writing the merged node back to `p` when it fits a page finishes an insertion
/// without a split.
pub proof fn lemma_merged_written(
    old: Seq<Seq<u8>>,
    d1: Seq<Seq<u8>>,
    p: u32,
    h: nat,
    allow_empty: bool,
    key: u64,
    value: u64,
    cs2: Seq<u32>,
    ms2: Seq<u64>,
)
    requires
        tree_wf(old, p, h, allow_empty),
        node_at(old, p) matches Some(NodeView::Internal(cs, ms)),
        merged_ok(old, d1, p, h, key, value, cs2, ms2),
        ms2.len() <= 340,
    ensures
        insert_done(old, d1.update(p as int, encode_node(NodeView::Internal(cs2, ms2))), p, h, allow_empty, key, value, None),
{
    let hc = (h - 1) as nat;
    let node = NodeView::Internal(cs2, ms2);
    let d2 = d1.update(p as int, encode_node(node));
    crate::engine::node::lemma_capacities();
    lemma_tree_pages_in_file(old, p, h, allow_empty);
    lemma_node_round_trip(node);
    assert(node_at(d2, p) == Some(node));
    assert forall|i: int| 0 <= i < cs2.len() implies agree_on(d1, d2, #[trigger] tree_pages(d1, cs2[i], hc)) by {
        assert(!tree_pages(d1, cs2[i], hc).contains(p));
        lemma_tree_pages_in_file(d1, cs2[i], hc, false);
    }
    lemma_children_frame(d1, d2, p, cs2, ms2, hc);
    assert(tree_wf(d2, p, h, allow_empty));
    assert forall|k: u64| #[trigger] lookup(d2, p, k, h) == updated_lookup(old, p, h, key, value, k) by {
        lemma_route(ms2, k, 0);
        lemma_child_frame_at(d1, d2, cs2, hc, route(ms2, k));
        assert(lookup(d2, p, k, h) == lookup(d2, cs2[route(ms2, k)], k, hc));
        assert(lookup(d1, cs2[route(ms2, k)], k, hc) == updated_lookup(old, p, h, key, value, k));
    }
    lemma_child_frame_at(d1, d2, cs2, hc, 0);
    lemma_child_frame_at(d1, d2, cs2, hc, cs2.len() - 1);
    assert(min_key(d2, p, h) == min_key(d2, cs2[0], hc));
    assert(max_key(d2, p, h) == max_key(d2, cs2.last(), hc));
    assert forall|q: u32| #[trigger] tree_pages(d2, p, h).contains(q) implies tree_pages(old, p, h).contains(q)
        || (old.len() <= q < d2.len()) by {
        if q != p {
            let i = choose|i: int| 0 <= i < cs2.len() && tree_pages(d2, cs2[i], hc).contains(q);
            lemma_child_frame_at(d1, d2, cs2, hc, i);
            assert(tree_pages(d1, cs2[i], hc).contains(q));
        }
    }
    assert forall|q: u32| (q as int) < old.len() && !tree_pages(old, p, h).contains(q) implies #[trigger] agree_at(old, d2, q) by {
        assert(agree_at(old, d1, q));
    }
}

/// A node at `q` over a run of a valid node's children, with the separators between
/// them, is itself valid when `q` is none of their pages.
proof fn lemma_sub_node(d: Seq<Seq<u8>>, q: u32, h: nat, cs: Seq<u32>, ms: Seq<u64>, p: u32, a: int, b: int)
    requires
        h > 0,
        children_wf(d, cs, (h - 1) as nat),
        children_ok(d, p, cs, ms, (h - 1) as nat),
        0 <= a < b <= cs.len(),
        forall|i: int| a <= i < b ==> !(#[trigger] tree_pages(d, cs[i], (h - 1) as nat)).contains(q),
        node_at(d, q) == Some(NodeView::Internal(cs.subrange(a, b), ms.subrange(a, b - 1))),
        1 <= q < d.len(),
    ensures
        tree_wf(d, q, h, false),
{
    let hc = (h - 1) as nat;
    let sub = cs.subrange(a, b);
    let sms = ms.subrange(a, b - 1);
    assert forall|i: int| 0 <= i < sub.len() implies tree_wf(d, #[trigger] sub[i], hc, false) by {
        assert(sub[i] == cs[i + a]);
    }
    assert forall|i: int| 0 <= i < sms.len() implies #[trigger] sms[i] == max_key(d, sub[i], hc) by {
        assert(sub[i] == cs[i + a] && sms[i] == ms[i + a]);
    }
    assert forall|i: int| 1 <= i < sub.len() implies #[trigger] min_key(d, sub[i], hc) > max_key(d, sub[i - 1], hc) by {
        assert(sub[i] == cs[i + a] && sub[i - 1] == cs[i - 1 + a]);
    }
    assert forall|i: int| 0 <= i < sub.len() implies !(#[trigger] tree_pages(d, sub[i], hc)).contains(q) by {
        assert(sub[i] == cs[i + a]);
    }
    assert forall|i: int, j: int| 0 <= i < j < sub.len() implies tree_pages(d, #[trigger] sub[i], hc).disjoint(
        tree_pages(d, #[trigger] sub[j], hc)) by {
        assert(sub[i] == cs[i + a] && sub[j] == cs[j + a]);
    }
    assert(children_ok(d, q, sub, sms, hc));
}

/// The two halves of an overfull merged node, written to `p` and to the new page `r`,
/// are valid nodes over their children.
#[verifier::spinoff_prover]
proof fn lemma_halves_shape(
    old: Seq<Seq<u8>>,
    d1: Seq<Seq<u8>>,
    p: u32,
    h: nat,
    allow_empty: bool,
    key: u64,
    value: u64,
    cs2: Seq<u32>,
    ms2: Seq<u64>,
    left_ms: Seq<u64>,
    right_ms: Seq<u64>,
    r: u32,
    zero: Seq<u8>,
)
    requires
        tree_wf(old, p, h, allow_empty),
        node_at(old, p) matches Some(NodeView::Internal(cs, ms)),
        merged_ok(old, d1, p, h, key, value, cs2, ms2),
        340 < ms2.len() <= 341,
        r == d1.len(),
        left_ms.len() == cs2.len() / 2 - 1,
        forall|i: int| 0 <= i < left_ms.len() ==> #[trigger] left_ms[i] == max_key(d1, cs2[i], (h - 1) as nat),
        right_ms.len() == cs2.len() - cs2.len() / 2 - 1,
        forall|i: int| 0 <= i < right_ms.len() ==> #[trigger] right_ms[i] == max_key(
            d1,
            cs2[i + cs2.len() / 2],
            (h - 1) as nat,
        ),
    ensures
        ({
            let d3 = d1.push(zero).update(
            p as int,
            encode_node(NodeView::Internal(cs2.subrange(0, (cs2.len() / 2) as int), left_ms)),
        ).update(
            r as int,
            encode_node(NodeView::Internal(cs2.subrange((cs2.len() / 2) as int, cs2.len() as int), right_ms)),
        );
            let hc = (h - 1) as nat;
            let mid = cs2.len() / 2;
            &&& d3.len() == d1.len() + 1
            &&& node_at(d3, p) == Some(NodeView::Internal(cs2.subrange(0, mid as int), left_ms))
            &&& node_at(d3, r) == Some(NodeView::Internal(cs2.subrange(mid as int, cs2.len() as int), right_ms))
            &&& tree_wf(d3, p, h, false)
            &&& tree_wf(d3, r, h, false)
            &&& forall|i: int| 0 <= i < cs2.len() ==> agree_on(d1, d3, #[trigger] tree_pages(d1, cs2[i], hc))
                && !tree_pages(d1, cs2[i], hc).contains(r) && !tree_pages(d1, cs2[i], hc).contains(p)
            &&& left_ms == ms2.subrange(0, mid - 1)
            &&& right_ms == ms2.subrange(mid as int, ms2.len() as int)
        }),
{
    let hc = (h - 1) as nat;
    let mid = cs2.len() / 2;
    let left_cs = cs2.subrange(0, mid as int);
    let right_cs = cs2.subrange(mid as int, cs2.len() as int);
    let left = NodeView::Internal(left_cs, left_ms);
    let right = NodeView::Internal(right_cs, right_ms);
    let d2 = d1.push(zero).update(p as int, encode_node(left));
    let d3 = d2.update(r as int, encode_node(right));
    crate::engine::node::lemma_capacities();
    lemma_tree_pages_in_file(old, p, h, allow_empty);
    assert(cs2.len() == ms2.len() + 1);
    lemma_node_round_trip(left);
    lemma_node_round_trip(right);
    assert(node_at(d3, p) == Some(left)) by {
        assert(disk_page(d3, p as int) == disk_page(d2, p as int));
    }
    assert(node_at(d3, r) == Some(right));
    assert forall|i: int| 0 <= i < cs2.len() implies agree_on(d1, d3, #[trigger] tree_pages(d1, cs2[i], hc))
        && !tree_pages(d1, cs2[i], hc).contains(r) by {
        assert(!tree_pages(d1, cs2[i], hc).contains(p));
        lemma_tree_pages_in_file(d1, cs2[i], hc, false);
    }
    lemma_children_frame(d1, d3, p, cs2, ms2, hc);
    assert(left_ms =~= ms2.subrange(0, mid - 1));
    assert(right_ms =~= ms2.subrange(mid as int, ms2.len() as int));
    lemma_sub_node(d3, p, h, cs2, ms2, p, 0, mid as int);
    assert forall|i: int| mid <= i < cs2.len() implies !(#[trigger] tree_pages(d3, cs2[i], hc)).contains(r) by {
        lemma_child_frame_at(d1, d3, cs2, hc, i);
    }
    lemma_sub_node(d3, r, h, cs2, ms2, p, mid as int, cs2.len() as int);
}

/// Splitting an overfull merged node into `p` and the new page `r` finishes an insertion
/// with a split.
#[verifier::spinoff_prover]
pub proof fn lemma_halves_done(
    old: Seq<Seq<u8>>,
    d1: Seq<Seq<u8>>,
    p: u32,
    h: nat,
    allow_empty: bool,
    key: u64,
    value: u64,
    cs2: Seq<u32>,
    ms2: Seq<u64>,
    left_ms: Seq<u64>,
    right_ms: Seq<u64>,
    r: u32,
    zero: Seq<u8>,
)
    requires
        tree_wf(old, p, h, allow_empty),
        node_at(old, p) matches Some(NodeView::Internal(cs, ms)),
        merged_ok(old, d1, p, h, key, value, cs2, ms2),
        340 < ms2.len() <= 341,
        r == d1.len(),
        left_ms.len() == cs2.len() / 2 - 1,
        forall|i: int| 0 <= i < left_ms.len() ==> #[trigger] left_ms[i] == max_key(d1, cs2[i], (h - 1) as nat),
        right_ms.len() == cs2.len() - cs2.len() / 2 - 1,
        forall|i: int| 0 <= i < right_ms.len() ==> #[trigger] right_ms[i] == max_key(
            d1,
            cs2[i + cs2.len() / 2],
            (h - 1) as nat,
        ),
    ensures
        insert_done(old, d1.push(zero).update(
            p as int,
            encode_node(NodeView::Internal(cs2.subrange(0, (cs2.len() / 2) as int), left_ms)),
        ).update(
            r as int,
            encode_node(NodeView::Internal(cs2.subrange((cs2.len() / 2) as int, cs2.len() as int), right_ms)),
        ), p, h, allow_empty, key, value, Some(r)),
{
    let hc = (h - 1) as nat;
    let mid = cs2.len() / 2;
    let left_cs = cs2.subrange(0, mid as int);
    let right_cs = cs2.subrange(mid as int, cs2.len() as int);
    let left = NodeView::Internal(left_cs, left_ms);
    let right = NodeView::Internal(right_cs, right_ms);
    let d2 = d1.push(zero).update(p as int, encode_node(left));
    let d3 = d2.update(r as int, encode_node(right));
    lemma_halves_shape(old, d1, p, h, allow_empty, key, value, cs2, ms2, left_ms, right_ms, r, zero);
    lemma_tree_pages_in_file(old, p, h, allow_empty);
    assert(children_wf(d1, cs2, hc));
    let lm = mid - 1;
    assert(max_key(d3, p, h) == max_key(d1, cs2[lm], hc)) by {
        assert(left_cs.last() == cs2[lm]);
        assert(max_key(d3, p, h) == max_key(d3, left_cs.last(), hc));
        lemma_child_frame_at(d1, d3, cs2, hc, lm);
    }
    assert(min_key(d3, r, h) == min_key(d1, cs2[mid as int], hc)) by {
        assert(right_cs[0] == cs2[mid as int]);
        lemma_child_frame_at(d1, d3, cs2, hc, mid as int);
    }
    assert(min_key(d3, p, h) == min_key(d1, cs2[0], hc)) by {
        assert(left_cs[0] == cs2[0]);
        lemma_child_frame_at(d1, d3, cs2, hc, 0);
    }
    assert(max_key(d3, r, h) == max_key(d1, cs2.last(), hc)) by {
        assert(right_cs.last() == cs2.last());
        lemma_child_frame_at(d1, d3, cs2, hc, cs2.len() - 1);
    }
    assert(max_key(d1, cs2[lm], hc) < min_key(d1, cs2[mid as int], hc));
    assert forall|k: u64| #[trigger] updated_lookup(old, p, h, key, value, k) == if k <= max_key(d3, p, h) {
        lookup(d3, p, k, h)
    } else {
        lookup(d3, r, k, h)
    } by {
        assert(lookup(d1, cs2[route(ms2, k)], k, hc) == updated_lookup(old, p, h, key, value, k));
        assert(ms2[lm] == max_key(d1, cs2[lm], hc));
        lemma_route(ms2, k, 0);
        if k <= max_key(d3, p, h) {
            lemma_route_prefix(ms2, lm, k);
            let j = route(ms2, k);
            assert(left_cs[j] == cs2[j]);
            lemma_child_frame_at(d1, d3, cs2, hc, j);
            assert(lookup(d3, p, k, h) == lookup(d3, left_cs[j], k, hc));
        } else {
            assert forall|i: int| 0 <= i <= lm implies k > #[trigger] ms2[i] by {
                if i < lm {
                    lemma_children_ordered(d1, cs2, hc, i, lm);
                }
            }
            lemma_route_suffix(ms2, lm, k);
            let j = route(ms2, k);
            assert(right_cs[j - mid] == cs2[j]);
            lemma_child_frame_at(d1, d3, cs2, hc, j);
            assert(lookup(d3, r, k, h) == lookup(d3, right_cs[j - mid], k, hc));
        }
    }
    assert forall|q: u32| #[trigger] tree_pages(d3, p, h).contains(q) implies tree_pages(old, p, h).contains(q)
        || (old.len() <= q < d3.len()) by {
        if q != p {
            let i = choose|i: int| 0 <= i < left_cs.len() && tree_pages(d3, left_cs[i], hc).contains(q);
            assert(left_cs[i] == cs2[i]);
            lemma_child_frame_at(d1, d3, cs2, hc, i);
            assert(tree_pages(d1, cs2[i], hc).contains(q));
        }
    }
    assert forall|q: u32| #[trigger] tree_pages(d3, r, h).contains(q) implies tree_pages(old, p, h).contains(q)
        || (old.len() <= q < d3.len()) by {
        if q != r {
            let i = choose|i: int| 0 <= i < right_cs.len() && tree_pages(d3, right_cs[i], hc).contains(q);
            assert(right_cs[i] == cs2[i + mid]);
            lemma_child_frame_at(d1, d3, cs2, hc, i + mid);
            assert(tree_pages(d1, cs2[i + mid], hc).contains(q));
        }
    }
    assert forall|q: u32| #[trigger] tree_pages(d3, p, h).contains(q) implies !tree_pages(d3, r, h).contains(q) by {
        if q == p {
            if tree_pages(d3, r, h).contains(p) {
                let j = choose|j: int| 0 <= j < right_cs.len() && tree_pages(d3, right_cs[j], hc).contains(p);
                assert(right_cs[j] == cs2[j + mid]);
                lemma_child_frame_at(d1, d3, cs2, hc, j + mid);
            }
        } else {
            let i = choose|i: int| 0 <= i < left_cs.len() && tree_pages(d3, left_cs[i], hc).contains(q);
            assert(left_cs[i] == cs2[i]);
            lemma_child_frame_at(d1, d3, cs2, hc, i);
            if tree_pages(d3, r, h).contains(q) {
                if q != r {
                    let j = choose|j: int| 0 <= j < right_cs.len() && tree_pages(d3, right_cs[j], hc).contains(q);
                    assert(right_cs[j] == cs2[j + mid]);
                    lemma_child_frame_at(d1, d3, cs2, hc, j + mid);
                    assert(tree_pages(d1, cs2[i], hc).disjoint(tree_pages(d1, cs2[j + mid], hc)));
                }
            }
        }
    }
    assert(tree_pages(d3, p, h).disjoint(tree_pages(d3, r, h)));
    assert forall|q: u32| (q as int) < old.len() && !tree_pages(old, p, h).contains(q) implies #[trigger] agree_at(old, d3, q) by {
        assert(agree_at(old, d1, q));
    }
}

} // verus!
