//! What a tree of engine pages holds, and what keeps it a well-formed B-tree.
use vstd::prelude::*;

use crate::engine::disk::disk_page;
use crate::engine::node::{decode_node, LeafEntry, NodeView};

verus! {

/// The node stored in page `p`, if the page decodes.
pub open spec fn node_at(disk: Seq<Seq<u8>>, p: u32) -> Option<NodeView> {
    decode_node(disk_page(disk, p as int))
}

/// The first separator index from `i` on that is at least `key`, or the number of
/// separators when there is none: the child a lookup of `key` descends into.
pub open spec fn route_from(max_keys: Seq<u64>, key: u64, i: int) -> int
    decreases max_keys.len() - i,
{
    if i >= max_keys.len() {
        max_keys.len() as int
    } else if key <= max_keys[i] {
        i
    } else {
        route_from(max_keys, key, i + 1)
    }
}

/// The child a lookup of `key` descends into.
pub open spec fn route(max_keys: Seq<u64>, key: u64) -> int {
    route_from(max_keys, key, 0)
}

/// Whether entry keys strictly increase.
pub open spec fn entries_sorted(entries: Seq<LeafEntry>) -> bool {
    forall|i: int, j: int| 0 <= i < j < entries.len() ==> entries[i].key < entries[j].key
}

/// The value stored under `key` in a leaf's entries, if any.
pub open spec fn leaf_lookup(entries: Seq<LeafEntry>, key: u64) -> Option<u64> {
    if exists|i: int| 0 <= i < entries.len() && entries[i].key == key {
        Some(entries[choose|i: int| 0 <= i < entries.len() && entries[i].key == key].value)
    } else {
        None
    }
}

/// The value a lookup of `key` finds below page `p`, descending at most `h` levels.
pub open spec fn lookup(disk: Seq<Seq<u8>>, p: u32, key: u64, h: nat) -> Option<u64>
    decreases h,
{
    match node_at(disk, p) {
        Some(NodeView::Leaf(entries)) => leaf_lookup(entries, key),
        Some(NodeView::Internal(children, max_keys)) => {
            if h == 0 {
                None
            } else {
                lookup(disk, children[route(max_keys, key)], key, (h - 1) as nat)
            }
        },
        None => None,
    }
}

/// The greatest key below page `p`: the last key of its rightmost leaf.
pub open spec fn max_key(disk: Seq<Seq<u8>>, p: u32, h: nat) -> u64
    decreases h,
{
    match node_at(disk, p) {
        Some(NodeView::Leaf(entries)) => entries.last().key,
        Some(NodeView::Internal(children, max_keys)) => {
            if h == 0 {
                0
            } else {
                max_key(disk, children.last(), (h - 1) as nat)
            }
        },
        None => 0,
    }
}

/// The least key below page `p`: the first key of its leftmost leaf.
pub open spec fn min_key(disk: Seq<Seq<u8>>, p: u32, h: nat) -> u64
    decreases h,
{
    match node_at(disk, p) {
        Some(NodeView::Leaf(entries)) => entries[0].key,
        Some(NodeView::Internal(children, max_keys)) => {
            if h == 0 {
                0
            } else {
                min_key(disk, children[0], (h - 1) as nat)
            }
        },
        None => 0,
    }
}

/// The pages of the subtree at `p`.
pub open spec fn tree_pages(disk: Seq<Seq<u8>>, p: u32, h: nat) -> Set<u32>
    decreases h,
{
    match node_at(disk, p) {
        Some(NodeView::Internal(children, max_keys)) => {
            if h == 0 {
                set![p]
            } else {
                Set::new(
                    |q: u32|
                        q == p || exists|i: int|
                            0 <= i < children.len() && tree_pages(disk, children[i], (h - 1) as nat).contains(q),
                )
            }
        },
        _ => set![p],
    }
}

/// The conditions an internal node at `p` places on its children `children` (each of
/// height at most `h`) and its separators `max_keys`: each separator is the greatest key
/// of its child, each child's keys lie above the previous child's, and the children's
/// subtrees share no page with each other or with the node.
pub open spec fn children_ok(disk: Seq<Seq<u8>>, p: u32, children: Seq<u32>, max_keys: Seq<u64>, h: nat) -> bool {
    &&& children.len() == max_keys.len() + 1
    &&& forall|i: int| 0 <= i < max_keys.len() ==> #[trigger] max_keys[i] == max_key(disk, children[i], h)
    &&& children_rise(disk, children, h)
    &&& forall|i: int| 0 <= i < children.len() ==> !(#[trigger] tree_pages(disk, children[i], h)).contains(p)
    &&& forall|i: int, j: int| 0 <= i < j < children.len() ==> tree_pages(disk, #[trigger] children[i], h).disjoint(
        tree_pages(disk, #[trigger] children[j], h))
}

/// Each child's least key lies above the previous child's greatest key.
pub open spec fn children_rise(disk: Seq<Seq<u8>>, children: Seq<u32>, h: nat) -> bool {
    forall|i: int| 1 <= i < children.len() ==> #[trigger] min_key(disk, children[i], h)
        > max_key(disk, children[i - 1], h)
}

/// Every child is a well-formed non-empty subtree of height at most `h`.
pub open spec fn children_wf(disk: Seq<Seq<u8>>, children: Seq<u32>, h: nat) -> bool {
    forall|i: int| 0 <= i < children.len() ==> tree_wf(disk, #[trigger] children[i], h, false)
}

/// The subtree at `p` is a well-formed B-tree of height at most `h`: every page lies in
/// the file after the metadata page and decodes; leaves hold strictly increasing keys and,
/// unless `allow_empty` (the root), at least one entry; internal nodes meet `children_ok`.
pub open spec fn tree_wf(disk: Seq<Seq<u8>>, p: u32, h: nat, allow_empty: bool) -> bool
    decreases h,
{
    &&& 1 <= p < disk.len()
    &&& match node_at(disk, p) {
        None => false,
        Some(NodeView::Leaf(entries)) => entries_sorted(entries) && (allow_empty || entries.len() > 0),
        Some(NodeView::Internal(children, max_keys)) => {
            &&& h > 0
            &&& forall|i: int| 0 <= i < children.len() ==> tree_wf(disk, #[trigger] children[i], (h - 1) as nat, false)
            &&& children_ok(disk, p, children, max_keys, (h - 1) as nat)
        },
    }
}

/// A decoded internal node has one more child than separator keys.
pub proof fn lemma_decoded_internal(page: Seq<u8>)
    ensures
        decode_node(page) matches Some(NodeView::Internal(children, max_keys)) ==> children.len()
            == max_keys.len() + 1 && max_keys.len() <= 340,
        decode_node(page) matches Some(NodeView::Leaf(entries)) ==> entries.len() <= 255,
{
    crate::engine::node::lemma_capacities();
}

/// The route of a key is the first separator at least the key, or past the last one.
pub proof fn lemma_route(max_keys: Seq<u64>, key: u64, i: int)
    requires
        0 <= i <= max_keys.len(),
    ensures
        i <= route_from(max_keys, key, i) <= max_keys.len(),
        route_from(max_keys, key, i) < max_keys.len() ==> key <= max_keys[route_from(max_keys, key, i)],
        forall|j: int| i <= j < route_from(max_keys, key, i) ==> key > #[trigger] max_keys[j],
    decreases max_keys.len() - i,
{
    if i < max_keys.len() && key > max_keys[i] {
        lemma_route(max_keys, key, i + 1);
    }
}

/// `disk2` holds the same bytes as `disk` in every page of `pages`.
pub open spec fn agree_on(disk: Seq<Seq<u8>>, disk2: Seq<Seq<u8>>, pages: Set<u32>) -> bool {
    forall|q: u32| #[trigger] pages.contains(q) ==> agree_at(disk, disk2, q)
}

/// `disk2` holds the same bytes as `disk` in page `q`, which both hold.
pub open spec fn agree_at(disk: Seq<Seq<u8>>, disk2: Seq<Seq<u8>>, q: u32) -> bool {
    (q as int) < disk.len() && (q as int) < disk2.len() && disk2[q as int] == disk[q as int]
}

/// The frame property for one child of an internal node.
proof fn lemma_tree_frame_child(disk: Seq<Seq<u8>>, disk2: Seq<Seq<u8>>, p: u32, h: nat, allow_empty: bool, i: int)
    requires
        tree_wf(disk, p, h, allow_empty),
        agree_on(disk, disk2, tree_pages(disk, p, h)),
        node_at(disk, p) matches Some(NodeView::Internal(children, max_keys)) && 0 <= i < children.len(),
    ensures
        ({
            let children = node_at(disk, p)->Some_0->Internal_0;
            &&& tree_wf(disk2, children[i], (h - 1) as nat, false)
            &&& tree_pages(disk2, children[i], (h - 1) as nat) == tree_pages(disk, children[i], (h - 1) as nat)
            &&& forall|k: u64| #[trigger] lookup(disk2, children[i], k, (h - 1) as nat) == lookup(disk, children[i], k, (h - 1) as nat)
            &&& min_key(disk2, children[i], (h - 1) as nat) == min_key(disk, children[i], (h - 1) as nat)
            &&& max_key(disk2, children[i], (h - 1) as nat) == max_key(disk, children[i], (h - 1) as nat)
        }),
    decreases h, 0nat,
{
    let children = node_at(disk, p)->Some_0->Internal_0;
    let c = children[i];
    assert(tree_wf(disk, c, (h - 1) as nat, false));
    assert(h > 0);
    assert forall|q: u32| #[trigger] tree_pages(disk, c, (h - 1) as nat).contains(q) implies agree_at(disk, disk2, q) by {
        assert(0 <= i < children.len() && tree_pages(disk, children[i], (h - 1) as nat).contains(q));
        assert(tree_pages(disk, p, h).contains(q));
    }
    assert(agree_on(disk, disk2, tree_pages(disk, c, (h - 1) as nat)));
    lemma_tree_frame(disk, disk2, c, (h - 1) as nat, false);
}

/// A subtree is a function of its own pages: a disk that agrees on them has the same
/// subtree, with the same pages, contents, least and greatest keys.
pub proof fn lemma_tree_frame(disk: Seq<Seq<u8>>, disk2: Seq<Seq<u8>>, p: u32, h: nat, allow_empty: bool)
    requires
        tree_wf(disk, p, h, allow_empty),
        agree_on(disk, disk2, tree_pages(disk, p, h)),
    ensures
        tree_wf(disk2, p, h, allow_empty),
        tree_pages(disk2, p, h) == tree_pages(disk, p, h),
        node_at(disk2, p) == node_at(disk, p),
        forall|k: u64| #[trigger] lookup(disk2, p, k, h) == lookup(disk, p, k, h),
        min_key(disk2, p, h) == min_key(disk, p, h),
        max_key(disk2, p, h) == max_key(disk, p, h),
    decreases h, 1nat,
{
    assert(tree_pages(disk, p, h).contains(p));
    assert(node_at(disk2, p) == node_at(disk, p));
    lemma_decoded_internal(disk_page(disk, p as int));
    match node_at(disk, p) {
        Some(NodeView::Internal(children, max_keys)) => {
            lemma_route(max_keys, 0, 0);
            assert forall|i: int| 0 <= i < children.len() implies {
                &&& tree_wf(disk2, children[i], (h - 1) as nat, false)
                &&& tree_pages(disk2, children[i], (h - 1) as nat) == tree_pages(disk, children[i], (h - 1) as nat)
                &&& forall|k: u64| #[trigger] lookup(disk2, children[i], k, (h - 1) as nat) == lookup(disk, children[i], k, (h - 1) as nat)
                &&& min_key(disk2, children[i], (h - 1) as nat) == min_key(disk, children[i], (h - 1) as nat)
                &&& max_key(disk2, children[i], (h - 1) as nat) == max_key(disk, children[i], (h - 1) as nat)
            } by {
                lemma_tree_frame_child(disk, disk2, p, h, allow_empty, i);
            }
            assert(tree_pages(disk2, p, h) =~= tree_pages(disk, p, h));
            assert forall|k: u64| #[trigger] lookup(disk2, p, k, h) == lookup(disk, p, k, h) by {
                lemma_route(max_keys, k, 0);
                let r = route(max_keys, k);
                lemma_tree_frame_child(disk, disk2, p, h, allow_empty, r);
                assert(lookup(disk2, p, k, h) == lookup(disk2, children[r], k, (h - 1) as nat));
                assert(lookup(disk, p, k, h) == lookup(disk, children[r], k, (h - 1) as nat));
                assert(lookup(disk2, children[r], k, (h - 1) as nat) == lookup(disk, children[r], k, (h - 1) as nat));
            }
        },
        _ => {},
    }
}

/// In strictly increasing entries, an index with the key is the only one.
pub proof fn lemma_leaf_lookup_at(entries: Seq<LeafEntry>, key: u64, i: int)
    requires
        entries_sorted(entries),
        0 <= i < entries.len(),
        entries[i].key == key,
    ensures
        leaf_lookup(entries, key) == Some(entries[i].value),
{
    let j = choose|j: int| 0 <= j < entries.len() && entries[j].key == key;
    if j != i {
        if j < i {
            assert(entries[j].key < entries[i].key);
        } else {
            assert(entries[i].key < entries[j].key);
        }
    }
}

/// A valid non-empty subtree's least key is at most its greatest.
pub proof fn lemma_min_le_max(disk: Seq<Seq<u8>>, p: u32, h: nat)
    requires
        tree_wf(disk, p, h, false),
    ensures
        min_key(disk, p, h) <= max_key(disk, p, h),
    decreases h, 1nat, 0int,
{
    lemma_decoded_internal(disk_page(disk, p as int));
    match node_at(disk, p) {
        Some(NodeView::Leaf(entries)) => {
            if entries.len() > 1 {
                assert(entries[0].key < entries[entries.len() - 1].key);
            }
        },
        Some(NodeView::Internal(children, max_keys)) => {
            assert(children_wf(disk, children, (h - 1) as nat));
            lemma_children_ordered(disk, children, (h - 1) as nat, 0, children.len() - 1);
        },
        None => {},
    }
}

/// Under rising children, keys rise from child to child: child `i`'s least key is at most
/// child `j`'s greatest, for `i <= j`, and strictly below it across children.
pub proof fn lemma_children_ordered(disk: Seq<Seq<u8>>, children: Seq<u32>, h: nat, i: int, j: int)
    requires
        children_wf(disk, children, h),
        children_rise(disk, children, h),
        0 <= i <= j < children.len(),
    ensures
        min_key(disk, children[i], h) <= max_key(disk, children[j], h),
        i < j ==> max_key(disk, children[i], h) < min_key(disk, children[j], h),
        i < j ==> max_key(disk, children[i], h) < max_key(disk, children[j], h),
        min_key(disk, children[i], h) <= min_key(disk, children[j], h),
    decreases h + 1, 0nat, j - i,
{
    assert(tree_wf(disk, children[j], h, false));
    lemma_min_le_max(disk, children[j], h);
    if i < j {
        assert(tree_wf(disk, children[j - 1], h, false));
        lemma_children_ordered(disk, children, h, i, j - 1);
        lemma_min_le_max(disk, children[j - 1], h);
        assert(min_key(disk, children[j], h) > max_key(disk, children[j - 1], h));
    }
}

/// Every page of a valid subtree lies in the file, after the metadata page.
pub proof fn lemma_tree_pages_in_file(disk: Seq<Seq<u8>>, p: u32, h: nat, allow_empty: bool)
    requires
        tree_wf(disk, p, h, allow_empty),
    ensures
        forall|q: u32| #[trigger] tree_pages(disk, p, h).contains(q) ==> 1 <= q < disk.len(),
        tree_pages(disk, p, h).contains(p),
    decreases h,
{
    match node_at(disk, p) {
        Some(NodeView::Internal(children, max_keys)) => {
            assert forall|q: u32| #[trigger] tree_pages(disk, p, h).contains(q) implies 1 <= q < disk.len() by {
                if q != p {
                    let i = choose|i: int| 0 <= i < children.len() && tree_pages(disk, children[i], (h - 1) as nat).contains(q);
                    lemma_tree_pages_in_file(disk, children[i], (h - 1) as nat, false);
                }
            }
        },
        _ => {},
    }
}

/// The height step for one child of an internal node.
proof fn lemma_height_step_child(disk: Seq<Seq<u8>>, p: u32, h: nat, allow_empty: bool, i: int)
    requires
        tree_wf(disk, p, h, allow_empty),
        node_at(disk, p) matches Some(NodeView::Internal(children, max_keys)) && 0 <= i < children.len(),
    ensures
        ({
            let c = node_at(disk, p)->Some_0->Internal_0[i];
            let hc = (h - 1) as nat;
            &&& tree_wf(disk, c, h, false)
            &&& tree_pages(disk, c, h) == tree_pages(disk, c, hc)
            &&& forall|k: u64| #[trigger] lookup(disk, c, k, h) == lookup(disk, c, k, hc)
            &&& min_key(disk, c, h) == min_key(disk, c, hc)
            &&& max_key(disk, c, h) == max_key(disk, c, hc)
        }),
    decreases h, 0nat,
{
    let children = node_at(disk, p)->Some_0->Internal_0;
    assert(tree_wf(disk, children[i], (h - 1) as nat, false));
    lemma_height_step(disk, children[i], (h - 1) as nat, false);
}

/// A subtree valid at height `h` is valid at `h + 1`, with the same pages, contents and
/// key range.
pub proof fn lemma_height_step(disk: Seq<Seq<u8>>, p: u32, h: nat, allow_empty: bool)
    requires
        tree_wf(disk, p, h, allow_empty),
    ensures
        tree_wf(disk, p, h + 1, allow_empty),
        tree_pages(disk, p, h + 1) == tree_pages(disk, p, h),
        forall|k: u64| #[trigger] lookup(disk, p, k, h + 1) == lookup(disk, p, k, h),
        min_key(disk, p, h + 1) == min_key(disk, p, h),
        max_key(disk, p, h + 1) == max_key(disk, p, h),
    decreases h, 1nat,
{
    match node_at(disk, p) {
        Some(NodeView::Internal(children, max_keys)) => {
            let hc = (h - 1) as nat;
            lemma_decoded_internal(disk_page(disk, p as int));
            assert(tree_wf(disk, p, h + 1, allow_empty)) by {
                assert forall|i: int| 0 <= i < children.len() implies {
                    &&& tree_wf(disk, children[i], h, false)
                    &&& tree_pages(disk, children[i], h) == tree_pages(disk, children[i], hc)
                    &&& min_key(disk, children[i], h) == min_key(disk, children[i], hc)
                    &&& max_key(disk, children[i], h) == max_key(disk, children[i], hc)
                } by {
                    lemma_height_step_child(disk, p, h, allow_empty, i);
                }
                assert(children_ok(disk, p, children, max_keys, h));
            }
            assert(tree_pages(disk, p, h + 1) =~= tree_pages(disk, p, h)) by {
                assert forall|i: int| 0 <= i < children.len() implies tree_pages(disk, children[i], h)
                    == tree_pages(disk, children[i], hc) by {
                    lemma_height_step_child(disk, p, h, allow_empty, i);
                }
            }
            assert forall|k: u64| #[trigger] lookup(disk, p, k, h + 1) == lookup(disk, p, k, h) by {
                lemma_route(max_keys, k, 0);
                let r = route(max_keys, k);
                lemma_height_step_child(disk, p, h, allow_empty, r);
                assert(lookup(disk, p, k, h + 1) == lookup(disk, children[r], k, h));
                assert(lookup(disk, p, k, h) == lookup(disk, children[r], k, hc));
            }
            lemma_height_step_child(disk, p, h, allow_empty, 0);
            lemma_height_step_child(disk, p, h, allow_empty, children.len() - 1);
        },
        _ => {},
    }
}

/// Contents, pages and key range do not depend on which valid height bound is used.
pub proof fn lemma_height_free(disk: Seq<Seq<u8>>, p: u32, h1: nat, h2: nat, allow_empty: bool)
    requires
        tree_wf(disk, p, h1, allow_empty),
        h1 <= h2,
    ensures
        tree_wf(disk, p, h2, allow_empty),
        tree_pages(disk, p, h2) == tree_pages(disk, p, h1),
        forall|k: u64| #[trigger] lookup(disk, p, k, h2) == lookup(disk, p, k, h1),
        min_key(disk, p, h2) == min_key(disk, p, h1),
        max_key(disk, p, h2) == max_key(disk, p, h1),
    decreases h2 - h1,
{
    if h1 < h2 {
        lemma_height_step(disk, p, h1, allow_empty);
        lemma_height_free(disk, p, h1 + 1, h2, allow_empty);
    }
}

/// The route of `key` is the one index before which every separator is below `key` and
/// at which the separators end or reach `key`.
pub proof fn lemma_route_unique(max_keys: Seq<u64>, key: u64, j: int)
    requires
        0 <= j <= max_keys.len(),
        forall|i: int| 0 <= i < j ==> key > #[trigger] max_keys[i],
        j == max_keys.len() || key <= max_keys[j],
    ensures
        route(max_keys, key) == j,
{
    lemma_route(max_keys, key, 0);
    let r = route(max_keys, key);
    if r < j {
        assert(key > max_keys[r]);
    } else if r > j {
        assert(key > max_keys[j]);
    }
}

/// Routing among separators with `m` inserted at `r`.
pub proof fn lemma_route_insert(max_keys: Seq<u64>, m: u64, r: int, key: u64)
    requires
        0 <= r <= max_keys.len(),
    ensures
        ({
            let j = route(max_keys, key);
            route(max_keys.insert(r, m), key) == if j < r {
                j
            } else if key <= m {
                r
            } else {
                j + 1
            }
        }),
{
    lemma_route(max_keys, key, 0);
    let j = route(max_keys, key);
    let ms2 = max_keys.insert(r, m);
    if j < r {
        assert forall|i: int| 0 <= i < j implies key > #[trigger] ms2[i] by {
            assert(key > max_keys[i]);
        }
        lemma_route_unique(ms2, key, j);
    } else if key <= m {
        assert forall|i: int| 0 <= i < r implies key > #[trigger] ms2[i] by {
            assert(key > max_keys[i]);
        }
        lemma_route_unique(ms2, key, r);
    } else {
        assert forall|i: int| 0 <= i < j + 1 implies key > #[trigger] ms2[i] by {
            if i < r {
                assert(key > max_keys[i]);
            } else if i > r {
                assert(key > max_keys[i - 1]);
            }
        }
        if j < max_keys.len() {
            assert(ms2[j + 1] == max_keys[j]);
        }
        lemma_route_unique(ms2, key, j + 1);
    }
}

/// A key at most separator `m` routes the same among the separators before `m`.
pub proof fn lemma_route_prefix(max_keys: Seq<u64>, m: int, key: u64)
    requires
        0 <= m < max_keys.len(),
        key <= max_keys[m],
    ensures
        route(max_keys, key) <= m,
        route(max_keys.subrange(0, m), key) == route(max_keys, key),
{
    lemma_route(max_keys, key, 0);
    let j = route(max_keys, key);
    if j > m {
        assert(key > max_keys[m]);
    }
    let pre = max_keys.subrange(0, m);
    assert forall|i: int| 0 <= i < j implies key > #[trigger] pre[i] by {
        assert(key > max_keys[i]);
    }
    lemma_route_unique(pre, key, j);
}

/// A key above every separator up to `m` routes among the separators after `m` to its
/// route less `m + 1`.
pub proof fn lemma_route_suffix(max_keys: Seq<u64>, m: int, key: u64)
    requires
        0 <= m < max_keys.len(),
        forall|i: int| 0 <= i <= m ==> key > #[trigger] max_keys[i],
    ensures
        route(max_keys, key) > m,
        route(max_keys.subrange(m + 1, max_keys.len() as int), key) == route(max_keys, key) - (m + 1),
{
    lemma_route(max_keys, key, 0);
    let j = route(max_keys, key);
    if j <= m {
        assert(key > max_keys[j]);
    }
    let suf = max_keys.subrange(m + 1, max_keys.len() as int);
    assert forall|i: int| 0 <= i < j - (m + 1) implies key > #[trigger] suf[i] by {
        assert(key > max_keys[i + m + 1]);
    }
    lemma_route_unique(suf, key, j - (m + 1));
}

} // verus!
