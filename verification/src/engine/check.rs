//! Checking that a page file holds a well-formed tree before the engine works on it.
use vstd::prelude::*;

use crate::engine::disk::Pager;
use crate::engine::node::{read_node, LeafEntry, Node, NodeView};
use crate::engine::tree::{entries_sorted, lemma_decoded_internal, max_key, min_key, node_at, tree_pages, tree_wf};

verus! {

/// The pages marked in `seen`.
pub open spec fn marked(seen: Seq<bool>) -> Set<u32> {
    Set::new(|q: u32| (q as int) < seen.len() && seen[q as int])
}

/// The pages of the subtrees under the first `i` of `children`.
pub open spec fn children_pages(disk: Seq<Seq<u8>>, children: Seq<u32>, h: nat, i: int) -> Set<u32> {
    Set::new(|q: u32| exists|j: int| 0 <= j < i && #[trigger] tree_pages(disk, children[j], h).contains(q))
}

/// Whether the keys of `entries` strictly increase.
fn entries_increase(entries: &Vec<LeafEntry>) -> (ok: bool)
    ensures
        ok == entries_sorted(entries@),
{
    let n = entries.len();
    if n == 0 {
        return true;
    }
    let mut i: usize = 1;
    while i < n
        invariant
            1 <= i <= n,
            n == entries@.len(),
            forall|a: int, b: int| 0 <= a < b < i ==> entries@[a].key < entries@[b].key,
        decreases n - i,
    {
        if entries[i - 1].key >= entries[i].key {
            return false;
        }
        i = i + 1;
    }
    true
}

/// Checks that the subtree at `p` is well formed within height `h` and shares no page with
/// those marked in `seen`. When it is, its pages are marked and its least and greatest keys
/// come back (those of its leaves when they hold entries).
fn check_tree(pager: &Pager, p: u32, h: u32, allow_empty: bool, seen: &mut Vec<bool>) -> (result: Option<(u64, u64)>)
    requires
        pager.wf(),
        old(seen)@.len() == pager@.len(),
    ensures
        final(seen)@.len() == old(seen)@.len(),
        result is Some <==> tree_wf(pager@, p, h as nat, allow_empty) && tree_pages(pager@, p, h as nat).disjoint(
            marked(old(seen)@),
        ),
        result is Some ==> marked(final(seen)@) == marked(old(seen)@) + tree_pages(pager@, p, h as nat),
        result is Some && !allow_empty ==> result->Some_0.0 == min_key(pager@, p, h as nat) && result->Some_0.1
            == max_key(pager@, p, h as nat),
    decreases h,
{
    let ghost disk = pager@;
    let ghost seen0 = seen@;
    let count = pager.page_count();
    if p == 0 || p >= count || seen[p as usize] {
        proof {
            if p != 0 && p < count {
                assert(marked(seen0).contains(p));
                assert(tree_pages(disk, p, h as nat).contains(p));
            }
        }
        return None;
    }
    match read_node(pager, p) {
        Err(_) => None,
        Ok(Node::Leaf(leaf)) => {
            assert(node_at(disk, p) == Some(NodeView::Leaf(leaf.entries@)));
            if !entries_increase(&leaf.entries) {
                return None;
            }
            let n = leaf.entries.len();
            if n == 0 && !allow_empty {
                return None;
            }
            seen.set(p as usize, true);
            assert(marked(seen@) =~= marked(seen0) + tree_pages(disk, p, h as nat));
            if n == 0 {
                Some((0, 0))
            } else {
                Some((leaf.entries[0].key, leaf.entries[n - 1].key))
            }
        },
        Ok(Node::Internal(internal)) => {
            let ghost cs = internal.children@;
            let ghost ms = internal.max_keys@;
            assert(node_at(disk, p) == Some(NodeView::Internal(cs, ms)));
            proof {
                lemma_decoded_internal(crate::engine::disk::disk_page(disk, p as int));
            }
            if h == 0 {
                return None;
            }
            let ghost hc = (h - 1) as nat;
            seen.set(p as usize, true);
            let ghost seen1 = seen@;
            assert(marked(seen1) =~= marked(seen0).insert(p));
            let children = &internal.children;
            let max_keys = &internal.max_keys;
            let n = children.len();
            let mut lowest: u64 = 0;
            let mut previous_max: u64 = 0;
            let mut i: usize = 0;
            while i < n
                invariant
                    pager.wf(),
                    disk == pager@,
                    n == cs.len(),
                    cs == children@,
                    ms == max_keys@,
                    cs.len() == ms.len() + 1,
                    hc + 1 == h,
                    0 <= i <= n,
                    seen@.len() == seen0.len(),
                    seen0.len() == disk.len(),
                    seen0 == old(seen)@,
                    node_at(disk, p) == Some(NodeView::Internal(cs, ms)),
                    1 <= p < disk.len(),
                    marked(seen@) == marked(seen0).insert(p) + children_pages(disk, cs, hc, i as int),
                    forall|j: int| 0 <= j < i ==> tree_wf(disk, #[trigger] cs[j], hc, false),
                    forall|j: int| 0 <= j < i ==> !(#[trigger] tree_pages(disk, cs[j], hc)).contains(p),
                    forall|j: int| 0 <= j < i ==> (#[trigger] tree_pages(disk, cs[j], hc)).disjoint(marked(seen0)),
                    forall|j: int, k: int| 0 <= j < k < i ==> tree_pages(disk, #[trigger] cs[j], hc).disjoint(
                        tree_pages(disk, #[trigger] cs[k], hc)),
                    forall|j: int| 0 <= j < i && j < ms.len() ==> #[trigger] ms[j] == max_key(disk, cs[j], hc),
                    forall|j: int| 1 <= j < i ==> #[trigger] min_key(disk, cs[j], hc) > max_key(disk, cs[j - 1], hc),
                    i > 0 ==> lowest == min_key(disk, cs[0], hc),
                    i > 0 ==> previous_max == max_key(disk, cs[i - 1], hc),
                    !marked(seen0).contains(p),
                decreases n - i,
            {
                let ghost before = seen@;
                let child = children[i];
                let keys = match check_tree(pager, child, h - 1, false, seen) {
                    Some(keys) => keys,
                    None => {
                        proof {
                            assert(marked(before).contains(p));
                            if tree_wf(disk, p, h as nat, allow_empty) && tree_pages(disk, p, h as nat).disjoint(
                                marked(seen0),
                            ) {
                                assert(cs[i as int] == child);
                                assert(tree_wf(disk, cs[i as int], hc, false));
                                assert forall|q: u32| #[trigger] tree_pages(disk, child, hc).contains(q)
                                    implies !marked(before).contains(q) by {
                                    assert(tree_pages(disk, p, h as nat).contains(q));
                                    if children_pages(disk, cs, hc, i as int).contains(q) {
                                        let j = choose|j: int| 0 <= j < i && #[trigger] tree_pages(disk, cs[j], hc).contains(q);
                                        assert(tree_pages(disk, cs[j], hc).disjoint(tree_pages(disk, cs[i as int], hc)));
                                    }
                                }
                                assert(tree_pages(disk, child, hc).disjoint(marked(before)));
                            }
                        }
                        return None;
                    },
                };
                if i > 0 && keys.0 <= previous_max {
                    return None;
                }
                if i < max_keys.len() && max_keys[i] != keys.1 {
                    return None;
                }
                proof {
                    assert(marked(seen@) =~= marked(seen0).insert(p) + children_pages(disk, cs, hc, i + 1)) by {
                        assert forall|q: u32| children_pages(disk, cs, hc, i + 1).contains(q) implies
                            #[trigger] marked(seen@).contains(q) by {
                            let j = choose|j: int| 0 <= j < i + 1 && #[trigger] tree_pages(disk, cs[j], hc).contains(q);
                            if j < i {
                                assert(children_pages(disk, cs, hc, i as int).contains(q));
                            }
                        }
                        assert forall|q: u32| #[trigger] marked(seen@).contains(q) implies
                            marked(seen0).insert(p).contains(q) || children_pages(disk, cs, hc, i + 1).contains(q) by {
                            if children_pages(disk, cs, hc, i as int).contains(q) {
                                let j = choose|j: int| 0 <= j < i && #[trigger] tree_pages(disk, cs[j], hc).contains(q);
                            } else if tree_pages(disk, cs[i as int], hc).contains(q) {
                                assert(tree_pages(disk, cs[i as int], hc).contains(q));
                            }
                        }
                    }
                    assert forall|j: int| 0 <= j < i implies tree_pages(disk, #[trigger] cs[j], hc).disjoint(
                        tree_pages(disk, cs[i as int], hc)) by {
                        assert forall|q: u32| #[trigger] tree_pages(disk, cs[j], hc).contains(q) implies
                            !tree_pages(disk, cs[i as int], hc).contains(q) by {
                            assert(children_pages(disk, cs, hc, i as int).contains(q));
                        }
                    }
                    assert(tree_pages(disk, cs[i as int], hc).disjoint(marked(seen0))) by {
                        assert forall|q: u32| #[trigger] tree_pages(disk, cs[i as int], hc).contains(q) implies
                            !marked(seen0).contains(q) by {
                            assert(!marked(before).contains(q));
                        }
                    }
                    assert(!tree_pages(disk, cs[i as int], hc).contains(p));
                }
                if i == 0 {
                    lowest = keys.0;
                }
                previous_max = keys.1;
                i = i + 1;
            }
            proof {
                assert(tree_wf(disk, p, h as nat, allow_empty));
                assert forall|q: u32| #[trigger] tree_pages(disk, p, h as nat).contains(q) implies
                    set![p].contains(q) || children_pages(disk, cs, hc, n as int).contains(q) by {
                    if q != p {
                        let j = choose|j: int| 0 <= j < cs.len() && tree_pages(disk, cs[j], hc).contains(q);
                        assert(tree_pages(disk, cs[j], hc).contains(q));
                    }
                }
                assert forall|q: u32| children_pages(disk, cs, hc, n as int).contains(q) implies
                    #[trigger] tree_pages(disk, p, h as nat).contains(q) by {
                    let j = choose|j: int| 0 <= j < n && #[trigger] tree_pages(disk, cs[j], hc).contains(q);
                    assert(0 <= j < cs.len() && tree_pages(disk, cs[j], hc).contains(q));
                }
                assert(tree_pages(disk, p, h as nat) =~= set![p] + children_pages(disk, cs, hc, n as int));
                assert(marked(seen@) =~= marked(seen0) + tree_pages(disk, p, h as nat));
            }
            Some((lowest, previous_max))
        },
    }
}

/// Whether the pages hold a valid engine: a tagged metadata page that names the root of a
/// well-formed tree.
pub fn pages_consistent(pager: &Pager) -> (ok: bool)
    requires
        pager.wf(),
    ensures
        ok == crate::engine::btree_engine::valid_disk(pager@),
{
    let root = match crate::engine::meta::read_metadata(pager) {
        Ok(root) => root,
        Err(_) => return false,
    };
    let count = pager.page_count();
    let mut seen: Vec<bool> = Vec::new();
    let mut i: u32 = 0;
    while i < count
        invariant
            0 <= i <= count,
            count == pager@.len(),
            seen@.len() == i,
            forall|j: int| 0 <= j < i ==> !(#[trigger] seen@[j]),
        decreases count - i,
    {
        seen.push(false);
        i = i + 1;
    }
    assert(marked(seen@) =~= Set::<u32>::empty());
    let ghost disk = pager@;
    let ghost unmarked = seen@;
    let result = check_tree(pager, root, count, true, &mut seen);
    proof {
        let hs = count as nat;
        if result is Some {
            assert(crate::engine::btree_engine::valid_height(disk, hs));
        } else {
            if exists|h: nat| crate::engine::btree_engine::valid_height(disk, h) {
                let h = choose|h: nat| crate::engine::btree_engine::valid_height(disk, h);
                crate::engine::tree::lemma_height_free(disk, root, h, hs, true);
                assert(tree_pages(disk, root, hs).disjoint(marked(unmarked)));
            }
        }
    }
    result.is_some()
}

} // verus!
