//! Promoting a split root: the old root moves to a fresh page and the root page becomes
//! an internal node over it and a right sibling.
use vstd::prelude::*;

use crate::btree::internal::{
    initialize_internal_node, initialized_internal, internal_cell_in_page, internal_cell_offset,
    internal_cells_in_page, internal_node_child, internal_node_num_keys, internal_node_right_child,
    page_internal_child, page_internal_num_keys, page_internal_right_child, set_internal_node_child,
    set_internal_node_key, set_internal_node_num_keys, set_internal_node_right_child,
    valid_internal_child, INTERNAL_NODE_CHILD_SIZE, INTERNAL_NODE_NUM_KEYS_OFFSET,
    INTERNAL_NODE_RIGHT_CHILD_OFFSET,
};
use crate::btree::leaf::{page_leaf_key, page_leaf_num_cells};
use crate::btree::node::{
    get_node_max_key, lemma_subtree_pages_in_cache, get_node_type, in_subtree, lemma_in_subtree_child, lemma_not_own_child,
    lemma_rightmost_leaf, lemma_rightmost_leaf_height, lemma_same_shape_fields, lemma_shape_frame,
    page_node_type, rightmost_leaf, same_shape, set_node_parent, set_node_root, subtree_max_key,
    subtree_ok, tree_height, valid_tree, NodeType, IS_ROOT_OFFSET, PARENT_POINTER_OFFSET,
};
use crate::btree::tree::Table;
use crate::config::{INVALID_PAGE_NUM, PAGE_SIZE, TABLE_MAX_PAGES};
use crate::storage::codec::put_u32;
use crate::storage::pager::valid_memory;

verus! {

/// A page with its parent pointer set to `parent`.
pub open spec fn with_parent(page: Seq<u8>, parent: u32) -> Seq<u8> {
    put_u32(page, PARENT_POINTER_OFFSET as int, parent)
}

/// Whether `q` is one of the children of internal page `page`.
pub open spec fn is_child_of(page: Seq<u8>, q: u32) -> bool {
    exists|c: int| 0 <= c <= page_internal_num_keys(page) && #[trigger] page_internal_child(page, c) == q
}

/// The root page rewritten as an internal root with the one key `max_key` between
/// `left` and `right`.
pub open spec fn new_root_page(old_root: Seq<u8>, left: u32, right: u32, max_key: u32) -> Seq<u8> {
    put_u32(
        put_u32(
            put_u32(
                put_u32(
                    initialized_internal(old_root).update(IS_ROOT_OFFSET as int, 1u8),
                    INTERNAL_NODE_NUM_KEYS_OFFSET as int,
                    1,
                ),
                internal_cell_offset(0),
                left,
            ),
            internal_cell_offset(0) + INTERNAL_NODE_CHILD_SIZE,
            max_key,
        ),
        INTERNAL_NODE_RIGHT_CHILD_OFFSET as int,
        right,
    )
}

/// The pages once root `root` is promoted: the old root page, no longer marked as the
/// root, moves to `left`; its children (if it is internal) name `left` as their parent;
/// `right` (made an empty internal node when the old root is internal) and `left` name
/// the root as theirs; and the root page becomes the new root over the two.
pub open spec fn pages_after_new_root(mem: Seq<Seq<u8>>, root: u32, left: u32, right: u32, max_key: u32) -> Seq<Seq<u8>> {
    let old_root = mem[root as int];
    let internal = page_node_type(old_root) is Internal;
    Seq::new(
        mem.len(),
        |n: int|
            if n == root {
                new_root_page(old_root, left, right, max_key)
            } else if n == left {
                with_parent(old_root.update(IS_ROOT_OFFSET as int, 0u8), root)
            } else if n == right {
                with_parent(if internal { initialized_internal(mem[n]) } else { mem[n] }, root)
            } else if internal && is_child_of(old_root, n as u32) {
                with_parent(mem[n], left)
            } else {
                mem[n]
            },
    )
}

/// The pages after the children of `left` (read from `page`) name it as their parent.
pub open spec fn reparented(mem: Seq<Seq<u8>>, page: Seq<u8>, left: u32, upto: int) -> Seq<Seq<u8>> {
    Seq::new(
        mem.len(),
        |n: int|
            if exists|c: int| 0 <= c < upto && #[trigger] page_internal_child(page, c) == n as u32 {
                with_parent(mem[n], left)
            } else {
                mem[n]
            },
    )
}

/// The page count after a page is fetched into the cache.
pub open spec fn count_after_fetch(count: u32, page_num: u32) -> u32 {
    if count > page_num {
        count
    } else {
        (page_num + 1) as u32
    }
}

/// Setting the parent pointer keeps a page's shape, and setting it twice is setting it
/// once.
pub proof fn lemma_with_parent(page: Seq<u8>, parent: u32)
    requires
        page.len() == PAGE_SIZE,
    ensures
        same_shape(page, with_parent(page, parent)),
        same_shape(page, page.update(IS_ROOT_OFFSET as int, 0u8)),
        with_parent(with_parent(page, parent), parent) == with_parent(page, parent),
        with_parent(page, parent).len() == PAGE_SIZE,
{
    assert(with_parent(with_parent(page, parent), parent) =~= with_parent(page, parent));
}

/// The rightmost leaf of a valid subtree is one of its pages.
pub proof fn lemma_rightmost_in_subtree(mem: Seq<Seq<u8>>, p: u32, h: nat)
    requires
        subtree_ok(mem, p, h),
    ensures
        in_subtree(mem, p, h, rightmost_leaf(mem, p, h)),
    decreases h,
{
    if h > 0 && page_node_type(mem[p as int]) is Internal {
        let page = mem[p as int];
        let k = page_internal_num_keys(page) as int;
        lemma_rightmost_in_subtree(mem, page_internal_child(page, k), (h - 1) as nat);
        lemma_in_subtree_child(mem, p, h, k, rightmost_leaf(mem, p, h));
    }
}

/// A page `left` with the shape of a valid subtree's root, over pages that keep their
/// shape, heads a valid subtree with a rightmost leaf of the same shape.
pub proof fn lemma_shape_copy(mem: Seq<Seq<u8>>, mid: Seq<Seq<u8>>, p: u32, left: u32, h: nat)
    requires
        subtree_ok(mem, p, h),
        valid_memory(mem),
        mid.len() == mem.len(),
        left < TABLE_MAX_PAGES,
        same_shape(mem[p as int], mid[left as int]),
        forall|q: u32| #[trigger] in_subtree(mem, p, h, q) && q != left ==> same_shape(mem[q as int], mid[q as int]),
        !in_subtree(mem, p, h, left),
    ensures
        subtree_ok(mid, left, h),
        same_shape(mem[rightmost_leaf(mem, p, h) as int], mid[rightmost_leaf(mid, left, h) as int]),
{
    lemma_rightmost_leaf(mem, p, h);
    let page = mem[p as int];
    lemma_same_shape_fields(page, mid[left as int]);
    assert forall|q: u32| #[trigger] in_subtree(mem, p, h, q) implies same_shape(mem[q as int], mid[q as int]) by {}
    if page_node_type(page) is Internal {
        assert forall|c: int| 0 <= c <= page_internal_num_keys(mid[left as int]) implies {
            &&& #[trigger] page_internal_child(mid[left as int], c) != INVALID_PAGE_NUM
            &&& subtree_ok(mid, page_internal_child(mid[left as int], c), (h - 1) as nat)
        } by {
            if c < page_internal_num_keys(page) {
                assert(internal_cell_in_page(c)) by {
                    assert(internal_cells_in_page(page));
                }
            }
            let child = page_internal_child(page, c);
            assert(page_internal_child(mid[left as int], c) == child);
            assert forall|q: u32| #[trigger] in_subtree(mem, child, (h - 1) as nat, q) implies same_shape(mem[q as int], mid[q as int]) by {
                lemma_in_subtree_child(mem, p, h, c, q);
            }
            lemma_shape_frame(mem, mid, child, (h - 1) as nat);
        }
        let k = page_internal_num_keys(page) as int;
        let rc = page_internal_child(page, k);
        assert(page_internal_child(mid[left as int], page_internal_num_keys(mid[left as int]) as int) == rc);
        assert forall|q: u32| #[trigger] in_subtree(mem, rc, (h - 1) as nat, q) implies same_shape(mem[q as int], mid[q as int]) by {
            lemma_in_subtree_child(mem, p, h, k, q);
        }
        lemma_shape_frame(mem, mid, rc, (h - 1) as nat);
        lemma_rightmost_in_subtree(mem, p, h);
        assert(rightmost_leaf(mid, left, h) == rightmost_leaf(mem, p, h));
        assert(same_shape(mem[rightmost_leaf(mem, p, h) as int], mid[rightmost_leaf(mem, p, h) as int]));
    }
}

/// The pages after the old root is copied to `left` and the split children are set up.
pub open spec fn copied_root(mem: Seq<Seq<u8>>, root: u32, left: u32, right: u32) -> Seq<Seq<u8>> {
    let mem1 = if page_node_type(mem[root as int]) is Internal {
        let m = mem.update(right as int, initialized_internal(mem[right as int]));
        m.update(left as int, initialized_internal(m[left as int]))
    } else {
        mem
    };
    mem1.update(left as int, mem[root as int].update(IS_ROOT_OFFSET as int, 0u8))
}

/// After the copy, the left page has the old root's shape and children, none of which is
/// the left page itself, and the old tree's pages are as they were.
proof fn lemma_before_reparent(mem: Seq<Seq<u8>>, mem3: Seq<Seq<u8>>, root: u32, h: nat, left: u32, right: u32)
    requires
        subtree_ok(mem, root, h),
        valid_memory(mem),
        left < TABLE_MAX_PAGES,
        right < TABLE_MAX_PAGES,
        !in_subtree(mem, root, h, left),
        !in_subtree(mem, root, h, right),
        mem3 == copied_root(mem, root, left, right),
    ensures
        valid_memory(mem3),
        same_shape(mem[root as int], mem3[left as int]),
        forall|q: u32| #[trigger] in_subtree(mem, root, h, q) ==> mem3[q as int] == mem[q as int],
        page_node_type(mem[root as int]) is Internal ==> {
            let page = mem3[left as int];
            &&& internal_cells_in_page(page)
            &&& forall|c: int| 0 <= c <= page_internal_num_keys(page) ==> {
                &&& #[trigger] page_internal_child(page, c) != INVALID_PAGE_NUM
                &&& page_internal_child(page, c) < TABLE_MAX_PAGES
                &&& page_internal_child(page, c) != left
                &&& page_internal_child(page, c) == page_internal_child(mem[root as int], c)
            }
        },
{
    let page = mem[root as int];
    assert(in_subtree(mem, root, h, root));
    lemma_subtree_pages_in_cache(mem, root, h);
    lemma_with_parent(page, 0);
    lemma_same_shape_fields(page, mem3[left as int]);
    assert forall|q: u32| #[trigger] in_subtree(mem, root, h, q) implies mem3[q as int] == mem[q as int] by {}
    if page_node_type(page) is Internal {
        assert forall|c: int| 0 <= c <= page_internal_num_keys(mem3[left as int]) implies {
            &&& #[trigger] page_internal_child(mem3[left as int], c) != INVALID_PAGE_NUM
            &&& page_internal_child(mem3[left as int], c) < TABLE_MAX_PAGES
            &&& page_internal_child(mem3[left as int], c) != left
            &&& page_internal_child(mem3[left as int], c) == page_internal_child(page, c)
        } by {
            if c < page_internal_num_keys(page) {
                assert(internal_cell_in_page(c)) by {
                    assert(internal_cells_in_page(page));
                }
            }
            let child = page_internal_child(page, c);
            assert(subtree_ok(mem, child, (h - 1) as nat));
            assert(in_subtree(mem, child, (h - 1) as nat, child));
            lemma_in_subtree_child(mem, root, h, c, child);
        }
    }
}

/// After the children name the left page as their parent, the left page heads a valid
/// tree with the old root's rightmost leaf, so its greatest key is the old tree's.
proof fn lemma_before_max_key(mem: Seq<Seq<u8>>, mem3: Seq<Seq<u8>>, mem4: Seq<Seq<u8>>, root: u32, h: nat, left: u32, right: u32)
    requires
        subtree_ok(mem, root, h),
        valid_memory(mem),
        left < TABLE_MAX_PAGES,
        right < TABLE_MAX_PAGES,
        !in_subtree(mem, root, h, left),
        !in_subtree(mem, root, h, right),
        mem3 == copied_root(mem, root, left, right),
        page_leaf_num_cells(mem[rightmost_leaf(mem, root, h) as int]) > 0,
        mem4 == if page_node_type(mem[root as int]) is Internal {
            Seq::new(
                mem3.len(),
                |n: int| if is_child_of(mem3[left as int], n as u32) { with_parent(mem3[n], left) } else { mem3[n] },
            )
        } else {
            mem3
        },
    ensures
        valid_tree(mem4, left),
        page_leaf_num_cells(mem4[rightmost_leaf(mem4, left, tree_height(mem4, left)) as int]) > 0,
        subtree_max_key(mem4, left) == subtree_max_key(mem, root),
{
    lemma_before_reparent(mem, mem3, root, h, left, right);
    lemma_subtree_pages_in_cache(mem, root, h);
    let page = mem[root as int];
    assert(mem4[left as int] == mem3[left as int]) by {
        if page_node_type(page) is Internal && is_child_of(mem3[left as int], left) {
            let c = choose|c: int| 0 <= c <= page_internal_num_keys(mem3[left as int]) && #[trigger] page_internal_child(mem3[left as int], c) == left;
        }
    }
    assert forall|q: u32| #[trigger] in_subtree(mem, root, h, q) && q != left implies same_shape(mem[q as int], mem4[q as int]) by {
        assert(mem3[q as int] == mem[q as int]);
        lemma_with_parent(mem[q as int], left);
    }
    lemma_shape_copy(mem, mem4, root, left, h);
    let h4 = tree_height(mem4, left);
    assert(subtree_ok(mem4, left, h4));
    lemma_rightmost_leaf_height(mem4, left, h, h4);
    lemma_rightmost_leaf(mem, root, h);
    let rl = rightmost_leaf(mem, root, h);
    lemma_same_shape_fields(mem[rl as int], mem4[rightmost_leaf(mem4, left, h) as int]);
    assert(valid_tree(mem, root));
    lemma_rightmost_leaf_height(mem, root, h, tree_height(mem, root));
    assert(subtree_max_key(mem, root) == page_leaf_key(mem[rl as int], page_leaf_num_cells(mem[rl as int]) - 1));
    assert(crate::btree::leaf::leaf_key_in_page(page_leaf_num_cells(mem[rl as int]) - 1));
}

/// The pages after `write_new_root` are those `pages_after_new_root` describes.
proof fn lemma_new_root_pages(
    mem: Seq<Seq<u8>>,
    mem3: Seq<Seq<u8>>,
    mem4: Seq<Seq<u8>>,
    mem5: Seq<Seq<u8>>,
    root: u32,
    h: nat,
    left: u32,
    right: u32,
    max_key: u32,
)
    requires
        subtree_ok(mem, root, h),
        valid_memory(mem),
        left < TABLE_MAX_PAGES,
        right < TABLE_MAX_PAGES,
        !in_subtree(mem, root, h, left),
        !in_subtree(mem, root, h, right),
        mem3 == copied_root(mem, root, left, right),
        mem4 == if page_node_type(mem[root as int]) is Internal {
            Seq::new(
                mem3.len(),
                |n: int| if is_child_of(mem3[left as int], n as u32) { with_parent(mem3[n], left) } else { mem3[n] },
            )
        } else {
            mem3
        },
        mem5 == {
            let mem1 = mem4.update(root as int, new_root_page(mem4[root as int], left, right, max_key));
            let mem2 = mem1.update(left as int, with_parent(mem1[left as int], root));
            mem2.update(right as int, with_parent(mem2[right as int], root))
        },
    ensures
        mem5 == pages_after_new_root(mem, root, left, right, max_key),
{
    lemma_before_reparent(mem, mem3, root, h, left, right);
    let page = mem[root as int];
    let internal = page_node_type(page) is Internal;
    assert(in_subtree(mem, root, h, root));
    // The children of the copy are the old root's.
    assert forall|n: u32| internal implies (#[trigger] is_child_of(mem3[left as int], n) <==> is_child_of(page, n)) by {
        if is_child_of(mem3[left as int], n) {
            let c = choose|c: int| 0 <= c <= page_internal_num_keys(mem3[left as int]) && #[trigger] page_internal_child(mem3[left as int], c) == n;
            assert(page_internal_child(page, c) == n);
        }
        if is_child_of(page, n) {
            let c = choose|c: int| 0 <= c <= page_internal_num_keys(page) && #[trigger] page_internal_child(page, c) == n;
            assert(page_internal_child(mem3[left as int], c) == n);
        }
    }
    if internal {
        // Neither the root, the left page nor the right child is a child of the old root.
        assert(!is_child_of(page, root)) by {
            if is_child_of(page, root) {
                let c = choose|c: int| 0 <= c <= page_internal_num_keys(page) && #[trigger] page_internal_child(page, c) == root;
                lemma_not_own_child(mem, root, h, c);
            }
        }
        assert(!is_child_of(page, left) && !is_child_of(page, right)) by {
            if is_child_of(page, left) || is_child_of(page, right) {
                let q = if is_child_of(page, left) { left } else { right };
                let c = choose|c: int| 0 <= c <= page_internal_num_keys(page) && #[trigger] page_internal_child(page, c) == q;
                assert(subtree_ok(mem, q, (h - 1) as nat));
                assert(in_subtree(mem, q, (h - 1) as nat, q));
                lemma_in_subtree_child(mem, root, h, c, q);
            }
        }
    }
    let expected = pages_after_new_root(mem, root, left, right, max_key);
    assert forall|n: int| 0 <= n < mem.len() implies #[trigger] mem5[n] == expected[n] by {}
    assert(mem5 =~= expected);
}

impl Table {
    /// Initializes child pages when an internal root is being split.
    fn initialize_split_children(&mut self, left: u32, right: u32, is_internal: bool)
        requires
            old(self).pager.wf(),
            left < TABLE_MAX_PAGES,
            right < TABLE_MAX_PAGES,
        ensures
            final(self).pager.wf(),
            final(self).root_page_num == old(self).root_page_num,
            final(self).pager.file_image() == old(self).pager.file_image(),
            final(self).pager@ == if is_internal {
                let mem1 = old(self).pager@.update(right as int, initialized_internal(old(self).pager@[right as int]));
                mem1.update(left as int, initialized_internal(mem1[left as int]))
            } else {
                old(self).pager@
            },
            final(self).pager.page_count() == if is_internal {
                count_after_fetch(count_after_fetch(old(self).pager.page_count(), right), left)
            } else {
                old(self).pager.page_count()
            },
    {
        if is_internal {
            initialize_internal_node(self.pager.get_page(right));
            initialize_internal_node(self.pager.get_page(left));
        }
    }

    /// Updates copied grandchildren to point at their new left parent.
    fn reparent_left_children(&mut self, left: u32, is_internal: bool)
        requires
            old(self).pager.wf(),
            left < TABLE_MAX_PAGES,
            is_internal ==> {
                let page = old(self).pager@[left as int];
                &&& internal_cells_in_page(page)
                &&& forall|c: int| 0 <= c <= page_internal_num_keys(page) ==> {
                    &&& #[trigger] page_internal_child(page, c) != INVALID_PAGE_NUM
                    &&& page_internal_child(page, c) < TABLE_MAX_PAGES
                    &&& page_internal_child(page, c) != left
                }
            },
        ensures
            final(self).pager.wf(),
            final(self).root_page_num == old(self).root_page_num,
            final(self).pager.file_image() == old(self).pager.file_image(),
            final(self).pager@ == if is_internal {
                Seq::new(
                    old(self).pager@.len(),
                    |n: int|
                        if is_child_of(old(self).pager@[left as int], n as u32) {
                            with_parent(old(self).pager@[n], left)
                        } else {
                            old(self).pager@[n]
                        },
                )
            } else {
                old(self).pager@
            },
            old(self).pager.page_count() <= final(self).pager.page_count(),
            final(self).pager.page_count() == old(self).pager.page_count() || final(self).pager.page_count()
                <= TABLE_MAX_PAGES,
    {
        if !is_internal {
            return;
        }
        let ghost mem = self.pager@;
        let ghost page = mem[left as int];
        proof {
            self.pager.lemma_view_valid();
        }
        let key_count = internal_node_num_keys(self.pager.get_page(left));
        let mut index: u32 = 0;
        while index < key_count
            invariant
                self.pager.wf(),
                self.root_page_num == old(self).root_page_num,
                self.pager.file_image() == old(self).pager.file_image(),
                old(self).pager.page_count() <= self.pager.page_count(),
                self.pager.page_count() == old(self).pager.page_count() || self.pager.page_count() <= TABLE_MAX_PAGES,
                mem == old(self).pager@,
                valid_memory(mem),
                page == mem[left as int],
                left < TABLE_MAX_PAGES,
                internal_cells_in_page(page),
                forall|c: int| 0 <= c <= page_internal_num_keys(page) ==> {
                    &&& #[trigger] page_internal_child(page, c) != INVALID_PAGE_NUM
                    &&& page_internal_child(page, c) < TABLE_MAX_PAGES
                    &&& page_internal_child(page, c) != left
                },
                key_count == page_internal_num_keys(page),
                index <= key_count,
                self.pager@ == reparented(mem, page, left, index as int),
            decreases key_count - index,
        {
            assert(self.pager@[left as int] == page);
            assert(internal_cell_in_page(index as int));
            let child = internal_node_child(self.pager.get_page(left), index);
            let ghost before = self.pager@;
            set_node_parent(self.pager.get_page(child), left);
            proof {
                lemma_with_parent(mem[child as int], left);
                assert(self.pager@ =~= reparented(mem, page, left, index + 1)) by {
                    assert forall|n: int| 0 <= n < mem.len() implies #[trigger] self.pager@[n] == reparented(mem, page, left, index + 1)[n] by {
                        if n == child {
                            assert(page_internal_child(page, index as int) == n as u32);
                        } else if exists|c: int| 0 <= c < index + 1 && #[trigger] page_internal_child(page, c) == n as u32 {
                            let c = choose|c: int| 0 <= c < index + 1 && #[trigger] page_internal_child(page, c) == n as u32;
                            assert(c < index);
                        }
                    }
                }
            }
            index = index + 1;
        }
        assert(self.pager@[left as int] == page);
        let right_child = internal_node_right_child(self.pager.get_page(left));
        assert(page_internal_child(page, key_count as int) == right_child);
        set_node_parent(self.pager.get_page(right_child), left);
        proof {
            lemma_with_parent(mem[right_child as int], left);
            let expected = Seq::new(
                mem.len(),
                |n: int| if is_child_of(page, n as u32) { with_parent(mem[n], left) } else { mem[n] },
            );
            assert forall|n: int| 0 <= n < mem.len() implies #[trigger] self.pager@[n] == expected[n] by {
                if n == right_child {
                    assert(is_child_of(page, n as u32));
                } else if is_child_of(page, n as u32) {
                    let c = choose|c: int| 0 <= c <= page_internal_num_keys(page) && #[trigger] page_internal_child(page, c) == n as u32;
                    assert(c < key_count);
                } else {
                    if exists|c: int| 0 <= c < key_count && #[trigger] page_internal_child(page, c) == n as u32 {
                        let c = choose|c: int| 0 <= c < key_count && #[trigger] page_internal_child(page, c) == n as u32;
                        assert(is_child_of(page, n as u32));
                    }
                }
            }
            assert(self.pager@ =~= expected);
        }
    }

    /// Writes the new root header, separator key, and child pointers.
    fn write_new_root(&mut self, left: u32, right: u32, left_max_key: u32)
        requires
            old(self).pager.wf(),
            old(self).root_page_num < TABLE_MAX_PAGES,
            left < TABLE_MAX_PAGES,
            right < TABLE_MAX_PAGES,
        ensures
            final(self).pager.wf(),
            final(self).root_page_num == old(self).root_page_num,
            final(self).pager.file_image() == old(self).pager.file_image(),
            final(self).pager@ == {
                let root = old(self).root_page_num as int;
                let mem1 = old(self).pager@.update(root, new_root_page(old(self).pager@[root], left, right, left_max_key));
                let mem2 = mem1.update(left as int, with_parent(mem1[left as int], root as u32));
                mem2.update(right as int, with_parent(mem2[right as int], root as u32))
            },
            final(self).pager.page_count() == count_after_fetch(
                count_after_fetch(count_after_fetch(old(self).pager.page_count(), old(self).root_page_num), left),
                right,
            ),
    {
        let root = self.pager.get_page(self.root_page_num);
        initialize_internal_node(root);
        set_node_root(root, true);
        set_internal_node_num_keys(root, 1);
        set_internal_node_child(root, 0, left);
        set_internal_node_key(root, 0, left_max_key);
        set_internal_node_right_child(root, right);
        set_node_parent(self.pager.get_page(left), self.root_page_num);
        set_node_parent(self.pager.get_page(right), self.root_page_num);
    }

    /// Promotes a split root into an internal root with two children: the old root moves
    /// to the next unused page, which becomes the left child, and `right_child_page_num`
    /// becomes the right child.
    ///
    /// The root must head a valid tree whose rightmost leaf holds a key, and neither the
    /// new left page nor the right child may already belong to that tree.
    pub fn create_new_root(&mut self, right_child_page_num: u32)
        requires
            old(self).table_ok(),
            old(self).pager.page_count() < TABLE_MAX_PAGES,
            right_child_page_num < TABLE_MAX_PAGES,
            right_child_page_num != old(self).root_page_num,
            right_child_page_num != old(self).pager.page_count(),
            !in_subtree(
                old(self).pager@,
                old(self).root_page_num,
                tree_height(old(self).pager@, old(self).root_page_num),
                right_child_page_num,
            ),
            !in_subtree(
                old(self).pager@,
                old(self).root_page_num,
                tree_height(old(self).pager@, old(self).root_page_num),
                old(self).pager.page_count(),
            ),
            page_leaf_num_cells(
                old(self).pager@[rightmost_leaf(
                    old(self).pager@,
                    old(self).root_page_num,
                    tree_height(old(self).pager@, old(self).root_page_num),
                ) as int],
            ) > 0,
        ensures
            final(self).pager.wf(),
            final(self).root_page_num == old(self).root_page_num,
            final(self).pager.file_image() == old(self).pager.file_image(),
            final(self).pager@ == pages_after_new_root(
                old(self).pager@,
                old(self).root_page_num,
                old(self).pager.page_count(),
                right_child_page_num,
                subtree_max_key(old(self).pager@, old(self).root_page_num),
            ),
            old(self).pager.page_count() < final(self).pager.page_count() <= TABLE_MAX_PAGES,
    {
        let ghost mem = self.pager@;
        let ghost root_num = self.root_page_num;
        let ghost h = tree_height(mem, root_num);
        proof {
            self.pager.lemma_view_valid();
            assert(subtree_ok(mem, root_num, h));
            lemma_rightmost_leaf(mem, root_num, h);
        }
        let left_child_page_num = self.get_unused_page_num();

        // 1. Copy old root page into left child page
        let old_root_data = *self.pager.get_page(self.root_page_num);
        assert(self.pager@ =~= mem);
        let root_is_internal = get_node_type(&old_root_data) == NodeType::Internal;

        self.initialize_split_children(left_child_page_num, right_child_page_num, root_is_internal);
        let ghost mem1 = self.pager@;

        *self.pager.get_page(left_child_page_num) = old_root_data;
        let ghost mem2 = self.pager@;
        assert(mem2 == mem1.update(left_child_page_num as int, mem[root_num as int]));
        set_node_root(self.pager.get_page(left_child_page_num), false);
        let ghost mem3 = self.pager@;
        proof {
            assert(mem3 =~= copied_root(mem, root_num, left_child_page_num, right_child_page_num));
            lemma_before_reparent(mem, mem3, root_num, h, left_child_page_num, right_child_page_num);
        }

        self.reparent_left_children(left_child_page_num, root_is_internal);
        let ghost mem4 = self.pager@;
        proof {
            lemma_before_max_key(mem, mem3, mem4, root_num, h, left_child_page_num, right_child_page_num);
        }

        let left_child_max_key = get_node_max_key(&mut self.pager, left_child_page_num);
        self.write_new_root(left_child_page_num, right_child_page_num, left_child_max_key);
        proof {
            lemma_new_root_pages(mem, mem3, mem4, self.pager@, root_num, h, left_child_page_num, right_child_page_num, left_child_max_key);
        }
    }
}

} // verus!
