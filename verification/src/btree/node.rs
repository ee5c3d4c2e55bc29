//! Shared B-tree node header fields and helpers.
use vstd::prelude::*;

use crate::btree::internal::{
    internal_cell_in_page, internal_cells_in_page, internal_node_num_keys,
    internal_node_right_child, page_internal_child, page_internal_num_keys, page_internal_right_child,
    search_child,
};
use crate::btree::leaf::{
    leaf_key_in_page, leaf_keys_in_page, leaf_node_key, leaf_node_num_cells, page_leaf_key,
    page_leaf_num_cells,
};
use crate::storage::pager::{valid_memory, Pager};
use crate::config::{INVALID_PAGE_NUM, PAGE_SIZE, TABLE_MAX_PAGES};
use crate::storage::codec::{le_u32_at, put_u32, read_u32_le, write_u32_le};
use crate::storage::page::Page;

verus! {

pub const NODE_TYPE_SIZE: usize = 1;
pub const NODE_TYPE_OFFSET: usize = 0;
pub const IS_ROOT_SIZE: usize = 1;
pub const IS_ROOT_OFFSET: usize = NODE_TYPE_SIZE;
pub const PARENT_POINTER_SIZE: usize = 4;
pub const PARENT_POINTER_OFFSET: usize = IS_ROOT_OFFSET + IS_ROOT_SIZE;
pub const COMMON_NODE_HEADER_SIZE: usize = NODE_TYPE_SIZE + IS_ROOT_SIZE + PARENT_POINTER_SIZE;

/// Identifies whether a page is a leaf or internal node.
#[derive(Debug, Clone, Copy, PartialEq, Eq, Structural)]
pub enum NodeType {
    Internal,
    Leaf,
}

/// The byte that stands for a node kind in the page header.
pub open spec fn node_type_byte(node_type: NodeType) -> u8 {
    match node_type {
        NodeType::Internal => 0u8,
        NodeType::Leaf => 1u8,
    }
}

/// The node kind that a (valid) header byte stands for.
pub open spec fn node_type_of_byte(byte: u8) -> NodeType {
    if byte == 0 {
        NodeType::Internal
    } else {
        NodeType::Leaf
    }
}

/// A page header byte names a node kind only when it is 0 or 1.
pub open spec fn valid_node_type_byte(byte: u8) -> bool {
    byte <= 1
}

/// The node kind recorded in a page.
pub open spec fn page_node_type(page: Seq<u8>) -> NodeType {
    node_type_of_byte(page[NODE_TYPE_OFFSET as int])
}

/// Whether the page's root flag is set.
pub open spec fn page_is_root(page: Seq<u8>) -> bool {
    page[IS_ROOT_OFFSET as int] != 0
}

/// The parent page number recorded in a page.
pub open spec fn page_parent(page: Seq<u8>) -> u32 {
    le_u32_at(page, PARENT_POINTER_OFFSET as int)
}

impl NodeType {
    /// Decodes a node kind from its header byte (0 is internal, 1 is leaf).
    pub fn from(val: u8) -> (node_type: NodeType)
        requires
            valid_node_type_byte(val),
        ensures
            node_type == node_type_of_byte(val),
            node_type_byte(node_type) == val,
    {
        if val == 0 {
            NodeType::Internal
        } else {
            NodeType::Leaf
        }
    }
}

/// Reads the node kind byte from a page.
pub fn get_node_type(page: &Page) -> (node_type: NodeType)
    requires
        valid_node_type_byte(page@[NODE_TYPE_OFFSET as int]),
    ensures
        node_type == page_node_type(page@),
{
    NodeType::from(page[NODE_TYPE_OFFSET])
}

/// Writes the node kind byte to a page.
pub fn set_node_type(page: &mut Page, node_type: NodeType)
    ensures
        final(page)@ == old(page)@.update(NODE_TYPE_OFFSET as int, node_type_byte(node_type)),
{
    let byte: u8 = match node_type {
        NodeType::Internal => 0,
        NodeType::Leaf => 1,
    };
    page[NODE_TYPE_OFFSET] = byte;
}

/// Returns whether this node is the tree root.
pub fn is_node_root(page: &Page) -> (is_root: bool)
    ensures
        is_root == page_is_root(page@),
{
    page[IS_ROOT_OFFSET] != 0
}

/// Sets or clears the root flag.
pub fn set_node_root(page: &mut Page, is_root: bool)
    ensures
        final(page)@ == old(page)@.update(IS_ROOT_OFFSET as int, if is_root { 1u8 } else { 0u8 }),
{
    page[IS_ROOT_OFFSET] = if is_root { 1 } else { 0 };
}

/// Reads the parent page number.
pub fn get_node_parent(page: &Page) -> (parent: u32)
    ensures
        parent == page_parent(page@),
{
    read_u32_le(page, PARENT_POINTER_OFFSET)
}

/// Writes the parent page number.
pub fn set_node_parent(page: &mut Page, parent: u32)
    ensures
        final(page)@ == put_u32(old(page)@, PARENT_POINTER_OFFSET as int, parent),
{
    write_u32_le(page, PARENT_POINTER_OFFSET, parent);
}

/// The subtree at page `p` is a tree of height at most `h` that lookups can walk without
/// failing: every page lies in the cache range and has a valid kind; every leaf's key
/// cells lie inside its page; every internal node's cells lie inside its page and each of
/// its children is a real page heading such a subtree of height at most `h - 1`.
pub open spec fn subtree_ok(mem: Seq<Seq<u8>>, p: u32, h: nat) -> bool
    decreases h,
{
    &&& p < TABLE_MAX_PAGES
    &&& valid_node_type_byte(mem[p as int][NODE_TYPE_OFFSET as int])
    &&& match page_node_type(mem[p as int]) {
        NodeType::Leaf => leaf_keys_in_page(mem[p as int]),
        NodeType::Internal => {
            &&& h > 0
            &&& internal_cells_in_page(mem[p as int])
            &&& forall|c: int|
                0 <= c <= page_internal_num_keys(mem[p as int]) ==> {
                    &&& #[trigger] page_internal_child(mem[p as int], c) != INVALID_PAGE_NUM
                    &&& subtree_ok(mem, page_internal_child(mem[p as int], c), (h - 1) as nat)
                }
        },
    }
}

/// Whether the subtree at `p` is such a tree for some height.
pub open spec fn valid_tree(mem: Seq<Seq<u8>>, p: u32) -> bool {
    exists|h: nat| subtree_ok(mem, p, h)
}

/// A height for which the subtree at `p` is such a tree.
pub open spec fn tree_height(mem: Seq<Seq<u8>>, p: u32) -> nat {
    choose|h: nat| subtree_ok(mem, p, h)
}

/// The leaf that a lookup of `key` reaches from page `p`, descending at most `h` levels
/// through the children that binary search picks.
pub open spec fn leaf_for_key(mem: Seq<Seq<u8>>, p: u32, key: u32, h: nat) -> u32
    decreases h,
{
    if h == 0 || page_node_type(mem[p as int]) is Leaf {
        p
    } else {
        let page = mem[p as int];
        leaf_for_key(
            mem,
            page_internal_child(page, search_child(page, key, 0, page_internal_num_keys(page) as int)),
            key,
            (h - 1) as nat,
        )
    }
}

/// The leaf that a lookup of `key` reaches from page `p`.
pub open spec fn find_leaf(mem: Seq<Seq<u8>>, p: u32, key: u32) -> u32 {
    leaf_for_key(mem, p, key, tree_height(mem, p))
}

/// The leaf reached from page `p` by always taking the rightmost child.
pub open spec fn rightmost_leaf(mem: Seq<Seq<u8>>, p: u32, h: nat) -> u32
    decreases h,
{
    if h == 0 || page_node_type(mem[p as int]) is Leaf {
        p
    } else {
        let page = mem[p as int];
        rightmost_leaf(mem, page_internal_child(page, page_internal_num_keys(page) as int), (h - 1) as nat)
    }
}

/// The last key of the rightmost leaf below page `p`: the subtree's greatest key when its
/// keys are ordered.
pub open spec fn subtree_max_key(mem: Seq<Seq<u8>>, p: u32) -> u32 {
    let leaf = mem[rightmost_leaf(mem, p, tree_height(mem, p)) as int];
    page_leaf_key(leaf, page_leaf_num_cells(leaf) - 1)
}

/// Replacing one leaf page with another page of the same kind whose key cells lie inside
/// it keeps every valid subtree valid at the same height.
pub proof fn lemma_subtree_leaf_update(mem: Seq<Seq<u8>>, p: u32, h: nat, leaf: u32, new_page: Seq<u8>)
    requires
        subtree_ok(mem, p, h),
        leaf < TABLE_MAX_PAGES,
        mem.len() == TABLE_MAX_PAGES,
        page_node_type(mem[leaf as int]) is Leaf,
        new_page[NODE_TYPE_OFFSET as int] == mem[leaf as int][NODE_TYPE_OFFSET as int],
        leaf_keys_in_page(new_page),
    ensures
        subtree_ok(mem.update(leaf as int, new_page), p, h),
    decreases h,
{
    let mem2 = mem.update(leaf as int, new_page);
    if p != leaf && page_node_type(mem[p as int]) is Internal {
        let page = mem[p as int];
        assert(mem2[p as int] == page);
        assert forall|c: int| 0 <= c <= page_internal_num_keys(mem2[p as int]) implies {
            &&& #[trigger] page_internal_child(mem2[p as int], c) != INVALID_PAGE_NUM
            &&& subtree_ok(mem2, page_internal_child(mem2[p as int], c), (h - 1) as nat)
        } by {
            lemma_subtree_leaf_update(mem, page_internal_child(page, c), (h - 1) as nat, leaf, new_page);
        }
    }
}

/// Replacing one leaf page with another page of the same kind leaves every lookup path
/// as it was: the internal nodes that route a key are untouched.
pub proof fn lemma_leaf_for_key_leaf_update(mem: Seq<Seq<u8>>, p: u32, key: u32, h: nat, leaf: u32, new_page: Seq<u8>)
    requires
        subtree_ok(mem, p, h),
        mem.len() == TABLE_MAX_PAGES,
        leaf < TABLE_MAX_PAGES,
        page_node_type(mem[leaf as int]) is Leaf,
        new_page[NODE_TYPE_OFFSET as int] == mem[leaf as int][NODE_TYPE_OFFSET as int],
    ensures
        leaf_for_key(mem.update(leaf as int, new_page), p, key, h) == leaf_for_key(mem, p, key, h),
    decreases h,
{
    let mem2 = mem.update(leaf as int, new_page);
    if p == leaf {
        assert(page_node_type(mem2[p as int]) is Leaf);
    } else {
        assert(mem2[p as int] == mem[p as int]);
        if h > 0 && page_node_type(mem[p as int]) is Internal {
            let page = mem[p as int];
            let i = search_child(page, key, 0, page_internal_num_keys(page) as int);
            crate::btree::internal::lemma_search_child_range(page, key, 0, page_internal_num_keys(page) as int);
            let c = page_internal_child(page, i);
            lemma_leaf_for_key_leaf_update(mem, c, key, (h - 1) as nat, leaf, new_page);
        }
    }
}

/// The leaf a lookup reaches does not depend on which valid height bound is used.
pub proof fn lemma_leaf_for_key_height(mem: Seq<Seq<u8>>, p: u32, key: u32, h1: nat, h2: nat)
    requires
        subtree_ok(mem, p, h1),
        subtree_ok(mem, p, h2),
    ensures
        leaf_for_key(mem, p, key, h1) == leaf_for_key(mem, p, key, h2),
    decreases h1,
{
    if page_node_type(mem[p as int]) is Internal {
        let page = mem[p as int];
        let c = search_child(page, key, 0, page_internal_num_keys(page) as int);
        crate::btree::internal::lemma_search_child_range(page, key, 0, page_internal_num_keys(page) as int);
        lemma_leaf_for_key_height(mem, page_internal_child(page, c), key, (h1 - 1) as nat, (h2 - 1) as nat);
    }
}

/// Taking the rightmost child from a valid subtree ends at a leaf inside the cache range
/// whose key cells lie inside the page.
pub proof fn lemma_rightmost_leaf(mem: Seq<Seq<u8>>, p: u32, h: nat)
    requires
        subtree_ok(mem, p, h),
    ensures
        rightmost_leaf(mem, p, h) < TABLE_MAX_PAGES,
        page_node_type(mem[rightmost_leaf(mem, p, h) as int]) is Leaf,
        leaf_keys_in_page(mem[rightmost_leaf(mem, p, h) as int]),
    decreases h,
{
    if h > 0 && page_node_type(mem[p as int]) is Internal {
        let page = mem[p as int];
        assert(page_internal_child(page, page_internal_num_keys(page) as int) != INVALID_PAGE_NUM);
        lemma_rightmost_leaf(mem, page_internal_child(page, page_internal_num_keys(page) as int), (h - 1) as nat);
    }
}

/// Whether two pages agree everywhere but in the root flag and the parent pointer: the
/// same node kind, counts, links and keys.
pub open spec fn same_shape(a: Seq<u8>, b: Seq<u8>) -> bool {
    &&& a.len() == b.len()
    &&& forall|i: int|
        0 <= i < a.len() && i != IS_ROOT_OFFSET && !(PARENT_POINTER_OFFSET <= i < PARENT_POINTER_OFFSET + 4)
            ==> #[trigger] a[i] == b[i]
}

/// The pages of the subtree at page `p`, descending at most `h` levels.
pub open spec fn subtree_pages(mem: Seq<Seq<u8>>, p: u32, h: nat) -> Set<u32>
    decreases h,
{
    if h > 0 && page_node_type(mem[p as int]) is Internal {
        Set::new(
            |q: u32|
                q == p || exists|c: int|
                    0 <= c <= page_internal_num_keys(mem[p as int]) && subtree_pages(
                        mem,
                        page_internal_child(mem[p as int], c),
                        (h - 1) as nat,
                    ).contains(q),
        )
    } else {
        set![p]
    }
}

/// Page `q` lies in the subtree at page `p`, descending at most `h` levels.
pub open spec fn in_subtree(mem: Seq<Seq<u8>>, p: u32, h: nat, q: u32) -> bool {
    subtree_pages(mem, p, h).contains(q)
}

/// A page in the subtree of a child is in the subtree of the parent.
pub proof fn lemma_in_subtree_child(mem: Seq<Seq<u8>>, p: u32, h: nat, c: int, q: u32)
    requires
        h > 0,
        page_node_type(mem[p as int]) is Internal,
        0 <= c <= page_internal_num_keys(mem[p as int]),
        in_subtree(mem, page_internal_child(mem[p as int], c), (h - 1) as nat, q),
    ensures
        in_subtree(mem, p, h, q),
{

}

/// Every page of a valid subtree lies in the cache range.
pub proof fn lemma_subtree_pages_in_cache(mem: Seq<Seq<u8>>, p: u32, h: nat)
    requires
        subtree_ok(mem, p, h),
    ensures
        forall|q: u32| #[trigger] in_subtree(mem, p, h, q) ==> q < TABLE_MAX_PAGES,
    decreases h,
{
    if h > 0 && page_node_type(mem[p as int]) is Internal {
        let page = mem[p as int];
        assert forall|q: u32| #[trigger] in_subtree(mem, p, h, q) implies q < TABLE_MAX_PAGES by {
            if q != p {
                let c = choose|c: int|
                    0 <= c <= page_internal_num_keys(page) && subtree_pages(mem, page_internal_child(page, c), (h - 1) as nat).contains(q);
                lemma_subtree_pages_in_cache(mem, page_internal_child(page, c), (h - 1) as nat);
                assert(in_subtree(mem, page_internal_child(page, c), (h - 1) as nat, q));
            }
        }
    }
}

/// Pages of the same shape read the same node kind, counts, links and keys.
pub proof fn lemma_same_shape_fields(a: Seq<u8>, b: Seq<u8>)
    requires
        same_shape(a, b),
        a.len() == PAGE_SIZE,
    ensures
        a[NODE_TYPE_OFFSET as int] == b[NODE_TYPE_OFFSET as int],
        page_node_type(a) == page_node_type(b),
        page_internal_num_keys(a) == page_internal_num_keys(b),
        page_internal_right_child(a) == page_internal_right_child(b),
        page_leaf_num_cells(a) == page_leaf_num_cells(b),
        forall|c: int| 0 <= c && crate::btree::internal::internal_cell_offset(c) + 8 <= PAGE_SIZE ==> #[trigger] page_internal_child(a, c) == page_internal_child(b, c),
        forall|c: int| 0 <= c && crate::btree::internal::internal_cell_offset(c) + 8 <= PAGE_SIZE ==> #[trigger] crate::btree::internal::page_internal_key(a, c) == crate::btree::internal::page_internal_key(b, c),
        forall|c: int| leaf_key_in_page(c) ==> #[trigger] page_leaf_key(a, c) == page_leaf_key(b, c),
{
    assert(a[6] == b[6] && a[7] == b[7] && a[8] == b[8] && a[9] == b[9]);
    assert(a[10] == b[10] && a[11] == b[11] && a[12] == b[12] && a[13] == b[13]);
    assert forall|c: int| 0 <= c && crate::btree::internal::internal_cell_offset(c) + 8 <= PAGE_SIZE implies #[trigger] page_internal_child(a, c) == page_internal_child(b, c) by {
        let o = crate::btree::internal::internal_cell_offset(c);
        assert(a[o] == b[o] && a[o + 1] == b[o + 1] && a[o + 2] == b[o + 2] && a[o + 3] == b[o + 3]);
    }
    assert forall|c: int| 0 <= c && crate::btree::internal::internal_cell_offset(c) + 8 <= PAGE_SIZE implies #[trigger] crate::btree::internal::page_internal_key(a, c) == crate::btree::internal::page_internal_key(b, c) by {
        let o = crate::btree::internal::internal_cell_offset(c) + 4;
        assert(a[o] == b[o] && a[o + 1] == b[o + 1] && a[o + 2] == b[o + 2] && a[o + 3] == b[o + 3]);
    }
    assert forall|c: int| leaf_key_in_page(c) implies #[trigger] page_leaf_key(a, c) == page_leaf_key(b, c) by {
        let o = crate::btree::leaf::leaf_cell_offset(c);
        assert(a[o] == b[o] && a[o + 1] == b[o + 1] && a[o + 2] == b[o + 2] && a[o + 3] == b[o + 3]);
    }
}

/// A subtree is kept, with the same rightmost leaf, when every page in it keeps its
/// shape.
pub proof fn lemma_shape_frame(mem: Seq<Seq<u8>>, mid: Seq<Seq<u8>>, p: u32, h: nat)
    requires
        subtree_ok(mem, p, h),
        valid_memory(mem),
        mid.len() == mem.len(),
        forall|q: u32| #[trigger] in_subtree(mem, p, h, q) ==> same_shape(mem[q as int], mid[q as int]),
    ensures
        subtree_ok(mid, p, h),
        rightmost_leaf(mid, p, h) == rightmost_leaf(mem, p, h),
    decreases h,
{
    assert(in_subtree(mem, p, h, p));
    lemma_same_shape_fields(mem[p as int], mid[p as int]);
    if page_node_type(mem[p as int]) is Internal {
        let page = mem[p as int];
        assert forall|c: int| 0 <= c <= page_internal_num_keys(mid[p as int]) implies {
            &&& #[trigger] page_internal_child(mid[p as int], c) != INVALID_PAGE_NUM
            &&& subtree_ok(mid, page_internal_child(mid[p as int], c), (h - 1) as nat)
        } by {
            if c < page_internal_num_keys(page) {
                assert(crate::btree::internal::internal_cell_in_page(c)) by {
                    assert(internal_cells_in_page(page));
                }
            }
            let child = page_internal_child(page, c);
            assert(page_internal_child(mid[p as int], c) == child);
            assert forall|q: u32| #[trigger] in_subtree(mem, child, (h - 1) as nat, q) implies same_shape(mem[q as int], mid[q as int]) by {
                lemma_in_subtree_child(mem, p, h, c, q);
            }
            lemma_shape_frame(mem, mid, child, (h - 1) as nat);
        }
        let rc = page_internal_child(page, page_internal_num_keys(page) as int);
        assert(page_internal_child(mid[p as int], page_internal_num_keys(mid[p as int]) as int) == rc);
        assert forall|q: u32| #[trigger] in_subtree(mem, rc, (h - 1) as nat, q) implies same_shape(mem[q as int], mid[q as int]) by {
            let k = page_internal_num_keys(page) as int;
            lemma_in_subtree_child(mem, p, h, k, q);
        }
        lemma_shape_frame(mem, mid, rc, (h - 1) as nat);
    }
}

/// The rightmost leaf does not depend on which valid height bound is used.
pub proof fn lemma_rightmost_leaf_height(mem: Seq<Seq<u8>>, p: u32, h1: nat, h2: nat)
    requires
        subtree_ok(mem, p, h1),
        subtree_ok(mem, p, h2),
    ensures
        rightmost_leaf(mem, p, h1) == rightmost_leaf(mem, p, h2),
    decreases h1,
{
    if page_node_type(mem[p as int]) is Internal {
        let page = mem[p as int];
        let rc = page_internal_child(page, page_internal_num_keys(page) as int);
        lemma_rightmost_leaf_height(mem, rc, (h1 - 1) as nat, (h2 - 1) as nat);
    }
}

/// A valid internal node is not its own child.
pub proof fn lemma_not_own_child(mem: Seq<Seq<u8>>, p: u32, h: nat, c: int)
    requires
        subtree_ok(mem, p, h),
        page_node_type(mem[p as int]) is Internal,
        0 <= c <= page_internal_num_keys(mem[p as int]),
    ensures
        page_internal_child(mem[p as int], c) != p,
    decreases h,
{
    if page_internal_child(mem[p as int], c) == p {
        lemma_not_own_child(mem, p, (h - 1) as nat, c);
    }
}

/// Finds the greatest key stored below a node: the last key of its rightmost leaf.
///
/// The page must head a valid subtree whose rightmost leaf is not empty.
pub fn get_node_max_key(pager: &mut Pager, page_num: u32) -> (max_key: u32)
    requires
        old(pager).wf(),
        valid_tree(old(pager)@, page_num),
        page_leaf_num_cells(old(pager)@[rightmost_leaf(old(pager)@, page_num, tree_height(old(pager)@, page_num)) as int]) > 0,
    ensures
        max_key == subtree_max_key(old(pager)@, page_num),
        final(pager).wf(),
        final(pager)@ == old(pager)@,
        final(pager).file_image() == old(pager).file_image(),
        old(pager).page_count() <= final(pager).page_count(),
        final(pager).page_count() == old(pager).page_count() || final(pager).page_count()
            <= TABLE_MAX_PAGES,
{
    let ghost h = tree_height(pager@, page_num);
    get_node_max_key_below(pager, page_num, Ghost(h))
}

/// `get_node_max_key` for a subtree whose height is known to be at most `h`.
fn get_node_max_key_below(pager: &mut Pager, page_num: u32, Ghost(h): Ghost<nat>) -> (max_key: u32)
    requires
        old(pager).wf(),
        subtree_ok(old(pager)@, page_num, h),
        page_leaf_num_cells(old(pager)@[rightmost_leaf(old(pager)@, page_num, h) as int]) > 0,
    ensures
        max_key == page_leaf_key(
            old(pager)@[rightmost_leaf(old(pager)@, page_num, h) as int],
            page_leaf_num_cells(old(pager)@[rightmost_leaf(old(pager)@, page_num, h) as int]) - 1,
        ),
        final(pager).wf(),
        final(pager)@ == old(pager)@,
        final(pager).file_image() == old(pager).file_image(),
        old(pager).page_count() <= final(pager).page_count(),
        final(pager).page_count() == old(pager).page_count() || final(pager).page_count()
            <= TABLE_MAX_PAGES,
    decreases h,
{
    let ghost mem = pager@;
    pager.fetch_page(page_num);
    match get_node_type(pager.cached_page(page_num)) {
        NodeType::Leaf => {
            let page = pager.cached_page(page_num);
            let count = leaf_node_num_cells(page);
            assert(leaf_key_in_page(count - 1));
            leaf_node_key(page, count - 1)
        },
        NodeType::Internal => {
            let right_child = internal_node_right_child(pager.cached_page(page_num));
            assert(right_child == page_internal_child(mem[page_num as int], page_internal_num_keys(mem[page_num as int]) as int));
            get_node_max_key_below(pager, right_child, Ghost((h - 1) as nat))
        },
    }
}

/// Checks that the subtree at `page_num` is valid with height at most `fuel`, walking
/// every page of it.
pub fn check_subtree(pager: &mut Pager, page_num: u32, fuel: u32) -> (ok: bool)
    requires
        old(pager).wf(),
    ensures
        ok == subtree_ok(old(pager)@, page_num, fuel as nat),
        final(pager).wf(),
        final(pager)@ == old(pager)@,
        final(pager).file_image() == old(pager).file_image(),
        old(pager).page_count() <= final(pager).page_count(),
        final(pager).page_count() == old(pager).page_count() || final(pager).page_count()
            <= TABLE_MAX_PAGES,
    decreases fuel,
{
    let ghost mem = pager@;
    if page_num as usize >= TABLE_MAX_PAGES {
        return false;
    }
    pager.fetch_page(page_num);
    let page = pager.cached_page(page_num);
    if page[NODE_TYPE_OFFSET] > 1 {
        return false;
    }
    match get_node_type(page) {
        NodeType::Leaf => {
            let count = leaf_node_num_cells(page);
            proof {
                crate::btree::leaf::lemma_leaf_layout();
            }
            count == 0 || count <= 14
        },
        NodeType::Internal => {
            if fuel == 0 {
                return false;
            }
            let key_count = internal_node_num_keys(page);
            if key_count > 510 {
                return false;
            }
            let ghost p = mem[page_num as int];
            let mut index: u32 = 0;
            while index <= key_count
                invariant
                    pager.wf(),
                    pager@ == mem,
                    mem == old(pager)@,
                    pager.file_image() == old(pager).file_image(),
                    old(pager).page_count() <= pager.page_count(),
                    pager.page_count() == old(pager).page_count() || pager.page_count() <= TABLE_MAX_PAGES,
                    page_num < TABLE_MAX_PAGES,
                    fuel > 0,
                    p == mem[page_num as int],
                    page_node_type(p) is Internal,
                    valid_node_type_byte(p[NODE_TYPE_OFFSET as int]),
                    internal_cells_in_page(p),
                    key_count == page_internal_num_keys(p),
                    key_count <= 510,
                    index <= key_count + 1,
                    forall|c: int| 0 <= c < index ==> {
                        &&& #[trigger] page_internal_child(p, c) != INVALID_PAGE_NUM
                        &&& subtree_ok(mem, page_internal_child(p, c), (fuel - 1) as nat)
                    },
                decreases key_count + 1 - index,
            {
                pager.fetch_page(page_num);
                let child = if index == key_count {
                    internal_node_right_child(pager.cached_page(page_num))
                } else {
                    assert(internal_cell_in_page(index as int));
                    read_u32_le(pager.cached_page(page_num), crate::btree::internal::internal_node_cell_offset(index))
                };
                assert(child == page_internal_child(p, index as int));
                if child == INVALID_PAGE_NUM {
                    return false;
                }
                if !check_subtree(pager, child, fuel - 1) {
                    return false;
                }
                index = index + 1;
            }
            true
        },
    }
}

} // verus!
