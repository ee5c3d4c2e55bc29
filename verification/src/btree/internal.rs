//! Internal-node layout, child/key access, and lookup.
use vstd::prelude::*;

use crate::btree::leaf::{leaf_find_index, leaf_keys_in_page, leaf_node_find};
use crate::btree::node::{
    find_leaf, get_node_type, leaf_for_key, node_type_byte, page_node_type, set_node_parent,
    set_node_root, set_node_type, subtree_ok, tree_height, valid_tree, NodeType,
    COMMON_NODE_HEADER_SIZE, IS_ROOT_OFFSET, NODE_TYPE_OFFSET, PARENT_POINTER_OFFSET,
};
use crate::config::{INVALID_PAGE_NUM, PAGE_SIZE, TABLE_MAX_PAGES};
use crate::storage::pager::Pager;
use crate::storage::codec::{le_u32_at, put_u32, read_u32_le, write_u32_le};
use crate::storage::page::Page;

verus! {

// Internal node header layout
pub const INTERNAL_NODE_NUM_KEYS_SIZE: usize = 4;
pub const INTERNAL_NODE_NUM_KEYS_OFFSET: usize = COMMON_NODE_HEADER_SIZE;
pub const INTERNAL_NODE_RIGHT_CHILD_SIZE: usize = 4;
pub const INTERNAL_NODE_RIGHT_CHILD_OFFSET: usize = INTERNAL_NODE_NUM_KEYS_OFFSET
    + INTERNAL_NODE_NUM_KEYS_SIZE;
pub const INTERNAL_NODE_HEADER_SIZE: usize = COMMON_NODE_HEADER_SIZE + INTERNAL_NODE_NUM_KEYS_SIZE
    + INTERNAL_NODE_RIGHT_CHILD_SIZE;

// Internal node body layout
pub const INTERNAL_NODE_KEY_SIZE: usize = 4;
pub const INTERNAL_NODE_CHILD_SIZE: usize = 4;
pub const INTERNAL_NODE_CELL_SIZE: usize = INTERNAL_NODE_CHILD_SIZE + INTERNAL_NODE_KEY_SIZE;
/// Kept small so that a tree branches after only a few rows.
pub const INTERNAL_NODE_MAX_KEYS: usize = 3;

/// The number of separator keys recorded in an internal page.
pub open spec fn page_internal_num_keys(page: Seq<u8>) -> u32 {
    le_u32_at(page, INTERNAL_NODE_NUM_KEYS_OFFSET as int)
}

/// The rightmost child recorded in an internal page.
pub open spec fn page_internal_right_child(page: Seq<u8>) -> u32 {
    le_u32_at(page, INTERNAL_NODE_RIGHT_CHILD_OFFSET as int)
}

/// Byte offset of internal cell `cell_num`.
pub open spec fn internal_cell_offset(cell_num: int) -> int {
    // header (14 bytes) followed by cells of INTERNAL_NODE_CELL_SIZE (8) bytes
    14 + cell_num * 8
}

/// Whether internal cell `cell_num` lies inside a page.
pub open spec fn internal_cell_in_page(cell_num: int) -> bool {
    0 <= cell_num && internal_cell_offset(cell_num) + INTERNAL_NODE_CELL_SIZE <= PAGE_SIZE
}

/// Whether every cell that the header's key count names lies inside the page.
pub open spec fn internal_cells_in_page(page: Seq<u8>) -> bool {
    internal_cell_offset(page_internal_num_keys(page) as int) <= PAGE_SIZE
}

/// The child page stored in internal cell `cell_num`.
pub open spec fn page_internal_cell_child(page: Seq<u8>, cell_num: int) -> u32 {
    le_u32_at(page, internal_cell_offset(cell_num))
}

/// The separator key stored in internal cell `key_num`.
pub open spec fn page_internal_key(page: Seq<u8>, key_num: int) -> u32 {
    le_u32_at(page, internal_cell_offset(key_num) + INTERNAL_NODE_CHILD_SIZE)
}

/// Child `child_num` of an internal page: a cell's child, or the right child at index `num_keys`.
pub open spec fn page_internal_child(page: Seq<u8>, child_num: int) -> u32 {
    if child_num == page_internal_num_keys(page) {
        page_internal_right_child(page)
    } else {
        page_internal_cell_child(page, child_num)
    }
}

/// Whether `child_num` names a child of the page that can be read and is not the missing-page sentinel.
pub open spec fn valid_internal_child(page: Seq<u8>, child_num: int) -> bool {
    &&& 0 <= child_num <= page_internal_num_keys(page)
    &&& child_num < page_internal_num_keys(page) ==> internal_cell_in_page(child_num)
    &&& page_internal_child(page, child_num) != INVALID_PAGE_NUM
}

/// A page with an empty internal-node header written over the old header fields.
pub open spec fn initialized_internal(page: Seq<u8>) -> Seq<u8> {
    put_u32(
        put_u32(
            put_u32(
                page.update(NODE_TYPE_OFFSET as int, node_type_byte(NodeType::Internal)).update(
                    IS_ROOT_OFFSET as int,
                    0u8,
                ),
                INTERNAL_NODE_NUM_KEYS_OFFSET as int,
                0,
            ),
            INTERNAL_NODE_RIGHT_CHILD_OFFSET as int,
            INVALID_PAGE_NUM,
        ),
        PARENT_POINTER_OFFSET as int,
        INVALID_PAGE_NUM,
    )
}

/// Returns the number of separator keys in an internal node.
pub fn internal_node_num_keys(page: &Page) -> (num_keys: u32)
    ensures
        num_keys == page_internal_num_keys(page@),
{
    read_u32_le(page, INTERNAL_NODE_NUM_KEYS_OFFSET)
}

/// Stores the separator-key count.
pub fn set_internal_node_num_keys(page: &mut Page, num_keys: u32)
    ensures
        final(page)@ == put_u32(old(page)@, INTERNAL_NODE_NUM_KEYS_OFFSET as int, num_keys),
{
    write_u32_le(page, INTERNAL_NODE_NUM_KEYS_OFFSET, num_keys);
}

/// Returns the rightmost child page number.
pub fn internal_node_right_child(page: &Page) -> (right_child: u32)
    ensures
        right_child == page_internal_right_child(page@),
{
    read_u32_le(page, INTERNAL_NODE_RIGHT_CHILD_OFFSET)
}

/// Sets the rightmost child page number.
pub fn set_internal_node_right_child(page: &mut Page, right_child: u32)
    ensures
        final(page)@ == put_u32(old(page)@, INTERNAL_NODE_RIGHT_CHILD_OFFSET as int, right_child),
{
    write_u32_le(page, INTERNAL_NODE_RIGHT_CHILD_OFFSET, right_child);
}

/// Calculates the byte offset of an internal-node cell.
pub fn internal_node_cell_offset(cell_num: u32) -> (offset: usize)
    requires
        internal_cell_offset(cell_num as int) <= usize::MAX,
    ensures
        offset == internal_cell_offset(cell_num as int),
{
    INTERNAL_NODE_HEADER_SIZE + (cell_num as usize) * INTERNAL_NODE_CELL_SIZE
}

/// Returns a child page, including the special rightmost child at index `num_keys`.
///
/// An index past the key count, or a child equal to the missing-page sentinel, ends
/// the program; such inputs are outside this function's contract.
pub fn internal_node_child(page: &Page, child_num: u32) -> (child: u32)
    requires
        valid_internal_child(page@, child_num as int),
    ensures
        child == page_internal_child(page@, child_num as int),
{
    let num_keys = internal_node_num_keys(page);
    if child_num == num_keys {
        valid_right_child(page)
    } else {
        valid_cell_child(page, child_num)
    }
}

/// Reads the special rightmost child pointer, which must not be the sentinel.
fn valid_right_child(page: &Page) -> (child: u32)
    requires
        page_internal_right_child(page@) != INVALID_PAGE_NUM,
    ensures
        child == page_internal_right_child(page@),
{
    internal_node_right_child(page)
}

/// Reads a child pointer stored in a normal cell, which must not be the sentinel.
fn valid_cell_child(page: &Page, child_num: u32) -> (child: u32)
    requires
        internal_cell_in_page(child_num as int),
        page_internal_cell_child(page@, child_num as int) != INVALID_PAGE_NUM,
    ensures
        child == page_internal_cell_child(page@, child_num as int),
{
    let offset = internal_node_cell_offset(child_num);
    read_u32_le(page, offset)
}

/// Stores a child page number in an internal cell.
pub fn set_internal_node_child(page: &mut Page, child_num: u32, child_page: u32)
    requires
        internal_cell_in_page(child_num as int),
    ensures
        final(page)@ == put_u32(old(page)@, internal_cell_offset(child_num as int), child_page),
{
    let offset = internal_node_cell_offset(child_num);
    write_u32_le(page, offset, child_page);
}

/// Reads a separator key.
pub fn internal_node_key(page: &Page, key_num: u32) -> (key: u32)
    requires
        internal_cell_in_page(key_num as int),
    ensures
        key == page_internal_key(page@, key_num as int),
{
    let offset = internal_node_cell_offset(key_num) + INTERNAL_NODE_CHILD_SIZE;
    read_u32_le(page, offset)
}

/// Writes a separator key.
pub fn set_internal_node_key(page: &mut Page, key_num: u32, key: u32)
    requires
        internal_cell_in_page(key_num as int),
    ensures
        final(page)@ == put_u32(
            old(page)@,
            internal_cell_offset(key_num as int) + INTERNAL_NODE_CHILD_SIZE,
            key,
        ),
{
    let offset = internal_node_cell_offset(key_num) + INTERNAL_NODE_CHILD_SIZE;
    write_u32_le(page, offset, key);
}

/// Initializes an empty internal node.
pub fn initialize_internal_node(page: &mut Page)
    ensures
        final(page)@ == initialized_internal(old(page)@),
{
    set_node_type(page, NodeType::Internal);
    set_node_root(page, false);
    set_internal_node_num_keys(page, 0);
    set_internal_node_right_child(page, INVALID_PAGE_NUM);
    set_node_parent(page, INVALID_PAGE_NUM);
}

/// Whether the separator keys of an internal page are in non-decreasing order.
pub open spec fn internal_keys_sorted(page: Seq<u8>) -> bool {
    forall|i: int, j: int|
        0 <= i <= j < page_internal_num_keys(page) ==> page_internal_key(page, i)
            <= page_internal_key(page, j)
}

/// The index of the child whose subtree should hold `key`: every separator before it is
/// smaller than `key`, and the separator at it (if any) is at least `key`.
pub open spec fn is_child_index_for(page: Seq<u8>, key: u32, index: int) -> bool {
    &&& 0 <= index <= page_internal_num_keys(page)
    &&& index < page_internal_num_keys(page) ==> page_internal_key(page, index) >= key
    &&& index > 0 ==> page_internal_key(page, index - 1) < key
}

/// The child index that binary search over the separators `lo .. hi` settles on: it narrows
/// to the left half when the middle separator is at least `key`, else to the right half.
pub open spec fn search_child(page: Seq<u8>, key: u32, lo: int, hi: int) -> int
    decreases hi - lo,
{
    if lo >= hi {
        lo
    } else {
        let mid = (lo + hi) / 2;
        if page_internal_key(page, mid) >= key {
            search_child(page, key, lo, mid)
        } else {
            search_child(page, key, mid + 1, hi)
        }
    }
}

/// Finds which child should contain a search key.
///
/// The result always sits between a smaller separator and one at least `key`; when the
/// separators are sorted it is the leftmost separator at least `key`.
pub fn internal_node_find_child(page: &Page, key: u32) -> (index: u32)
    requires
        internal_cells_in_page(page@),
    ensures
        index == search_child(page@, key, 0, page_internal_num_keys(page@) as int),
        is_child_index_for(page@, key, index as int),
        internal_keys_sorted(page@) ==> (forall|i: int|
            0 <= i < index ==> page_internal_key(page@, i) < key),
        internal_keys_sorted(page@) ==> (forall|i: int|
            index <= i < page_internal_num_keys(page@) ==> page_internal_key(page@, i) >= key),
{
    let num_keys = internal_node_num_keys(page);
    assert(num_keys <= 510);
    let mut min_index: u32 = 0;
    let mut max_index: u32 = num_keys;
    while min_index != max_index
        invariant
            num_keys <= 510,
            num_keys == page_internal_num_keys(page@),
            internal_cells_in_page(page@),
            0 <= min_index <= max_index <= num_keys,
            max_index < num_keys ==> page_internal_key(page@, max_index as int) >= key,
            min_index > 0 ==> page_internal_key(page@, min_index - 1) < key,
            search_child(page@, key, 0, num_keys as int) == search_child(
                page@,
                key,
                min_index as int,
                max_index as int,
            ),
        decreases max_index - min_index,
    {
        let index = (min_index + max_index) / 2;
        assert(internal_cell_in_page(index as int)) by {
            assert(internal_cell_offset(index as int) + INTERNAL_NODE_CELL_SIZE
                == internal_cell_offset(index + 1));
            assert(internal_cell_offset(index + 1) <= internal_cell_offset(num_keys as int));
        }
        let key_to_right = internal_node_key(page, index);
        if key_to_right >= key {
            max_index = index;
        } else {
            min_index = index + 1;
        }
    }
    min_index
}

/// Binary search over `lo .. hi` ends inside that range.
pub proof fn lemma_search_child_range(page: Seq<u8>, key: u32, lo: int, hi: int)
    requires
        lo <= hi,
    ensures
        lo <= search_child(page, key, lo, hi) <= hi,
    decreases hi - lo,
{
    if lo < hi {
        let mid = (lo + hi) / 2;
        if page_internal_key(page, mid) >= key {
            lemma_search_child_range(page, key, lo, mid);
        } else {
            lemma_search_child_range(page, key, mid + 1, hi);
        }
    }
}

/// When every cell the key count names lies in the page, each of them can be read.
pub proof fn lemma_cell_in_page(page: Seq<u8>, c: int)
    requires
        internal_cells_in_page(page),
        0 <= c < page_internal_num_keys(page),
    ensures
        internal_cell_in_page(c),
{
}

/// The walk from a page whose subtree is valid ends at a leaf inside the cache range whose
/// key cells lie inside the page.
pub proof fn lemma_leaf_for_key(mem: Seq<Seq<u8>>, p: u32, key: u32, h: nat)
    requires
        subtree_ok(mem, p, h),
    ensures
        leaf_for_key(mem, p, key, h) < TABLE_MAX_PAGES,
        page_node_type(mem[leaf_for_key(mem, p, key, h) as int]) is Leaf,
        subtree_ok(mem, leaf_for_key(mem, p, key, h), 0),
        leaf_keys_in_page(mem[leaf_for_key(mem, p, key, h) as int]),
    decreases h,
{
    if h > 0 && page_node_type(mem[p as int]) is Internal {
        let page = mem[p as int];
        let c = search_child(page, key, 0, page_internal_num_keys(page) as int);
        lemma_search_child_range(page, key, 0, page_internal_num_keys(page) as int);
        assert(page_internal_child(page, c) != INVALID_PAGE_NUM);
        lemma_leaf_for_key(mem, page_internal_child(page, c), key, (h - 1) as nat);
    }
}

/// Descends internal nodes until the target leaf is reached.
///
/// The page must be an internal node heading a valid subtree.
pub fn internal_node_find(pager: &mut Pager, page_num: u32, key: u32) -> (position: (u32, u32))
    requires
        old(pager).wf(),
        valid_tree(old(pager)@, page_num),
        page_node_type(old(pager)@[page_num as int]) is Internal,
    ensures
        position.0 == find_leaf(old(pager)@, page_num, key),
        position.1 == leaf_find_index(old(pager)@[position.0 as int], key),
        final(pager).wf(),
        final(pager)@ == old(pager)@,
        final(pager).file_image() == old(pager).file_image(),
        old(pager).page_count() <= final(pager).page_count(),
        final(pager).page_count() == old(pager).page_count() || final(pager).page_count()
            <= TABLE_MAX_PAGES,
{
    let ghost h = tree_height(pager@, page_num);
    internal_node_find_below(pager, page_num, key, Ghost(h))
}

/// `internal_node_find` for a subtree whose height is known to be at most `h`.
fn internal_node_find_below(pager: &mut Pager, page_num: u32, key: u32, Ghost(h): Ghost<nat>) -> (position: (
    u32,
    u32,
))
    requires
        old(pager).wf(),
        subtree_ok(old(pager)@, page_num, h),
        page_node_type(old(pager)@[page_num as int]) is Internal,
    ensures
        position.0 == leaf_for_key(old(pager)@, page_num, key, h),
        position.1 == leaf_find_index(old(pager)@[position.0 as int], key),
        final(pager).wf(),
        final(pager)@ == old(pager)@,
        final(pager).file_image() == old(pager).file_image(),
        old(pager).page_count() <= final(pager).page_count(),
        final(pager).page_count() == old(pager).page_count() || final(pager).page_count()
            <= TABLE_MAX_PAGES,
    decreases h,
{
    let ghost mem = pager@;
    pager.fetch_page(page_num);
    let page = pager.cached_page(page_num);
    let child_index = internal_node_find_child(page, key);
    proof {
        lemma_search_child_range(mem[page_num as int], key, 0, page_internal_num_keys(mem[page_num as int]) as int);
        if child_index < page_internal_num_keys(page@) {
            lemma_cell_in_page(page@, child_index as int);
        }
        assert(page_internal_child(page@, child_index as int) != INVALID_PAGE_NUM);
    }
    let child_num = internal_node_child(page, child_index);
    assert(subtree_ok(mem, child_num, (h - 1) as nat));
    pager.fetch_page(child_num);
    let child_type = get_node_type(pager.cached_page(child_num));
    assert(leaf_for_key(mem, page_num, key, h) == leaf_for_key(mem, child_num, key, (h - 1) as nat));
    match child_type {
        NodeType::Leaf => leaf_node_find(pager, child_num, key),
        NodeType::Internal => internal_node_find_below(pager, child_num, key, Ghost((h - 1) as nat)),
    }
}

} // verus!
