//! Leaf-node layout, cell access, lookup, and insertion.
use vstd::prelude::*;

use crate::btree::node::{
    node_type_byte, set_node_parent, set_node_root, set_node_type, NodeType,
    COMMON_NODE_HEADER_SIZE, IS_ROOT_OFFSET, NODE_TYPE_OFFSET, PARENT_POINTER_OFFSET,
};
use crate::config::{INVALID_PAGE_NUM, PAGE_SIZE, TABLE_MAX_PAGES};
use crate::btree::cursor::Cursor;
use crate::btree::tree::Table;
use crate::row::{row_bytes, Row, ROW_SIZE};
use crate::storage::codec::{
    lemma_put_u32_read, lemma_put_u32_splice, le_u32_at, move_bytes, put_u32, read_u32_le, splice, u32_le_bytes,
    write_u32_le,
};
use crate::storage::page::Page;
use crate::storage::pager::Pager;

verus! {

// Leaf node header layout
pub const LEAF_NODE_NUM_CELLS_SIZE: usize = 4;
pub const LEAF_NODE_NUM_CELLS_OFFSET: usize = COMMON_NODE_HEADER_SIZE;
pub const LEAF_NODE_NEXT_LEAF_SIZE: usize = 4;
pub const LEAF_NODE_NEXT_LEAF_OFFSET: usize = LEAF_NODE_NUM_CELLS_OFFSET + LEAF_NODE_NUM_CELLS_SIZE;
pub const LEAF_NODE_HEADER_SIZE: usize = COMMON_NODE_HEADER_SIZE + LEAF_NODE_NUM_CELLS_SIZE
    + LEAF_NODE_NEXT_LEAF_SIZE;

// Leaf node body layout
pub const LEAF_NODE_KEY_SIZE: usize = 4;
pub const LEAF_NODE_KEY_OFFSET: usize = 0;
pub const LEAF_NODE_VALUE_SIZE: usize = ROW_SIZE;
pub const LEAF_NODE_VALUE_OFFSET: usize = LEAF_NODE_KEY_OFFSET + LEAF_NODE_KEY_SIZE;
pub const LEAF_NODE_CELL_SIZE: usize = LEAF_NODE_KEY_SIZE + LEAF_NODE_VALUE_SIZE;
pub const LEAF_NODE_SPACE_FOR_CELLS: usize = PAGE_SIZE - LEAF_NODE_HEADER_SIZE;
pub const LEAF_NODE_MAX_CELLS: usize = LEAF_NODE_SPACE_FOR_CELLS / LEAF_NODE_CELL_SIZE;
pub const LEAF_NODE_RIGHT_SPLIT_COUNT: usize = (LEAF_NODE_MAX_CELLS + 1) / 2;
pub const LEAF_NODE_LEFT_SPLIT_COUNT: usize = (LEAF_NODE_MAX_CELLS + 1) - LEAF_NODE_RIGHT_SPLIT_COUNT;

/// The number of cells recorded in a leaf page.
pub open spec fn page_leaf_num_cells(page: Seq<u8>) -> u32 {
    le_u32_at(page, LEAF_NODE_NUM_CELLS_OFFSET as int)
}

/// The successor leaf recorded in a leaf page.
pub open spec fn page_leaf_next_leaf(page: Seq<u8>) -> u32 {
    le_u32_at(page, LEAF_NODE_NEXT_LEAF_OFFSET as int)
}

/// Byte offset of leaf cell `cell_num`.
pub open spec fn leaf_cell_offset(cell_num: int) -> int {
    // header (14 bytes) followed by cells of LEAF_NODE_CELL_SIZE (297) bytes
    14 + cell_num * 297
}

/// Whether the key of leaf cell `cell_num` lies inside a page.
pub open spec fn leaf_key_in_page(cell_num: int) -> bool {
    0 <= cell_num && leaf_cell_offset(cell_num) + LEAF_NODE_KEY_SIZE <= PAGE_SIZE
}

/// Whether the whole of leaf cell `cell_num` lies inside a page.
pub open spec fn leaf_cell_in_page(cell_num: int) -> bool {
    0 <= cell_num && leaf_cell_offset(cell_num) + LEAF_NODE_CELL_SIZE <= PAGE_SIZE
}

/// The key stored in leaf cell `cell_num`.
pub open spec fn page_leaf_key(page: Seq<u8>, cell_num: int) -> u32 {
    le_u32_at(page, leaf_cell_offset(cell_num))
}

/// The serialized row stored in leaf cell `cell_num`.
pub open spec fn page_leaf_value(page: Seq<u8>, cell_num: int) -> Seq<u8> {
    let start = leaf_cell_offset(cell_num) + LEAF_NODE_VALUE_OFFSET;
    page.subrange(start, start + LEAF_NODE_VALUE_SIZE)
}

/// A page with an empty leaf header written over the old header fields.
pub open spec fn initialized_leaf(page: Seq<u8>) -> Seq<u8> {
    put_u32(
        put_u32(
            put_u32(
                page.update(NODE_TYPE_OFFSET as int, node_type_byte(NodeType::Leaf)).update(
                    IS_ROOT_OFFSET as int,
                    0u8,
                ),
                LEAF_NODE_NUM_CELLS_OFFSET as int,
                0,
            ),
            LEAF_NODE_NEXT_LEAF_OFFSET as int,
            0,
        ),
        PARENT_POINTER_OFFSET as int,
        INVALID_PAGE_NUM,
    )
}

/// Returns the number of occupied cells in a leaf.
pub fn leaf_node_num_cells(page: &Page) -> (num_cells: u32)
    ensures
        num_cells == page_leaf_num_cells(page@),
{
    read_u32_le(page, LEAF_NODE_NUM_CELLS_OFFSET)
}

/// Stores the number of occupied cells in a leaf header.
pub fn set_leaf_node_num_cells(page: &mut Page, num_cells: u32)
    ensures
        final(page)@ == put_u32(old(page)@, LEAF_NODE_NUM_CELLS_OFFSET as int, num_cells),
{
    write_u32_le(page, LEAF_NODE_NUM_CELLS_OFFSET, num_cells);
}

/// Returns the linked-list successor page number.
pub fn leaf_node_next_leaf(page: &Page) -> (next_leaf: u32)
    ensures
        next_leaf == page_leaf_next_leaf(page@),
{
    read_u32_le(page, LEAF_NODE_NEXT_LEAF_OFFSET)
}

/// Sets the linked-list successor page number.
pub fn set_leaf_node_next_leaf(page: &mut Page, next_leaf: u32)
    ensures
        final(page)@ == put_u32(old(page)@, LEAF_NODE_NEXT_LEAF_OFFSET as int, next_leaf),
{
    write_u32_le(page, LEAF_NODE_NEXT_LEAF_OFFSET, next_leaf);
}

/// Calculates the byte offset of a cell within a leaf page.
pub fn leaf_node_cell_offset(cell_num: u32) -> (offset: usize)
    requires
        leaf_cell_offset(cell_num as int) <= usize::MAX,
    ensures
        offset == leaf_cell_offset(cell_num as int),
{
    LEAF_NODE_HEADER_SIZE + (cell_num as usize) * LEAF_NODE_CELL_SIZE
}

/// Reads one cell's key.
pub fn leaf_node_key(page: &Page, cell_num: u32) -> (key: u32)
    requires
        leaf_key_in_page(cell_num as int),
    ensures
        key == page_leaf_key(page@, cell_num as int),
{
    let offset = leaf_node_cell_offset(cell_num);
    read_u32_le(page, offset)
}

/// Writes one cell's key.
pub fn set_leaf_node_key(page: &mut Page, cell_num: u32, key: u32)
    requires
        leaf_key_in_page(cell_num as int),
    ensures
        final(page)@ == put_u32(old(page)@, leaf_cell_offset(cell_num as int), key),
{
    let offset = leaf_node_cell_offset(cell_num);
    write_u32_le(page, offset, key);
}

/// Returns the serialized-row bytes for one cell.
pub fn leaf_node_value_slice(page: &Page, cell_num: u32) -> (value: &[u8])
    requires
        leaf_cell_in_page(cell_num as int),
    ensures
        value@ == page_leaf_value(page@, cell_num as int),
{
    let offset = leaf_node_cell_offset(cell_num) + LEAF_NODE_KEY_SIZE;
    &page[offset..offset + LEAF_NODE_VALUE_SIZE]
}

/// Initializes an empty leaf page header.
pub fn initialize_leaf_node(page: &mut Page)
    ensures
        final(page)@ == initialized_leaf(old(page)@),
{
    set_node_type(page, NodeType::Leaf);
    set_node_root(page, false);
    set_leaf_node_num_cells(page, 0);
    set_leaf_node_next_leaf(page, 0);
    set_node_parent(page, INVALID_PAGE_NUM);
}

/// The layout constants of a leaf, evaluated.
pub proof fn lemma_leaf_layout()
    ensures
        LEAF_NODE_HEADER_SIZE == 14,
        LEAF_NODE_CELL_SIZE == 297,
        LEAF_NODE_SPACE_FOR_CELLS == 4082,
        LEAF_NODE_MAX_CELLS == 13,
        LEAF_NODE_RIGHT_SPLIT_COUNT == 7,
        LEAF_NODE_LEFT_SPLIT_COUNT == 7,
{
    assert(PAGE_SIZE == 4096);
    assert(LEAF_NODE_HEADER_SIZE == 14);
    assert(LEAF_NODE_SPACE_FOR_CELLS == 4082);
    assert(4082usize / 297usize == 13usize) by (nonlinear_arith);
}

/// Whether every key that the leaf's cell count names lies inside the page.
pub open spec fn leaf_keys_in_page(page: Seq<u8>) -> bool {
    page_leaf_num_cells(page) == 0 || leaf_key_in_page(page_leaf_num_cells(page) - 1)
}

/// The cell index that binary search over the cells `lo .. hi` settles on: a cell holding
/// `key` when it meets one, else the point where the range closes.
pub open spec fn search_cell(page: Seq<u8>, key: u32, lo: int, hi: int) -> int
    decreases hi - lo,
{
    if lo >= hi {
        lo
    } else {
        let mid = (lo + hi) / 2;
        let key_at_mid = page_leaf_key(page, mid);
        if key == key_at_mid {
            mid
        } else if key < key_at_mid {
            search_cell(page, key, lo, mid)
        } else {
            search_cell(page, key, mid + 1, hi)
        }
    }
}

/// `index` is where `key` sits in the leaf: the cell holding it, or the position between a
/// smaller key and a larger one where it would be inserted.
pub open spec fn is_cell_index_for(page: Seq<u8>, key: u32, index: int) -> bool {
    &&& 0 <= index <= page_leaf_num_cells(page)
    &&& (index < page_leaf_num_cells(page) && page_leaf_key(page, index) == key) || ((index
        < page_leaf_num_cells(page) ==> page_leaf_key(page, index) > key) && (index > 0
        ==> page_leaf_key(page, index - 1) < key))
}

/// Whether the leaf's keys are strictly increasing.
pub open spec fn leaf_keys_sorted(page: Seq<u8>) -> bool {
    forall|i: int, j: int|
        0 <= i < j < page_leaf_num_cells(page) ==> page_leaf_key(page, i) < page_leaf_key(page, j)
}

/// The cell that `leaf_node_find` reports for `key` in a leaf page.
pub open spec fn leaf_find_index(page: Seq<u8>, key: u32) -> int {
    search_cell(page, key, 0, page_leaf_num_cells(page) as int)
}

/// Binary search satisfies `is_cell_index_for` on every leaf, sorted or not.
pub proof fn lemma_search_cell(page: Seq<u8>, key: u32, lo: int, hi: int)
    requires
        0 <= lo <= hi <= page_leaf_num_cells(page),
        hi < page_leaf_num_cells(page) ==> page_leaf_key(page, hi) > key,
        lo > 0 ==> page_leaf_key(page, lo - 1) < key,
    ensures
        is_cell_index_for(page, key, search_cell(page, key, lo, hi)),
        lo <= search_cell(page, key, lo, hi) <= hi,
    decreases hi - lo,
{
    if lo < hi {
        let mid = (lo + hi) / 2;
        let key_at_mid = page_leaf_key(page, mid);
        if key == key_at_mid {
        } else if key < key_at_mid {
            lemma_search_cell(page, key, lo, mid);
        } else {
            lemma_search_cell(page, key, mid + 1, hi);
        }
    }
}

/// In a sorted leaf, `is_cell_index_for` names exactly one index.
pub proof fn lemma_cell_index_unique(page: Seq<u8>, key: u32, i: int, j: int)
    requires
        leaf_keys_sorted(page),
        is_cell_index_for(page, key, i),
        is_cell_index_for(page, key, j),
    ensures
        i == j,
{
    if i < j {
        assert(page_leaf_key(page, i) >= key);
        if j - 1 > i {
            assert(page_leaf_key(page, i) < page_leaf_key(page, j - 1));
        }
    } else if j < i {
        assert(page_leaf_key(page, j) >= key);
        if i - 1 > j {
            assert(page_leaf_key(page, j) < page_leaf_key(page, i - 1));
        }
    }
}

/// Finds a key or its sorted insertion position in a leaf.
///
/// The page must be a leaf whose cell count names only cells inside the page.
pub fn leaf_node_find(pager: &mut Pager, page_num: u32, key: u32) -> (position: (u32, u32))
    requires
        old(pager).wf(),
        page_num < TABLE_MAX_PAGES,
        leaf_keys_in_page(old(pager)@[page_num as int]),
    ensures
        position.0 == page_num,
        position.1 == leaf_find_index(old(pager)@[page_num as int], key),
        is_cell_index_for(old(pager)@[page_num as int], key, position.1 as int),
        final(pager).wf(),
        final(pager)@ == old(pager)@,
        final(pager).file_image() == old(pager).file_image(),
        final(pager).page_count() == if old(pager).page_count() > page_num {
            old(pager).page_count()
        } else {
            (page_num + 1) as u32
        },
{
    pager.fetch_page(page_num);
    let page = pager.cached_page(page_num);
    let num_cells = leaf_node_num_cells(page);
    let ghost contents = page@;
    proof {
        lemma_search_cell(contents, key, 0, num_cells as int);
    }
    let mut min_index: u32 = 0;
    let mut one_past_max_index: u32 = num_cells;
    while one_past_max_index != min_index
        invariant
            page@ == contents,
            contents == old(pager)@[page_num as int],
            pager.wf(),
            pager@ == old(pager)@,
            pager.file_image() == old(pager).file_image(),
            pager.page_count() == if old(pager).page_count() > page_num {
                old(pager).page_count()
            } else {
                (page_num + 1) as u32
            },
            num_cells == page_leaf_num_cells(contents),
            leaf_keys_in_page(contents),
            0 <= min_index <= one_past_max_index <= num_cells,
            search_cell(contents, key, 0, num_cells as int) == search_cell(
                contents,
                key,
                min_index as int,
                one_past_max_index as int,
            ),
        decreases one_past_max_index - min_index,
    {
        let index = (min_index + one_past_max_index) / 2;
        let key_at_index = leaf_node_key(page, index);
        if key == key_at_index {
            return (page_num, index);
        }
        if key < key_at_index {
            one_past_max_index = index;
        } else {
            min_index = index + 1;
        }
    }
    (page_num, min_index)
}

/// The bytes of a leaf cell holding `key` and the serialized row `value`.
pub open spec fn leaf_cell(key: u32, value: Seq<u8>) -> Seq<u8> {
    u32_le_bytes(key) + value
}

/// Leaf cell `i` of a page, as bytes.
pub open spec fn page_leaf_cell(page: Seq<u8>, i: int) -> Seq<u8> {
    page.subrange(leaf_cell_offset(i), leaf_cell_offset(i + 1))
}

/// A leaf page after `cell_bytes` is inserted as cell `cell`: the count grows by one, the
/// cells from `cell` on move one place right, and the new cell takes position `cell`.
/// (When `cell` lies past the last cell, nothing moves and the cell is written there.)
pub open spec fn leaf_with_cell_inserted(page: Seq<u8>, cell: int, cell_bytes: Seq<u8>) -> Seq<u8> {
    let n = page_leaf_num_cells(page) as int;
    let counted = put_u32(page, LEAF_NODE_NUM_CELLS_OFFSET as int, (n + 1) as u32);
    if cell <= n {
        splice(counted, leaf_cell_offset(cell), cell_bytes + page.subrange(leaf_cell_offset(cell), leaf_cell_offset(n)))
    } else {
        splice(counted, leaf_cell_offset(cell), cell_bytes)
    }
}

/// The cells of a leaf page, in order.
pub open spec fn page_leaf_cells(page: Seq<u8>) -> Seq<Seq<u8>> {
    Seq::new(page_leaf_num_cells(page) as nat, |i: int| page_leaf_cell(page, i))
}

/// The byte layout of a leaf after a cell is inserted at or before its last cell: the
/// cells shift as `Seq::insert` says and the other header fields stay.
pub proof fn lemma_inserted_leaf_layout(page: Seq<u8>, idx: int, cell: Seq<u8>)
    requires
        page.len() == PAGE_SIZE,
        page_leaf_num_cells(page) < 13,
        0 <= idx <= page_leaf_num_cells(page),
        cell.len() == 297,
    ensures
        ({
            let new_page = leaf_with_cell_inserted(page, idx, cell);
            &&& new_page.len() == PAGE_SIZE
            &&& page_leaf_num_cells(new_page) == page_leaf_num_cells(page) + 1
            &&& page_leaf_cells(new_page) == page_leaf_cells(page).insert(idx, cell)
            &&& new_page.subrange(0, 6) == page.subrange(0, 6)
            &&& page_leaf_next_leaf(new_page) == page_leaf_next_leaf(page)
        }),
{
    let n = page_leaf_num_cells(page) as int;
    let counted = put_u32(page, 6, (n + 1) as u32);
    lemma_put_u32_read(page, 6, (n + 1) as u32);
    let new_page = leaf_with_cell_inserted(page, idx, cell);
    assert(new_page.subrange(6, 10) =~= counted.subrange(6, 10));
    assert(new_page.subrange(0, 6) =~= page.subrange(0, 6));
    assert(new_page[10] == page[10] && new_page[11] == page[11] && new_page[12] == page[12]
        && new_page[13] == page[13]);
    assert forall|i: int| 0 <= i < n + 1 implies #[trigger] page_leaf_cell(new_page, i)
        == page_leaf_cells(page).insert(idx, cell)[i] by {
        if i < idx {
            assert(page_leaf_cell(new_page, i) =~= page_leaf_cell(page, i));
        } else if i == idx {
            assert(page_leaf_cell(new_page, i) =~= cell);
        } else {
            assert(page_leaf_cell(new_page, i) =~= page_leaf_cell(page, i - 1));
        }
    }
    assert(page_leaf_cells(new_page) =~= page_leaf_cells(page).insert(idx, cell));
}

/// A cell's key is the little-endian number in its first four bytes.
proof fn lemma_cell_key(page: Seq<u8>, i: int)
    requires
        page.len() == PAGE_SIZE,
        leaf_cell_in_page(i),
    ensures
        page_leaf_key(page, i) == le_u32_at(page_leaf_cell(page, i), 0),
{
}

/// The key at the front of a fresh cell is the key it was made with.
proof fn lemma_leaf_cell_key(key: u32, value: Seq<u8>)
    ensures
        le_u32_at(leaf_cell(key, value), 0) == key,
{
    assert((key % 0x100) as int + ((key / 0x100) % 0x100) as int * 0x100 + ((key / 0x1_0000)
        % 0x100) as int * 0x1_0000 + (key / 0x100_0000) as int * 0x100_0000 == key) by (bit_vector);
    assert((key / 0x100_0000) < 0x100) by (bit_vector);
}

/// Inserting a new key into a leaf with strictly increasing keys, at the position that
/// `leaf_node_find` reports, adds exactly that cell in front of the larger keys and keeps
/// the keys strictly increasing; the rest of the header is untouched.
pub proof fn lemma_insert_into_sorted_leaf(page: Seq<u8>, key: u32, value: Seq<u8>)
    requires
        page.len() == PAGE_SIZE,
        leaf_keys_sorted(page),
        page_leaf_num_cells(page) < LEAF_NODE_MAX_CELLS,
        value.len() == LEAF_NODE_VALUE_SIZE,
        !(leaf_find_index(page, key) < page_leaf_num_cells(page) && page_leaf_key(
            page,
            leaf_find_index(page, key),
        ) == key),
    ensures
        ({
            let idx = leaf_find_index(page, key);
            let cell = leaf_cell(key, value);
            let new_page = leaf_with_cell_inserted(page, idx, cell);
            &&& new_page.len() == PAGE_SIZE
            &&& page_leaf_num_cells(new_page) == page_leaf_num_cells(page) + 1
            &&& page_leaf_cells(new_page) == page_leaf_cells(page).insert(idx, cell)
            &&& page_leaf_key(new_page, idx) == key
            &&& leaf_keys_sorted(new_page)
            &&& new_page.subrange(0, LEAF_NODE_NUM_CELLS_OFFSET as int) == page.subrange(
                0,
                LEAF_NODE_NUM_CELLS_OFFSET as int,
            )
            &&& page_leaf_next_leaf(new_page) == page_leaf_next_leaf(page)
        }),
{
    lemma_leaf_layout();
    let n = page_leaf_num_cells(page) as int;
    lemma_search_cell(page, key, 0, n);
    let idx = leaf_find_index(page, key);
    let cell = leaf_cell(key, value);
    let new_page = leaf_with_cell_inserted(page, idx, cell);
    lemma_inserted_leaf_layout(page, idx, cell);
    lemma_leaf_cell_key(key, value);
    let cells = page_leaf_cells(page).insert(idx, cell);
    assert forall|i: int| 0 <= i < n + 1 implies #[trigger] page_leaf_key(new_page, i) == if i < idx {
        page_leaf_key(page, i)
    } else if i == idx {
        key
    } else {
        page_leaf_key(page, i - 1)
    } by {
        lemma_cell_key(new_page, i);
        assert(page_leaf_cell(new_page, i) == page_leaf_cells(new_page)[i]);
        if i < idx {
            lemma_cell_key(page, i);
            assert(cells[i] == page_leaf_cell(page, i));
        } else if i == idx {
        } else {
            lemma_cell_key(page, i - 1);
            assert(cells[i] == page_leaf_cell(page, i - 1));
        }
    }
}

impl Table {
    /// Inserts a row into a non-full leaf at the cursor's cell. Splitting a full leaf is not
    /// part of this operation: a full leaf is outside its contract.
    pub fn leaf_node_insert(&mut self, cursor: &Cursor, key: u32, value: &Row)
        requires
            old(self).pager.wf(),
            cursor.page_num < TABLE_MAX_PAGES,
            page_leaf_num_cells(old(self).pager@[cursor.page_num as int]) < LEAF_NODE_MAX_CELLS,
            leaf_cell_in_page(cursor.cell_num as int),
        ensures
            final(self).pager.wf(),
            final(self).root_page_num == old(self).root_page_num,
            final(self).pager@ == old(self).pager@.update(
                cursor.page_num as int,
                leaf_with_cell_inserted(
                    old(self).pager@[cursor.page_num as int],
                    cursor.cell_num as int,
                    leaf_cell(key, row_bytes(value.id, value.username@, value.email@)),
                ),
            ),
            final(self).pager.file_image() == old(self).pager.file_image(),
            final(self).pager.page_count() == if old(self).pager.page_count() > cursor.page_num {
                old(self).pager.page_count()
            } else {
                (cursor.page_num + 1) as u32
            },
    {
        proof {
            lemma_leaf_layout();
        }
        let page = self.pager.get_page(cursor.page_num);
        let ghost before = page@;
        let count = leaf_node_num_cells(page);
        shift_cells_right(page, cursor.cell_num, count);
        set_leaf_node_num_cells(page, count + 1);
        write_leaf_cell(page, cursor.cell_num, key, value);
        assert(page@ =~= leaf_with_cell_inserted(
            before,
            cursor.cell_num as int,
            leaf_cell(key, row_bytes(value.id, value.username@, value.email@)),
        ));
    }
}

/// Opens a gap at `insertion` by moving the cells `insertion .. count` one place right.
fn shift_cells_right(page: &mut Page, insertion: u32, count: u32)
    requires
        leaf_cell_in_page(count as int),
    ensures
        final(page)@ == if insertion < count {
            splice(
                old(page)@,
                leaf_cell_offset(insertion + 1),
                old(page)@.subrange(leaf_cell_offset(insertion as int), leaf_cell_offset(count as int)),
            )
        } else {
            old(page)@
        },
{
    let mut index = count;
    while index > insertion
        invariant
            leaf_cell_in_page(count as int),
            insertion <= index <= count || index == count,
            page@.len() == PAGE_SIZE,
            index < count ==> page@ == splice(
                old(page)@,
                leaf_cell_offset(index + 1),
                old(page)@.subrange(leaf_cell_offset(index as int), leaf_cell_offset(count as int)),
            ),
            index == count ==> page@ == old(page)@,
        decreases index,
    {
        index = index - 1;
        let source = leaf_node_cell_offset(index);
        let destination = leaf_node_cell_offset(index + 1);
        let ghost mid = page@;
        move_bytes(page, source, destination, LEAF_NODE_CELL_SIZE);
        assert(page@ =~= splice(
            old(page)@,
            leaf_cell_offset(index + 1),
            old(page)@.subrange(leaf_cell_offset(index as int), leaf_cell_offset(count as int)),
        ));
    }
}

/// Writes a key and serialized row into one leaf cell.
pub fn write_leaf_cell(page: &mut Page, cell_num: u32, key: u32, value: &Row)
    requires
        leaf_cell_in_page(cell_num as int),
    ensures
        final(page)@ == splice(
            old(page)@,
            leaf_cell_offset(cell_num as int),
            leaf_cell(key, row_bytes(value.id, value.username@, value.email@)),
        ),
{
    set_leaf_node_key(page, cell_num, key);
    proof {
        lemma_put_u32_splice(old(page)@, leaf_cell_offset(cell_num as int), key);
    }
    let ghost keyed = page@;
    let value_start = leaf_node_cell_offset(cell_num) + LEAF_NODE_VALUE_OFFSET;
    let whole: &mut [u8] = page;
    let (_front, rest) = whole.split_at_mut(value_start);
    let (cell_value, _back) = rest.split_at_mut(LEAF_NODE_VALUE_SIZE);
    value.serialize_into(cell_value);
    assert(page@ =~= splice(
        old(page)@,
        leaf_cell_offset(cell_num as int),
        leaf_cell(key, row_bytes(value.id, value.username@, value.email@)),
    ));
}

} // verus!
