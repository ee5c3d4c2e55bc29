//! Executes validated statements against the B-tree table.
use vstd::prelude::*;

use crate::btree::cursor::{advanced, Cursor};
use crate::btree::internal::lemma_leaf_for_key;
use crate::btree::leaf::{
    leaf_cell, leaf_cell_in_page, leaf_key_in_page, leaf_node_key, leaf_node_num_cells,
    leaf_with_cell_inserted, page_leaf_key, page_leaf_next_leaf, page_leaf_num_cells, page_leaf_value,
    LEAF_NODE_MAX_CELLS,
};
use crate::btree::node::{check_subtree, lemma_subtree_leaf_update, subtree_ok, tree_height};
use crate::btree::tree::{find_cursor, start_cursor, Table};
use crate::config::TABLE_MAX_PAGES;
use crate::row::{decodes_to, row_bytes, Row};

verus! {

#[derive(Debug, PartialEq, Eq)]
pub enum ExecuteError {
    DuplicateKey,
    TableFull,
}

/// Whether the leaf that a lookup of `key` reaches already holds `key` at the found cell.
pub open spec fn key_present(mem: Seq<Seq<u8>>, root: u32, key: u32) -> bool {
    let c = find_cursor(mem, root, key);
    let leaf = mem[c.page_num as int];
    c.cell_num < page_leaf_num_cells(leaf) && page_leaf_key(leaf, c.cell_num as int) == key
}

/// Whether inserting `key` either meets a duplicate or finds room in its leaf.
pub open spec fn insert_has_room(mem: Seq<Seq<u8>>, root: u32, key: u32) -> bool {
    key_present(mem, root, key) || page_leaf_num_cells(mem[find_cursor(mem, root, key).page_num as int])
        < LEAF_NODE_MAX_CELLS
}

/// The pages after inserting `row` at the position that a lookup of its ID reaches.
pub open spec fn pages_after_insert(mem: Seq<Seq<u8>>, root: u32, row: Row) -> Seq<Seq<u8>> {
    let c = find_cursor(mem, root, row.id);
    mem.update(
        c.page_num as int,
        leaf_with_cell_inserted(
            mem[c.page_num as int],
            c.cell_num as int,
            leaf_cell(row.id, row_bytes(row.id, row.username@, row.email@)),
        ),
    )
}

/// A leaf with fewer than `LEAF_NODE_MAX_CELLS` cells always has room: whenever the leaf
/// that a lookup of `key` reaches holds fewer cells than that, inserting `key` is allowed,
/// whether or not `key` is already there.
pub proof fn lemma_leaf_below_capacity_has_room(mem: Seq<Seq<u8>>, root: u32, key: u32)
    requires
        page_leaf_num_cells(mem[find_cursor(mem, root, key).page_num as int]) < LEAF_NODE_MAX_CELLS,
    ensures
        insert_has_room(mem, root, key),
{
}

/// Whether `execute_insert` can take a row with ID `key`: the ID is already present (a
/// duplicate), or the leaf it belongs in has a free cell.
pub fn insert_fits(table: &mut Table, key: u32) -> (fits: bool)
    requires
        old(table).table_ok(),
    ensures
        fits == insert_has_room(old(table).pager@, old(table).root_page_num, key),
        page_leaf_num_cells(old(table).pager@[find_cursor(old(table).pager@, old(table).root_page_num, key).page_num as int])
            < LEAF_NODE_MAX_CELLS ==> fits,
        final(table).table_ok(),
        final(table).root_page_num == old(table).root_page_num,
        final(table).pager@ == old(table).pager@,
        final(table).pager.file_image() == old(table).pager.file_image(),
        old(table).pager.page_count() <= final(table).pager.page_count(),
        final(table).pager.page_count() == old(table).pager.page_count()
            || final(table).pager.page_count() <= TABLE_MAX_PAGES,
{
    let ghost mem = table.pager@;
    let ghost root = table.root_page_num;
    let cursor = table.find(key);
    proof {
        table.pager.lemma_view_valid();
        lemma_leaf_for_key(mem, root, key, tree_height(mem, root));
        crate::btree::leaf::lemma_search_cell(mem[cursor.page_num as int], key, 0, page_leaf_num_cells(mem[cursor.page_num as int]) as int);
        crate::btree::leaf::lemma_leaf_layout();
    }
    table.pager.fetch_page(cursor.page_num);
    let page = table.pager.cached_page(cursor.page_num);
    let num_cells = leaf_node_num_cells(page);
    if cursor.cell_num < num_cells {
        let key_at_index = leaf_node_key(page, cursor.cell_num);
        if key_at_index == key {
            return true;
        }
    }
    (num_cells as usize) < LEAF_NODE_MAX_CELLS
}

/// Inserts one row unless its ID already exists.
///
/// A leaf that is already full when the ID is new is outside this function's contract
/// (leaf splitting is not implemented).
pub fn execute_insert(row_to_insert: Row, table: &mut Table) -> (result: Result<(), ExecuteError>)
    requires
        old(table).table_ok(),
        insert_has_room(old(table).pager@, old(table).root_page_num, row_to_insert.id),
    ensures
        final(table).table_ok(),
        final(table).root_page_num == old(table).root_page_num,
        final(table).pager.file_image() == old(table).pager.file_image(),
        key_present(old(table).pager@, old(table).root_page_num, row_to_insert.id) ==> result
            == Err::<(), ExecuteError>(ExecuteError::DuplicateKey) && final(table).pager@ == old(table).pager@,
        !key_present(old(table).pager@, old(table).root_page_num, row_to_insert.id) ==> result
            == Ok::<(), ExecuteError>(()) && final(table).pager@ == pages_after_insert(
            old(table).pager@,
            old(table).root_page_num,
            row_to_insert,
        ),
        scan_terminates(old(table).pager@, old(table).root_page_num) && !fills_empty_first_leaf(
            old(table).pager@,
            old(table).root_page_num,
            row_to_insert.id,
        ) ==> scan_terminates(final(table).pager@, final(table).root_page_num),
        old(table).pager.page_count() <= final(table).pager.page_count(),
        final(table).pager.page_count() == old(table).pager.page_count()
            || final(table).pager.page_count() <= TABLE_MAX_PAGES,
{
    let ghost mem = table.pager@;
    let ghost root = table.root_page_num;
    let key_to_insert = row_to_insert.id;
    let cursor = table.find(key_to_insert);
    proof {
        table.pager.lemma_view_valid();
        lemma_leaf_for_key(mem, root, key_to_insert, tree_height(mem, root));
        crate::btree::leaf::lemma_search_cell(mem[cursor.page_num as int], key_to_insert, 0, page_leaf_num_cells(mem[cursor.page_num as int]) as int);
        crate::btree::leaf::lemma_leaf_layout();
    }
    table.pager.fetch_page(cursor.page_num);
    let page = table.pager.cached_page(cursor.page_num);
    let num_cells = leaf_node_num_cells(page);
    if cursor.cell_num < num_cells {
        let key_at_index = leaf_node_key(page, cursor.cell_num);
        if key_at_index == key_to_insert {
            return Err(ExecuteError::DuplicateKey);
        }
    }
    table.leaf_node_insert(&cursor, key_to_insert, &row_to_insert);
    proof {
        let h = tree_height(mem, root);
        let new_page = table.pager@[cursor.page_num as int];
        assert(new_page[0] == mem[cursor.page_num as int][0]);
        assert(crate::btree::leaf::leaf_keys_in_page(new_page));
        lemma_subtree_leaf_update(mem, root, h, cursor.page_num, new_page);
        if scan_terminates(mem, root) && !fills_empty_first_leaf(mem, root, key_to_insert) {
            lemma_insert_keeps_scan_finite(mem, root, row_to_insert);
        }
    }
    Ok(())
}

/// The scan from `cursor` reaches the end of the table within `fuel` steps, visiting only
/// cells that lie inside cacheable pages.
pub open spec fn scan_ok(mem: Seq<Seq<u8>>, cursor: Cursor, fuel: nat) -> bool
    decreases fuel,
{
    cursor.end_of_table || (fuel > 0 && cursor.page_num < TABLE_MAX_PAGES && leaf_cell_in_page(
        cursor.cell_num as int,
    ) && scan_ok(mem, advanced(cursor, mem[cursor.page_num as int]), (fuel - 1) as nat))
}

/// The `(page, cell)` positions that a scan from `cursor` visits in at most `fuel` steps.
pub open spec fn scan_cells(mem: Seq<Seq<u8>>, cursor: Cursor, fuel: nat) -> Seq<(u32, u32)>
    decreases fuel,
{
    if cursor.end_of_table || fuel == 0 {
        seq![]
    } else {
        seq![(cursor.page_num, cursor.cell_num)] + scan_cells(
            mem,
            advanced(cursor, mem[cursor.page_num as int]),
            (fuel - 1) as nat,
        )
    }
}

/// Whether a full scan of the table ends.
pub open spec fn scan_terminates(mem: Seq<Seq<u8>>, root: u32) -> bool {
    exists|fuel: nat| scan_ok(mem, start_cursor(mem, root), fuel)
}

/// The positions that a full scan of the table visits, in order.
pub open spec fn table_scan(mem: Seq<Seq<u8>>, root: u32) -> Seq<(u32, u32)> {
    scan_cells(mem, start_cursor(mem, root), choose|fuel: nat| scan_ok(mem, start_cursor(mem, root), fuel))
}

/// The most cursor steps that a consistency check lets a full scan take: more than one
/// step per cell of every cacheable page.
pub const SCAN_STEP_LIMIT: u32 = 6000;

/// Checks that a scan from `cursor` ends within `fuel` steps, through cells that lie
/// inside cacheable pages.
fn check_scan(table: &mut Table, cursor: Cursor, fuel: u32) -> (ok: bool)
    requires
        old(table).pager.wf(),
    ensures
        ok == scan_ok(old(table).pager@, cursor, fuel as nat),
        final(table).pager.wf(),
        final(table).root_page_num == old(table).root_page_num,
        final(table).pager@ == old(table).pager@,
        final(table).pager.file_image() == old(table).pager.file_image(),
        old(table).pager.page_count() <= final(table).pager.page_count(),
        final(table).pager.page_count() == old(table).pager.page_count()
            || final(table).pager.page_count() <= TABLE_MAX_PAGES,
{
    let ghost mem = table.pager@;
    proof {
        crate::btree::leaf::lemma_leaf_layout();
    }
    let mut position = cursor;
    let mut remaining = fuel;
    while !position.end_of_table
        invariant
            table.pager.wf(),
            table.root_page_num == old(table).root_page_num,
            table.pager@ == mem,
            mem == old(table).pager@,
            table.pager.file_image() == old(table).pager.file_image(),
            old(table).pager.page_count() <= table.pager.page_count(),
            table.pager.page_count() == old(table).pager.page_count() || table.pager.page_count() <= TABLE_MAX_PAGES,
            crate::btree::leaf::LEAF_NODE_CELL_SIZE == 297,
            scan_ok(mem, cursor, fuel as nat) == scan_ok(mem, position, remaining as nat),
        decreases remaining,
    {
        if remaining == 0 || position.page_num as usize >= TABLE_MAX_PAGES
            || position.cell_num as usize >= LEAF_NODE_MAX_CELLS {
            assert(!leaf_cell_in_page(position.cell_num as int) || position.cell_num < LEAF_NODE_MAX_CELLS);
            return false;
        }
        let ghost before = position;
        position.advance(table);
        remaining = remaining - 1;
        assert(scan_ok(mem, before, (remaining + 1) as nat) == scan_ok(mem, position, remaining as nat));
    }
    true
}

/// Checks the table before work that needs it whole: the root heads a valid tree whose
/// height is at most the number of cacheable pages, and a full scan ends within
/// `SCAN_STEP_LIMIT` steps.
pub fn table_is_consistent(table: &mut Table) -> (ok: bool)
    requires
        old(table).pager.wf(),
    ensures
        ok == (subtree_ok(old(table).pager@, old(table).root_page_num, TABLE_MAX_PAGES as nat) && scan_ok(
            old(table).pager@,
            start_cursor(old(table).pager@, old(table).root_page_num),
            SCAN_STEP_LIMIT as nat,
        )),
        ok ==> final(table).table_ok() && scan_terminates(final(table).pager@, final(table).root_page_num),
        final(table).pager.wf(),
        final(table).root_page_num == old(table).root_page_num,
        final(table).pager@ == old(table).pager@,
        final(table).pager.file_image() == old(table).pager.file_image(),
        old(table).pager.page_count() <= final(table).pager.page_count(),
        final(table).pager.page_count() == old(table).pager.page_count()
            || final(table).pager.page_count() <= TABLE_MAX_PAGES,
{
    let root = table.root_page_num;
    if !check_subtree(&mut table.pager, root, TABLE_MAX_PAGES as u32) {
        return false;
    }
    let cursor = table.start();
    check_scan(table, cursor, SCAN_STEP_LIMIT)
}

/// Returns every row in ascending key order, as the REPL prints them.
///
/// A scan that never reaches the end of the table is outside this function's contract.
pub fn execute_select(table: &mut Table) -> (rows: Vec<Row>)
    requires
        old(table).table_ok(),
        scan_terminates(old(table).pager@, old(table).root_page_num),
    ensures
        rows@.len() == table_scan(old(table).pager@, old(table).root_page_num).len(),
        forall|i: int|
            0 <= i < rows@.len() ==> {
                let pos = #[trigger] table_scan(old(table).pager@, old(table).root_page_num)[i];
                decodes_to(page_leaf_value(old(table).pager@[pos.0 as int], pos.1 as int), rows@[i])
            },
        final(table).table_ok(),
        final(table).root_page_num == old(table).root_page_num,
        final(table).pager@ == old(table).pager@,
        final(table).pager.file_image() == old(table).pager.file_image(),
        old(table).pager.page_count() <= final(table).pager.page_count(),
        final(table).pager.page_count() == old(table).pager.page_count()
            || final(table).pager.page_count() <= TABLE_MAX_PAGES,
{
    let ghost mem = table.pager@;
    let ghost root = table.root_page_num;
    let ghost start = start_cursor(mem, root);
    let ghost total_fuel = choose|fuel: nat| scan_ok(mem, start, fuel);
    let ghost all = scan_cells(mem, start, total_fuel);
    let mut cursor = table.start();
    let mut rows: Vec<Row> = Vec::new();
    let ghost mut fuel = total_fuel;
    while !cursor.end_of_table
        invariant
            table.table_ok(),
            table.root_page_num == root,
            table.pager@ == mem,
            table.pager.file_image() == old(table).pager.file_image(),
            old(table).pager.page_count() <= table.pager.page_count(),
            table.pager.page_count() == old(table).pager.page_count() || table.pager.page_count()
                <= TABLE_MAX_PAGES,
            scan_ok(mem, cursor, fuel),
            all.len() == rows@.len() + scan_cells(mem, cursor, fuel).len(),
            forall|j: int| 0 <= j < scan_cells(mem, cursor, fuel).len() ==> #[trigger] scan_cells(mem, cursor, fuel)[j] == all[rows@.len() + j],
            forall|i: int|
                0 <= i < rows@.len() ==> decodes_to(page_leaf_value(mem[all[i].0 as int], all[i].1 as int), #[trigger] rows@[i]),
        decreases fuel,
    {
        let ghost before = cursor;
        let ghost done = rows@.len();
        let ghost rest = scan_cells(mem, before, fuel);
        assert(rest[0] == all[done as int]);
        let row = cursor.value(table);
        rows.push(row);
        cursor.advance(table);
        proof {
            let next = scan_cells(mem, cursor, (fuel - 1) as nat);
            assert(rest == seq![(before.page_num, before.cell_num)] + next);
            assert forall|j: int| 0 <= j < next.len() implies #[trigger] next[j] == all[rows@.len() + j] by {
                assert(next[j] == rest[j + 1]);
            }
            fuel = (fuel - 1) as nat;
        }
    }
    rows
}

/// A scan that starts at cell `i` of a root leaf with no successor visits the cells
/// `i .. n` of that leaf and then ends.
proof fn lemma_leaf_scan_from(mem: Seq<Seq<u8>>, root: u32, cursor: Cursor, fuel: nat)
    requires
        root < TABLE_MAX_PAGES,
        page_leaf_num_cells(mem[root as int]) <= LEAF_NODE_MAX_CELLS,
        crate::btree::leaf::page_leaf_next_leaf(mem[root as int]) == 0,
        cursor.page_num == root,
        cursor.end_of_table <==> cursor.cell_num >= page_leaf_num_cells(mem[root as int]),
        cursor.cell_num <= page_leaf_num_cells(mem[root as int]),
        fuel >= page_leaf_num_cells(mem[root as int]) - cursor.cell_num,
    ensures
        scan_ok(mem, cursor, fuel),
        scan_cells(mem, cursor, fuel) == Seq::new(
            (page_leaf_num_cells(mem[root as int]) - cursor.cell_num) as nat,
            |j: int| (root, (cursor.cell_num + j) as u32),
        ),
    decreases fuel,
{
    crate::btree::leaf::lemma_leaf_layout();
    let n = page_leaf_num_cells(mem[root as int]);
    if !cursor.end_of_table {
        let next = advanced(cursor, mem[root as int]);
        lemma_leaf_scan_from(mem, root, next, (fuel - 1) as nat);
        assert(scan_cells(mem, cursor, fuel) =~= Seq::new(
            (n - cursor.cell_num) as nat,
            |j: int| (root, (cursor.cell_num + j) as u32),
        ));
    } else {
        assert(scan_cells(mem, cursor, fuel) =~= Seq::<(u32, u32)>::empty());
    }
}

/// A scan that ends within `fuel` steps from cell `i` of a root leaf with no successor
/// takes at least the `n - i` steps that the remaining cells need.
proof fn lemma_leaf_scan_fuel(mem: Seq<Seq<u8>>, root: u32, cursor: Cursor, fuel: nat)
    requires
        page_leaf_next_leaf(mem[root as int]) == 0,
        cursor.page_num == root,
        cursor.end_of_table <==> cursor.cell_num >= page_leaf_num_cells(mem[root as int]),
        cursor.cell_num <= page_leaf_num_cells(mem[root as int]),
        scan_ok(mem, cursor, fuel),
    ensures
        fuel >= page_leaf_num_cells(mem[root as int]) - cursor.cell_num,
    decreases fuel,
{
    if !cursor.end_of_table {
        lemma_leaf_scan_fuel(mem, root, advanced(cursor, mem[root as int]), (fuel - 1) as nat);
    }
}

/// A table whose root is a single leaf with strictly increasing keys and no successor is
/// valid, and a full scan of it visits that leaf's cells in order: the rows come back in
/// ascending key order.
pub proof fn lemma_single_leaf_table_scan(mem: Seq<Seq<u8>>, root: u32)
    requires
        root < TABLE_MAX_PAGES,
        crate::btree::node::page_node_type(mem[root as int]) is Leaf,
        crate::btree::node::valid_node_type_byte(mem[root as int][0]),
        crate::btree::leaf::leaf_keys_sorted(mem[root as int]),
        page_leaf_num_cells(mem[root as int]) <= LEAF_NODE_MAX_CELLS,
        page_leaf_next_leaf(mem[root as int]) == 0,
    ensures
        subtree_ok(mem, root, 0),
        scan_terminates(mem, root),
        table_scan(mem, root) == Seq::new(
            page_leaf_num_cells(mem[root as int]) as nat,
            |i: int| (root, i as u32),
        ),
{
    crate::btree::leaf::lemma_leaf_layout();
    let page = mem[root as int];
    let n = page_leaf_num_cells(page);
    assert(subtree_ok(mem, root, 0));
    let h = tree_height(mem, root);
    assert(subtree_ok(mem, root, h));
    assert(crate::btree::node::find_leaf(mem, root, 0) == root);
    crate::btree::leaf::lemma_search_cell(page, 0, 0, n as int);
    let idx = crate::btree::leaf::leaf_find_index(page, 0);
    assert(crate::btree::leaf::is_cell_index_for(page, 0, 0));
    crate::btree::leaf::lemma_cell_index_unique(page, 0, idx, 0);
    let start = start_cursor(mem, root);
    assert(start.cell_num == 0);
    lemma_leaf_scan_from(mem, root, start, n as nat);
    let fuel = choose|fuel: nat| scan_ok(mem, start, fuel);
    lemma_leaf_scan_fuel(mem, root, start, fuel);
    lemma_leaf_scan_from(mem, root, start, fuel);
    assert(table_scan(mem, root) =~= Seq::new(n as nat, |i: int| (root, i as u32)));
}

/// Inserting a new row into a table held in one sorted leaf keeps it one sorted leaf: the
/// row's cell joins the leaf's cells at the position that keeps the keys increasing, and a
/// full scan then visits every cell, the new one included, in key order.
pub proof fn lemma_insert_then_scan(mem: Seq<Seq<u8>>, root: u32, row: Row)
    requires
        crate::storage::pager::valid_memory(mem),
        root < TABLE_MAX_PAGES,
        crate::btree::node::page_node_type(mem[root as int]) is Leaf,
        crate::btree::node::valid_node_type_byte(mem[root as int][0]),
        crate::btree::leaf::leaf_keys_sorted(mem[root as int]),
        page_leaf_num_cells(mem[root as int]) < LEAF_NODE_MAX_CELLS,
        page_leaf_next_leaf(mem[root as int]) == 0,
        !key_present(mem, root, row.id),
    ensures
        ({
            let after = pages_after_insert(mem, root, row);
            let idx = crate::btree::leaf::leaf_find_index(mem[root as int], row.id);
            let cell = leaf_cell(row.id, row_bytes(row.id, row.username@, row.email@));
            &&& subtree_ok(after, root, 0)
            &&& crate::btree::leaf::leaf_keys_sorted(after[root as int])
            &&& crate::btree::leaf::page_leaf_cells(after[root as int])
                == crate::btree::leaf::page_leaf_cells(mem[root as int]).insert(idx, cell)
            &&& scan_terminates(after, root)
            &&& table_scan(after, root) == Seq::new(
                (page_leaf_num_cells(mem[root as int]) + 1) as nat,
                |i: int| (root, i as u32),
            )
        }),
{
    crate::btree::leaf::lemma_leaf_layout();
    let page = mem[root as int];
    assert(subtree_ok(mem, root, 0));
    assert(subtree_ok(mem, root, tree_height(mem, root)));
    assert(find_cursor(mem, root, row.id).page_num == root);
    crate::btree::leaf::lemma_search_cell(page, row.id, 0, page_leaf_num_cells(page) as int);
    assert(find_cursor(mem, root, row.id).cell_num as int == crate::btree::leaf::leaf_find_index(page, row.id));
    let value = row_bytes(row.id, row.username@, row.email@);
    assert(value.len() == 293);
    crate::btree::leaf::lemma_insert_into_sorted_leaf(page, row.id, value);
    let after = pages_after_insert(mem, root, row);
    let new_page = after[root as int];
    assert(new_page[0] == page[0]) by {
        assert(new_page.subrange(0, 6)[0] == page.subrange(0, 6)[0]);
    }
    lemma_single_leaf_table_scan(after, root);
}

/// A scan that ends within `fuel` steps ends within any larger number of steps.
proof fn lemma_scan_fuel_more(mem: Seq<Seq<u8>>, cursor: Cursor, fuel: nat, more: nat)
    requires
        scan_ok(mem, cursor, fuel),
        fuel <= more,
    ensures
        scan_ok(mem, cursor, more),
    decreases fuel,
{
    if !cursor.end_of_table {
        lemma_scan_fuel_more(mem, advanced(cursor, mem[cursor.page_num as int]), (fuel - 1) as nat, (more - 1) as nat);
    }
}

/// Where a scan goes once it runs out of the cells of the leaf `page`: the first cell of
/// the next leaf, or the end of the table.
pub open spec fn leaf_exit(page: Seq<u8>) -> Cursor {
    if page_leaf_next_leaf(page) == 0 {
        Cursor { page_num: 0, cell_num: 0, end_of_table: true }
    } else {
        Cursor { page_num: page_leaf_next_leaf(page), cell_num: 0, end_of_table: false }
    }
}

/// `new` is `mem` with leaf `p` holding one cell more (all of them inside the page) and
/// the same successor.
pub open spec fn leaf_grown(mem: Seq<Seq<u8>>, new: Seq<Seq<u8>>, p: u32) -> bool {
    &&& mem.len() == TABLE_MAX_PAGES
    &&& p < TABLE_MAX_PAGES
    &&& new == mem.update(p as int, new[p as int])
    &&& page_leaf_num_cells(new[p as int]) == page_leaf_num_cells(mem[p as int]) + 1
    &&& page_leaf_num_cells(new[p as int]) <= LEAF_NODE_MAX_CELLS
    &&& page_leaf_next_leaf(new[p as int]) == page_leaf_next_leaf(mem[p as int])
}

/// Growing one leaf by a cell costs a scan at most one extra step per step: the step that
/// leaves the grown leaf now first visits its new last cell.
proof fn lemma_grown_scan(mem: Seq<Seq<u8>>, new: Seq<Seq<u8>>, p: u32, cursor: Cursor, fuel: nat)
    requires
        leaf_grown(mem, new, p),
        scan_ok(mem, cursor, fuel),
    ensures
        scan_ok(new, cursor, 2 * fuel),
    decreases fuel,
{
    crate::btree::leaf::lemma_leaf_layout();
    if !cursor.end_of_table {
        let next = advanced(cursor, mem[cursor.page_num as int]);
        lemma_grown_scan(mem, new, p, next, (fuel - 1) as nat);
        let n = page_leaf_num_cells(mem[p as int]);
        if cursor.page_num == p && cursor.cell_num + 1 == n {
            let last = advanced(cursor, new[p as int]);
            assert(!last.end_of_table && last.page_num == p && last.cell_num == n);
            assert(leaf_cell_in_page(n as int));
            let after = advanced(last, new[p as int]);
            if page_leaf_next_leaf(mem[p as int]) != 0 {
                assert(after == next);
            }
            assert(scan_ok(new, after, (2 * fuel - 2) as nat));
            assert(scan_ok(new, last, (2 * fuel - 1) as nat));
        } else {
            if cursor.page_num != p {
                assert(new[cursor.page_num as int] == mem[cursor.page_num as int]);
            }
            assert(advanced(cursor, new[cursor.page_num as int]) == next);
            lemma_scan_fuel_more(new, next, (2 * fuel - 2) as nat, (2 * fuel - 1) as nat);
        }
    }
}

/// A scan that ends from a cell of leaf `p` also ends from where it leaves that leaf.
proof fn lemma_scan_leaves_leaf(mem: Seq<Seq<u8>>, p: u32, cursor: Cursor, fuel: nat)
    requires
        scan_ok(mem, cursor, fuel),
        cursor.page_num == p,
        !cursor.end_of_table,
    ensures
        scan_ok(mem, leaf_exit(mem[p as int]), fuel),
    decreases fuel,
{
    let next = advanced(cursor, mem[p as int]);
    if cursor.cell_num + 1 < page_leaf_num_cells(mem[p as int]) {
        lemma_scan_leaves_leaf(mem, p, next, (fuel - 1) as nat);
        lemma_scan_fuel_more(mem, leaf_exit(mem[p as int]), (fuel - 1) as nat, fuel);
    } else if page_leaf_next_leaf(mem[p as int]) != 0 {
        assert(next == leaf_exit(mem[p as int]));
        lemma_scan_fuel_more(mem, next, (fuel - 1) as nat, fuel);
    }
}

/// From a cell of leaf `p` whose cells all lie in the page, a scan walks the rest of the
/// leaf and then goes on from where it leaves it.
proof fn lemma_scan_through_leaf(mem: Seq<Seq<u8>>, p: u32, cursor: Cursor, fuel: nat)
    requires
        p < TABLE_MAX_PAGES,
        cursor.page_num == p,
        !cursor.end_of_table,
        cursor.cell_num < page_leaf_num_cells(mem[p as int]),
        page_leaf_num_cells(mem[p as int]) <= LEAF_NODE_MAX_CELLS,
        scan_ok(mem, leaf_exit(mem[p as int]), fuel),
    ensures
        scan_ok(mem, cursor, (fuel + page_leaf_num_cells(mem[p as int]) - cursor.cell_num) as nat),
    decreases page_leaf_num_cells(mem[p as int]) - cursor.cell_num,
{
    crate::btree::leaf::lemma_leaf_layout();
    assert(leaf_cell_in_page(cursor.cell_num as int));
    let n = page_leaf_num_cells(mem[p as int]);
    let next = advanced(cursor, mem[p as int]);
    if cursor.cell_num + 1 < n {
        lemma_scan_through_leaf(mem, p, next, fuel);
        assert(scan_ok(mem, next, (fuel + n - cursor.cell_num - 1) as nat));
    } else if page_leaf_next_leaf(mem[p as int]) != 0 {
        assert(next == leaf_exit(mem[p as int]));
        assert(scan_ok(mem, next, (fuel + n - cursor.cell_num - 1) as nat));
    } else {
        assert(next.end_of_table);
        assert(scan_ok(mem, next, (fuel + n - cursor.cell_num - 1) as nat));
    }
}

/// A search for key 0 over a non-empty range of cells ends on one of those cells.
proof fn lemma_search_zero(page: Seq<u8>, lo: int, hi: int)
    requires
        lo < hi,
    ensures
        crate::btree::leaf::search_cell(page, 0, lo, hi) < hi,
    decreases hi - lo,
{
    let mid = (lo + hi) / 2;
    if 0 != page_leaf_key(page, mid) {
        assert(0 < page_leaf_key(page, mid));
        assert(crate::btree::leaf::search_cell(page, 0, lo, hi) == crate::btree::leaf::search_cell(page, 0, lo, mid));
        if lo < mid {
            lemma_search_zero(page, lo, mid);
        } else {
            assert(crate::btree::leaf::search_cell(page, 0, lo, mid) == lo);
        }
    }
}

/// The scan's first leaf is empty and has a successor, and a row with ID `key` goes into
/// it: the scan before the insert ends at once, without reading that successor.
pub open spec fn fills_empty_first_leaf(mem: Seq<Seq<u8>>, root: u32, key: u32) -> bool {
    let s = start_cursor(mem, root);
    &&& s.end_of_table
    &&& find_cursor(mem, root, key).page_num == s.page_num
    &&& page_leaf_next_leaf(mem[s.page_num as int]) != 0
}

/// Inserting a new row keeps a full scan of the table finite, unless the row lands in an
/// empty first leaf that has a successor, which the scan before never read.
pub proof fn lemma_insert_keeps_scan_finite(mem: Seq<Seq<u8>>, root: u32, row: Row)
    requires
        crate::storage::pager::valid_memory(mem),
        crate::btree::node::valid_tree(mem, root),
        insert_has_room(mem, root, row.id),
        !key_present(mem, root, row.id),
        scan_terminates(mem, root),
        !fills_empty_first_leaf(mem, root, row.id),
    ensures
        scan_terminates(pages_after_insert(mem, root, row), root),
{
    crate::btree::leaf::lemma_leaf_layout();
    let h = tree_height(mem, root);
    let c = find_cursor(mem, root, row.id);
    let p = c.page_num;
    lemma_leaf_for_key(mem, root, row.id, h);
    let page = mem[p as int];
    let n = page_leaf_num_cells(page);
    crate::btree::leaf::lemma_search_cell(page, row.id, 0, n as int);
    let value = row_bytes(row.id, row.username@, row.email@);
    assert(value.len() == 293);
    let cell = leaf_cell(row.id, value);
    crate::btree::leaf::lemma_inserted_leaf_layout(page, c.cell_num as int, cell);
    let new = pages_after_insert(mem, root, row);
    let new_page = new[p as int];
    assert(new =~= mem.update(p as int, new_page));
    assert(leaf_grown(mem, new, p));
    assert(new_page[0] == page[0]) by {
        assert(new_page.subrange(0, 6)[0] == page.subrange(0, 6)[0]);
    }
    assert(leaf_key_in_page(n as int));
    crate::btree::node::lemma_subtree_leaf_update(mem, root, h, p, new_page);
    let hn = tree_height(new, root);
    assert(subtree_ok(new, root, hn));
    crate::btree::node::lemma_leaf_for_key_height(new, root, 0, hn, h);
    crate::btree::node::lemma_leaf_for_key_leaf_update(mem, root, 0, h, p, new_page);
    lemma_leaf_for_key(mem, root, 0, h);
    let s = start_cursor(mem, root);
    let s2 = start_cursor(new, root);
    let l0 = s.page_num;
    assert(s2.page_num == l0);
    let fuel = choose|fuel: nat| scan_ok(mem, s, fuel);
    if l0 != p {
        assert(new[l0 as int] == mem[l0 as int]);
        assert(s2 == s);
        lemma_grown_scan(mem, new, p, s, fuel);
        assert(scan_ok(new, s2, 2 * fuel));
    } else {
        assert(page_leaf_num_cells(new_page) == n + 1);
        lemma_search_zero(new_page, 0, page_leaf_num_cells(new_page) as int);
        crate::btree::leaf::lemma_search_cell(new_page, 0, 0, page_leaf_num_cells(new_page) as int);
        assert(crate::btree::leaf::leaf_find_index(new_page, 0) < n + 1);
        assert(s2.cell_num == crate::btree::leaf::leaf_find_index(new_page, 0));
        assert(!s2.end_of_table && s2.cell_num < n + 1);
        if n > 0 {
            lemma_search_zero(page, 0, n as int);
            lemma_scan_leaves_leaf(mem, p, s, fuel);
            lemma_grown_scan(mem, new, p, leaf_exit(page), fuel);
            assert(leaf_exit(new_page) == leaf_exit(page));
            lemma_scan_through_leaf(new, p, s2, 2 * fuel);
        } else {
            assert(leaf_exit(new_page).end_of_table);
            lemma_scan_through_leaf(new, p, s2, 0);
        }
    }
}

} // verus!
