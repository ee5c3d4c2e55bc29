//! Coordinates pages, nodes, and cursors as one database table.
use vstd::prelude::*;

use crate::btree::cursor::Cursor;
use crate::btree::internal::internal_node_find;
use crate::btree::leaf::{
    initialize_leaf_node, initialized_leaf, leaf_find_index, leaf_node_find, leaf_node_num_cells,
    page_leaf_next_leaf, page_leaf_num_cells,
};
use crate::btree::node::{
    find_leaf, get_node_type, page_is_root, page_node_type, page_parent, set_node_root,
    subtree_ok, valid_tree, NodeType, IS_ROOT_OFFSET, NODE_TYPE_OFFSET,
};
use crate::config::{INVALID_PAGE_NUM, PAGE_SIZE, TABLE_MAX_PAGES};
use crate::storage::codec::{le_u32_at, lemma_put_u32_read, put_u32};
use crate::error::DatabaseError;
use crate::storage::page::zero_page;
use crate::storage::pager::{file_page, Pager};

verus! {

/// An open database table backed by a pager and B-tree root.
pub struct Table {
    pub pager: Pager,
    pub root_page_num: u32,
}

/// The root page that a new database starts with: an empty leaf marked as the root.
pub open spec fn new_root_leaf() -> Seq<u8> {
    initialized_leaf(zero_page()).update(IS_ROOT_OFFSET as int, 1u8)
}

/// The root page of a new database is an empty leaf with no successor.
pub proof fn lemma_new_root_leaf()
    ensures
        new_root_leaf().len() == PAGE_SIZE,
        new_root_leaf()[NODE_TYPE_OFFSET as int] == 1,
        page_node_type(new_root_leaf()) is Leaf,
        page_leaf_num_cells(new_root_leaf()) == 0,
        page_leaf_next_leaf(new_root_leaf()) == 0,
        page_is_root(new_root_leaf()),
        page_parent(new_root_leaf()) == INVALID_PAGE_NUM,
{
    let a = zero_page().update(0, 1u8).update(1, 0u8);
    let b = put_u32(a, 6, 0);
    let c = put_u32(b, 10, 0);
    let d = put_u32(c, 2, INVALID_PAGE_NUM);
    lemma_put_u32_read(a, 6, 0);
    lemma_put_u32_read(b, 10, 0);
    lemma_put_u32_read(c, 2, INVALID_PAGE_NUM);
    assert(le_u32_at(d, 6) == le_u32_at(c, 6));
    assert(le_u32_at(d, 10) == le_u32_at(c, 10));
    assert(le_u32_at(c, 6) == le_u32_at(b, 6));
}

/// The pages of a table opened on `file`: the file's pages, with an empty root leaf in
/// page 0 when the file is empty.
pub open spec fn opened_pages(file: Seq<u8>) -> Seq<Seq<u8>> {
    let pages = Seq::new(TABLE_MAX_PAGES as nat, |n: int| file_page(file, n));
    if file.len() == 0 {
        pages.update(0, new_root_leaf())
    } else {
        pages
    }
}

/// The cursor that `Table::find` returns for `key`.
pub open spec fn find_cursor(mem: Seq<Seq<u8>>, root: u32, key: u32) -> Cursor {
    let leaf = find_leaf(mem, root, key);
    Cursor { page_num: leaf, cell_num: leaf_find_index(mem[leaf as int], key) as u32, end_of_table: false }
}

/// The cursor that `Table::start` returns: the position of key 0, at the end of the table
/// when that leaf is empty.
pub open spec fn start_cursor(mem: Seq<Seq<u8>>, root: u32) -> Cursor {
    let c = find_cursor(mem, root, 0);
    Cursor { end_of_table: page_leaf_num_cells(mem[c.page_num as int]) == 0, ..c }
}

impl Table {
    /// The table's pager is consistent and its root heads a valid tree.
    pub open spec fn table_ok(&self) -> bool {
        &&& self.pager.wf()
        &&& valid_tree(self.pager@, self.root_page_num)
    }

    /// Opens a database file image and initializes an empty root for a new file.
    ///
    /// A file that is not a whole number of pages gives `CorruptDatabase`.
    pub fn open(file: Vec<u8>) -> (result: Result<Self, DatabaseError>)
        requires
            file@.len() / 4096 <= u32::MAX,
        ensures
            result is Err <==> file@.len() % 4096 != 0,
            result matches Err(e) ==> e is CorruptDatabase,
            result matches Ok(table) ==> {
                &&& table.pager.wf()
                &&& table.root_page_num == 0
                &&& table.pager.file_image() == file@
                &&& table.pager@ == opened_pages(file@)
                &&& table.pager.page_count() == if file@.len() == 0 {
                    1
                } else {
                    file@.len() / 4096
                }
                &&& file@.len() == 0 ==> table.table_ok()
            },
    {
        let mut pager = match Pager::open(file) {
            Ok(pager) => pager,
            Err(e) => return Err(e),
        };
        let root_page_num: u32 = 0;
        if pager.num_pages() == 0 {
            proof {
                assert(pager@[0] == zero_page());
            }
            let root_node = pager.get_page(0);
            initialize_leaf_node(root_node);
            set_node_root(root_node, true);
        }
        proof {
            if pager.file_image().len() == 0 {
                lemma_new_root_leaf();
                assert(subtree_ok(pager@, 0, 0));
            }
        }
        Ok(Table { pager, root_page_num })
    }

    /// Finds a key or its sorted insertion position.
    pub fn find(&mut self, key: u32) -> (cursor: Cursor)
        requires
            old(self).table_ok(),
        ensures
            cursor == find_cursor(old(self).pager@, old(self).root_page_num, key),
            final(self).table_ok(),
            final(self).root_page_num == old(self).root_page_num,
            final(self).pager@ == old(self).pager@,
            final(self).pager.file_image() == old(self).pager.file_image(),
            old(self).pager.page_count() <= final(self).pager.page_count(),
            final(self).pager.page_count() == old(self).pager.page_count()
                || final(self).pager.page_count() <= TABLE_MAX_PAGES,
    {
        let ghost mem = self.pager@;
        let root = self.root_page_num;
        proof {
            let h = choose|h: nat| subtree_ok(mem, root, h);
            assert(subtree_ok(mem, root, h));
        }
        self.pager.fetch_page(root);
        let root_type = get_node_type(self.pager.cached_page(root));
        let (page_num, cell_num) = match root_type {
            NodeType::Leaf => leaf_node_find(&mut self.pager, root, key),
            NodeType::Internal => internal_node_find(&mut self.pager, root, key),
        };
        Cursor { page_num, cell_num, end_of_table: false }
    }

    /// Returns a cursor positioned at the first row.
    pub fn start(&mut self) -> (cursor: Cursor)
        requires
            old(self).table_ok(),
        ensures
            cursor == start_cursor(old(self).pager@, old(self).root_page_num),
            final(self).table_ok(),
            final(self).root_page_num == old(self).root_page_num,
            final(self).pager@ == old(self).pager@,
            final(self).pager.file_image() == old(self).pager.file_image(),
            old(self).pager.page_count() <= final(self).pager.page_count(),
            final(self).pager.page_count() == old(self).pager.page_count()
                || final(self).pager.page_count() <= TABLE_MAX_PAGES,
    {
        let mut cursor = self.find(0);
        proof {
            let mem = self.pager@;
            let h = choose|h: nat| subtree_ok(mem, self.root_page_num, h);
            crate::btree::internal::lemma_leaf_for_key(mem, self.root_page_num, 0, h);
        }
        self.pager.fetch_page(cursor.page_num);
        let num_cells = leaf_node_num_cells(self.pager.cached_page(cursor.page_num));
        cursor.end_of_table = num_cells == 0;
        cursor
    }

    /// Returns the page number that should be allocated next.
    pub fn get_unused_page_num(&self) -> (page_num: u32)
        ensures
            page_num == self.pager.page_count(),
    {
        self.pager.num_pages()
    }
}

/// Closing and reopening keeps a table: once every page is flushed, the file image is a
/// whole, non-empty number of pages that opens to the same pages, and so to the same
/// valid tree.
pub proof fn lemma_reopen_flushed(table: &Table)
    requires
        table.table_ok(),
        table.pager.flushed(),
        table.pager.page_count() > 0,
    ensures
        table.pager.file_image().len() > 0,
        table.pager.file_image().len() % 4096 == 0,
        table.pager.file_image().len() / 4096 <= u32::MAX,
        opened_pages(table.pager.file_image()) == table.pager@,
        valid_tree(opened_pages(table.pager.file_image()), table.root_page_num),
{
    let n = table.pager.page_count();
    let len = table.pager.file_image().len();
    assert(len % 4096 == 0 && len / 4096 == n) by (nonlinear_arith)
        requires
            len == n * 4096,
    ;
}

} // verus!
