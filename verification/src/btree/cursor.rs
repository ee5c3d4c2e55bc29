//! A position used for point lookups and ordered scans.
use vstd::prelude::*;

use crate::btree::leaf::{
    leaf_cell_in_page, leaf_node_next_leaf, leaf_node_num_cells, leaf_node_value_slice,
    page_leaf_next_leaf, page_leaf_num_cells, page_leaf_value,
};
use crate::btree::tree::Table;
use crate::config::TABLE_MAX_PAGES;
use crate::row::{decodes_to, Row};

verus! {

/// Location of one cell in a leaf page.
#[derive(Debug, Clone, Copy)]
pub struct Cursor {
    pub page_num: u32,
    pub cell_num: u32,
    pub end_of_table: bool,
}

/// Where `advance` moves a cursor that sits in the leaf `page`: to the next cell, or to
/// the first cell of the next leaf once the cells run out, or to the end of the table when
/// there is no next leaf (next leaf 0).
pub open spec fn advanced(cursor: Cursor, page: Seq<u8>) -> Cursor {
    let cell = cursor.cell_num + 1;
    if cell < page_leaf_num_cells(page) {
        Cursor { cell_num: cell as u32, ..cursor }
    } else if page_leaf_next_leaf(page) == 0 {
        Cursor { cell_num: cell as u32, end_of_table: true, ..cursor }
    } else {
        Cursor { page_num: page_leaf_next_leaf(page), cell_num: 0, ..cursor }
    }
}

impl Cursor {
    /// Decodes and returns the row at the current cursor position.
    pub fn value(&self, table: &mut Table) -> (row: Row)
        requires
            old(table).pager.wf(),
            self.page_num < TABLE_MAX_PAGES,
            leaf_cell_in_page(self.cell_num as int),
        ensures
            decodes_to(page_leaf_value(old(table).pager@[self.page_num as int], self.cell_num as int), row),
            final(table).pager.wf(),
            final(table).root_page_num == old(table).root_page_num,
            final(table).pager@ == old(table).pager@,
            final(table).pager.file_image() == old(table).pager.file_image(),
            final(table).pager.page_count() == if old(table).pager.page_count() > self.page_num {
                old(table).pager.page_count()
            } else {
                (self.page_num + 1) as u32
            },
    {
        table.pager.fetch_page(self.page_num);
        let page = table.pager.cached_page(self.page_num);
        let slice = leaf_node_value_slice(page, self.cell_num);
        Row::deserialize_from(slice)
    }

    /// Moves to the next cell, following the linked-leaf pointer when needed.
    pub fn advance(&mut self, table: &mut Table)
        requires
            old(table).pager.wf(),
            old(self).page_num < TABLE_MAX_PAGES,
            old(self).cell_num < u32::MAX,
        ensures
            *final(self) == advanced(*old(self), old(table).pager@[old(self).page_num as int]),
            final(table).pager.wf(),
            final(table).root_page_num == old(table).root_page_num,
            final(table).pager@ == old(table).pager@,
            final(table).pager.file_image() == old(table).pager.file_image(),
            final(table).pager.page_count() == if old(table).pager.page_count() > old(self).page_num {
                old(table).pager.page_count()
            } else {
                (old(self).page_num + 1) as u32
            },
    {
        table.pager.fetch_page(self.page_num);
        let page = table.pager.cached_page(self.page_num);
        let num_cells = leaf_node_num_cells(page);
        self.cell_num = self.cell_num + 1;
        if self.cell_num >= num_cells {
            let next_page_num = leaf_node_next_leaf(page);
            if next_page_num == 0 {
                self.end_of_table = true;
            } else {
                self.page_num = next_page_num;
                self.cell_num = 0;
            }
        }
    }
}

} // verus!
