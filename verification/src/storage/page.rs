//! General helpers for one fixed-size database page.
use vstd::prelude::*;

use crate::config::PAGE_SIZE;
use crate::storage::codec::{copy_bytes, splice};

verus! {

/// One fixed-size byte buffer used by storage and B-tree code.
pub type Page = [u8; PAGE_SIZE];

/// Heap-owned page suitable for the pager cache.
pub type BoxedPage = Box<Page>;

/// The contents of a freshly created page: `PAGE_SIZE` zero bytes.
pub open spec fn zero_page() -> Seq<u8> {
    Seq::new(PAGE_SIZE as nat, |i: int| 0u8)
}

/// Creates a zero-filled page.
pub fn new_page() -> (page: BoxedPage)
    ensures
        page@ == zero_page(),
{
    let page = Box::new([0u8; PAGE_SIZE]);
    assert(page@ =~= zero_page());
    page
}

/// Byte offset of a page inside the database file.
pub fn file_offset(page_number: u32) -> (offset: u64)
    ensures
        offset == page_number * PAGE_SIZE,
{
    assert(page_number as u64 * 4096 <= 0xffff_ffff_u64 * 4096) by (nonlinear_arith)
        requires page_number <= 0xffff_ffff_u32;
    page_number as u64 * PAGE_SIZE as u64
}

/// Sets every byte of a page to zero.
pub fn clear(page: &mut Page)
    ensures
        final(page)@ == zero_page(),
{
    let mut i: usize = 0;
    while i < PAGE_SIZE
        invariant
            0 <= i <= PAGE_SIZE,
            forall|j: int| 0 <= j < i ==> page@[j] == 0u8,
        decreases PAGE_SIZE - i,
    {
        page[i] = 0;
        i = i + 1;
    }
    assert(page@ =~= zero_page());
}

/// Copies every byte of `source` into `destination`.
pub fn copy_into(destination: &mut Page, source: &Page)
    ensures
        final(destination)@ == source@,
{
    *destination = *source;
}

/// The bytes `offset .. offset + length` of a page.
pub fn read_range(page: &Page, offset: usize, length: usize) -> (bytes: &[u8])
    requires
        offset + length <= PAGE_SIZE,
    ensures
        bytes@ == page@.subrange(offset as int, offset + length),
{
    let end = checked_end(offset, length);
    &page[offset..end]
}

/// Copies `bytes` into the page at `offset` and hands back the written range.
pub fn write_range<'a>(page: &'a mut Page, offset: usize, bytes: &[u8]) -> (written: &'a mut [u8])
    requires
        offset + bytes@.len() <= PAGE_SIZE,
    ensures
        written@ == bytes@,
        final(page)@ == old(page)@.subrange(0, offset as int) + final(written)@
            + old(page)@.subrange(offset + bytes@.len(), PAGE_SIZE as int),
        final(written)@.len() == bytes@.len(),
{
    let end = checked_end(offset, bytes.len());
    let whole: &mut [u8] = page;
    let (_front, rest) = whole.split_at_mut(offset);
    let (middle, _back) = rest.split_at_mut(end - offset);
    copy_bytes(middle, 0, bytes);
    assert(middle@ =~= bytes@);
    middle
}

/// The end of the range `offset .. offset + length`, which must lie inside a page.
fn checked_end(offset: usize, length: usize) -> (end: usize)
    requires
        offset + length <= PAGE_SIZE,
    ensures
        end == offset + length,
{
    offset + length
}

/// A range read gives back the bytes a range write put there, and the bytes outside
/// the range keep their values.
pub proof fn lemma_range_read_after_write(page: Seq<u8>, offset: int, bytes: Seq<u8>)
    requires
        page.len() == PAGE_SIZE,
        0 <= offset,
        offset + bytes.len() <= PAGE_SIZE,
    ensures
        ({
            let written = page.subrange(0, offset) + bytes + page.subrange(offset + bytes.len(), PAGE_SIZE as int);
            &&& written.len() == PAGE_SIZE
            &&& written.subrange(offset, offset + bytes.len()) == bytes
            &&& forall|i: int| 0 <= i < PAGE_SIZE && !(offset <= i < offset + bytes.len()) ==> #[trigger] written[i] == page[i]
        }),
{
    let written = page.subrange(0, offset) + bytes + page.subrange(offset + bytes.len(), PAGE_SIZE as int);
    assert(written.subrange(offset, offset + bytes.len()) =~= bytes);
}

} // verus!
