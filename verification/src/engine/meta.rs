//! The metadata page of the storage engine: a tag and the number of the root page.
use vstd::prelude::*;

use crate::config::PAGE_SIZE;
use crate::engine::disk::{disk_page, disk_written, Pager};
use crate::error::DatabaseError;
use crate::storage::codec::{le_u32_at, lemma_put_u32_read, put_u32, read_u32_le, write_u32_le};

verus! {

broadcast use vstd::array::group_array_axioms;

pub const META_PAGE_ID: u32 = 0;
pub const INITIAL_ROOT_PAGE_ID: u32 = 1;

/// The tag that opens the metadata page: the bytes of "SQLBTREE".
pub open spec fn meta_magic() -> Seq<u8> {
    seq![83u8, 81u8, 76u8, 66u8, 84u8, 82u8, 69u8, 69u8]
}

/// The metadata page that names `root` as the root page.
pub open spec fn meta_page(root: u32) -> Seq<u8> {
    put_u32(Seq::new(PAGE_SIZE as nat, |i: int| if i < 8 { meta_magic()[i] } else { 0u8 }), 8, root)
}

/// The root page that a metadata page names, if it carries the tag.
pub open spec fn meta_root(page: Seq<u8>) -> Option<u32> {
    if page.len() == PAGE_SIZE && page.subrange(0, 8) == meta_magic() {
        Some(le_u32_at(page, 8))
    } else {
        None
    }
}

/// A written metadata page reads back the root it names.
pub proof fn lemma_meta_round_trip(root: u32)
    ensures
        meta_root(meta_page(root)) == Some(root),
        meta_page(root).len() == PAGE_SIZE,
{
    let base = Seq::new(PAGE_SIZE as nat, |i: int| if i < 8 { meta_magic()[i] } else { 0u8 });
    lemma_put_u32_read(base, 8, root);
    assert(meta_page(root).subrange(0, 8) =~= meta_magic());
}

/// Reads the root page number from the metadata page; a page without the tag gives
/// `CorruptDatabase`.
pub fn read_metadata(pager: &Pager) -> (result: Result<u32, DatabaseError>)
    requires
        pager.wf(),
    ensures
        match meta_root(disk_page(pager@, META_PAGE_ID as int)) {
            Some(root) => result == Ok::<u32, DatabaseError>(root),
            None => result matches Err(e) && e is CorruptDatabase,
        },
{
    proof {
        pager.lemma_pages();
    }
    let page = pager.read_page(META_PAGE_ID);
    let magic: [u8; 8] = [83, 81, 76, 66, 84, 82, 69, 69];
    assert(magic@ == meta_magic());
    let mut i: usize = 0;
    while i < 8
        invariant
            0 <= i <= 8,
            page@.len() == PAGE_SIZE,
            page@ == disk_page(pager@, META_PAGE_ID as int),
            magic@ == meta_magic(),
            forall|j: int| 0 <= j < i ==> page@[j] == meta_magic()[j],
        decreases 8 - i,
    {
        if page[i] != magic[i] {
            assert(page@.subrange(0, 8)[i as int] != meta_magic()[i as int]);
            return Err(DatabaseError::corrupt("database header magic mismatch"));
        }
        i = i + 1;
    }
    assert(page@.subrange(0, 8) =~= meta_magic());
    Ok(read_u32_le(&page, 8))
}

/// Writes the metadata page naming `root_page` as the root.
pub fn write_metadata(pager: &mut Pager, root_page: u32)
    requires
        old(pager).wf(),
    ensures
        final(pager).wf(),
        final(pager)@ == disk_written(old(pager)@, META_PAGE_ID as int, meta_page(root_page)),
{
    let mut page = [0u8; PAGE_SIZE];
    let magic: [u8; 8] = [83, 81, 76, 66, 84, 82, 69, 69];
    let mut i: usize = 0;
    while i < 8
        invariant
            0 <= i <= 8,
            magic@ == meta_magic(),
            forall|j: int| 0 <= j < i ==> page@[j] == meta_magic()[j],
            forall|j: int| i <= j < PAGE_SIZE ==> page@[j] == 0u8,
        decreases 8 - i,
    {
        page[i] = magic[i];
        i = i + 1;
    }
    assert(page@ =~= Seq::new(PAGE_SIZE as nat, |i: int| if i < 8 { meta_magic()[i] } else { 0u8 }));
    write_u32_le(&mut page, 8, root_page);
    pager.write_page(META_PAGE_ID, &page);
}

} // verus!
