//! The page file under the storage engine: an image of the database file, read and
//! written one page at a time.
use vstd::prelude::*;

use crate::config::PAGE_SIZE;
use crate::error::DatabaseError;
use crate::storage::page::zero_page;
use crate::storage::pager::{file_page, lemma_written_file_pages, written_file};

verus! {

broadcast use vstd::array::group_array_axioms;

/// Page `p` as a read sees it: the stored page, or zeros past the end of the file.
pub open spec fn disk_page(disk: Seq<Seq<u8>>, p: int) -> Seq<u8> {
    if 0 <= p < disk.len() {
        disk[p]
    } else {
        zero_page()
    }
}

/// The pages after page `p` is written with `page`: past the end, the file first grows
/// with zero pages.
pub open spec fn disk_written(disk: Seq<Seq<u8>>, p: int, page: Seq<u8>) -> Seq<Seq<u8>> {
    if p < disk.len() {
        disk.update(p, page)
    } else {
        disk + Seq::new((p - disk.len()) as nat, |i: int| zero_page()) + seq![page]
    }
}

pub struct Pager {
    file: Vec<u8>,
    page_count: u32,
}

impl View for Pager {
    type V = Seq<Seq<u8>>;

    /// The pages of the file, in order.
    closed spec fn view(&self) -> Seq<Seq<u8>> {
        Seq::new(self.page_count as nat, |n: int| file_page(self.file@, n))
    }
}

impl Pager {
    /// The file image the pager holds.
    pub closed spec fn file_image(&self) -> Seq<u8> {
        self.file@
    }

    /// The file holds exactly `page_count` pages.
    pub closed spec fn wf(&self) -> bool {
        self.file@.len() == self.page_count * 4096
    }

    /// Every page of a well-formed pager has `PAGE_SIZE` bytes, and the file image is the
    /// pages laid end to end.
    pub proof fn lemma_pages(&self)
        requires
            self.wf(),
        ensures
            forall|n: int| 0 <= n < self@.len() ==> (#[trigger] self@[n]).len() == PAGE_SIZE,
            self@.len() <= u32::MAX,
            self.file_image().len() == self@.len() * 4096,
            self@ == Seq::new(self@.len(), |n: int| file_page(self.file_image(), n)),
    {
    }

    /// Opens a file image, which must be a whole number of pages.
    pub fn open(file: Vec<u8>) -> (result: Result<Pager, DatabaseError>)
        requires
            file@.len() / 4096 <= u32::MAX,
        ensures
            result is Err <==> file@.len() % 4096 != 0,
            result matches Err(e) ==> e is CorruptDatabase,
            result matches Ok(pager) ==> pager.wf() && pager.file_image() == file@ && pager@
                == Seq::new((file@.len() / 4096) as nat, |n: int| file_page(file@, n)),
    {
        let file_len = file.len();
        if file_len % PAGE_SIZE != 0 {
            return Err(DatabaseError::corrupt("database file is not page-aligned"));
        }
        let page_count = (file_len / PAGE_SIZE) as u32;
        Ok(Pager { file, page_count })
    }

    /// The number of pages in the file.
    pub fn page_count(&self) -> (count: u32)
        ensures
            count == self@.len(),
    {
        self.page_count
    }

    /// Reads one page; a page past the end of the file reads as zeros.
    pub fn read_page(&self, page_id: u32) -> (page: [u8; PAGE_SIZE])
        requires
            self.wf(),
        ensures
            page@ == disk_page(self@, page_id as int),
    {
        let mut buf = [0u8; PAGE_SIZE];
        if page_id >= self.page_count {
            assert(buf@ =~= zero_page());
            return buf;
        }
        let file_len = self.file.len();
        assert(page_id * 4096 + 4096 <= file_len) by (nonlinear_arith)
            requires
                page_id < self.page_count,
                file_len == self.page_count * 4096,
        ;
        let offset = page_id as usize * PAGE_SIZE;
        let mut i: usize = 0;
        while i < PAGE_SIZE
            invariant
                self.wf(),
                page_id < self.page_count,
                offset == page_id * 4096,
                0 <= i <= PAGE_SIZE,
                forall|j: int| 0 <= j < i ==> buf@[j] == self.file@[offset + j],
            decreases PAGE_SIZE - i,
        {
            assert(offset + i < self.file@.len()) by (nonlinear_arith)
                requires
                    offset == page_id * 4096,
                    page_id < self.page_count,
                    i < 4096,
                    self.file@.len() == self.page_count * 4096,
            ;
            buf[i] = self.file[offset + i];
            i = i + 1;
        }
        proof {
            assert((page_id + 1) * 4096 <= self.file@.len()) by (nonlinear_arith)
                requires
                    page_id < self.page_count,
                    self.file@.len() == self.page_count * 4096,
            ;
        }
        assert(buf@ =~= disk_page(self@, page_id as int));
        buf
    }

    /// Writes one page; writing past the end grows the file with zero pages first.
    pub fn write_page(&mut self, page_id: u32, page: &[u8; PAGE_SIZE])
        requires
            old(self).wf(),
            page_id < u32::MAX,
            (page_id + 1) * 4096 <= usize::MAX,
        ensures
            final(self).wf(),
            final(self)@ == disk_written(old(self)@, page_id as int, page@),
    {
        let offset = page_id as usize * PAGE_SIZE;
        let ghost old_file = self.file@;
        let ghost extended = if old_file.len() < offset + 4096 {
            old_file + Seq::new((offset + 4096 - old_file.len()) as nat, |i: int| 0u8)
        } else {
            old_file
        };
        while self.file.len() < offset + PAGE_SIZE
            invariant
                offset == page_id * 4096,
                offset + 4096 <= usize::MAX,
                self.page_count == old(self).page_count,
                old_file.len() <= self.file@.len() <= extended.len(),
                self.file@ == extended.subrange(0, self.file@.len() as int),
                extended.len() == if old_file.len() < offset + 4096 {
                    offset + 4096
                } else {
                    old_file.len() as int
                },
                forall|i: int| old_file.len() <= i < extended.len() ==> extended[i] == 0u8,
                forall|i: int| 0 <= i < old_file.len() ==> extended[i] == old_file[i],
            decreases offset + PAGE_SIZE - self.file@.len(),
        {
            self.file.push(0);
            assert(self.file@ =~= extended.subrange(0, self.file@.len() as int));
        }
        assert(self.file@ =~= extended);
        let mut i: usize = 0;
        while i < PAGE_SIZE
            invariant
                offset == page_id * 4096,
                self.page_count == old(self).page_count,
                0 <= i <= PAGE_SIZE,
                self.file@.len() == extended.len(),
                offset + PAGE_SIZE <= extended.len(),
                forall|j: int|
                    0 <= j < extended.len() && !(offset <= j < offset + i) ==> self.file@[j]
                        == extended[j],
                forall|j: int| offset <= j < offset + i ==> self.file@[j] == page@[j - offset],
            decreases PAGE_SIZE - i,
        {
            self.file.set(offset + i, page[i]);
            i = i + 1;
        }
        assert(self.file@ =~= written_file(old_file, page_id as int, page@));
        if page_id >= self.page_count {
            self.page_count = page_id + 1;
        }
        proof {
            lemma_written_file_pages(old_file, page_id as int, page@, 0);
            let new_view = Seq::new(self.page_count as nat, |n: int| file_page(self.file@, n));
            let expected = disk_written(old(self)@, page_id as int, page@);
            assert(expected.len() == new_view.len());
            assert forall|n: int| 0 <= n < new_view.len() implies new_view[n] == expected[n] by {
                lemma_written_file_pages(old_file, page_id as int, page@, n);
                if n < old(self)@.len() {
                    assert(old(self)@[n] == file_page(old_file, n));
                } else if n < page_id {
                    assert(file_page(old_file, n) == zero_page());
                }
            }
            assert(new_view =~= expected);
        }
    }

    /// Appends a zero page and returns its number.
    pub fn allocate_page(&mut self) -> (page_id: u32)
        requires
            old(self).wf(),
            old(self)@.len() < u32::MAX,
            (old(self)@.len() + 1) * 4096 <= usize::MAX,
        ensures
            final(self).wf(),
            page_id == old(self)@.len(),
            final(self)@ == old(self)@.push(zero_page()),
    {
        let page_id = self.page_count;
        let zero = [0u8; PAGE_SIZE];
        assert(zero@ =~= zero_page());
        self.write_page(page_id, &zero);
        assert(disk_written(old(self)@, page_id as int, zero@) =~= old(self)@.push(zero_page()));
        page_id
    }

    /// The file image to hand to the disk when flushing.
    pub fn flush(&self) -> (image: Vec<u8>)
        ensures
            image@ == self.file_image(),
    {
        self.file.clone()
    }
}

} // verus!
