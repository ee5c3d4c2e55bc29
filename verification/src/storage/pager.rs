//! The database file's pages and the in-memory page cache.
//!
//! The pager owns an image of the database file. Pages are read from the image the first
//! time they are asked for and written back to it when flushed; moving the image to and
//! from the disk is left to the caller.
use vstd::prelude::*;

use crate::config::{PAGE_SIZE, TABLE_MAX_PAGES};
use crate::error::DatabaseError;
use crate::storage::codec::splice;
use crate::storage::page::{new_page, zero_page, BoxedPage, Page};

verus! {

broadcast use vstd::array::group_array_axioms;

/// Page `n` of a file image: its bytes when the file holds the whole page, else zeros.
pub open spec fn file_page(file: Seq<u8>, n: int) -> Seq<u8> {
    if 0 <= n && (n + 1) * 4096 <= file.len() {
        file.subrange(n * 4096, (n + 1) * 4096)
    } else {
        zero_page()
    }
}

/// A view of memory: one `PAGE_SIZE`-byte sequence for every cacheable page.
pub open spec fn valid_memory(mem: Seq<Seq<u8>>) -> bool {
    &&& mem.len() == TABLE_MAX_PAGES
    &&& forall|n: int| 0 <= n < TABLE_MAX_PAGES ==> (#[trigger] mem[n]).len() == PAGE_SIZE
}

/// The file image after page `n` is written into it with `page`: the file grows with zeros
/// up to the page's end when it is shorter.
pub open spec fn written_file(file: Seq<u8>, n: int, page: Seq<u8>) -> Seq<u8> {
    let end = (n + 1) * 4096;
    let extended = if file.len() < end {
        file + Seq::new((end - file.len()) as nat, |i: int| 0u8)
    } else {
        file
    };
    splice(extended, n * 4096, page)
}

/// Writing page `n` changes page `n` of the image and no other.
pub proof fn lemma_written_file_pages(file: Seq<u8>, n: int, page: Seq<u8>, m: int)
    requires
        file.len() % 4096 == 0,
        0 <= n,
        page.len() == PAGE_SIZE,
    ensures
        written_file(file, n, page).len() % 4096 == 0,
        written_file(file, n, page).len() == if file.len() < (n + 1) * 4096 {
            (n + 1) * 4096
        } else {
            file.len() as int
        },
        file_page(written_file(file, n, page), m) == if m == n {
            page
        } else {
            file_page(file, m)
        },
{
    let w = written_file(file, n, page);
    let end = (n + 1) * 4096;
    if m == n {
        assert(file_page(w, m) =~= page);
    } else if 0 <= m && (m + 1) * 4096 <= w.len() {
        if (m + 1) * 4096 <= file.len() {
            assert(file_page(w, m) =~= file_page(file, m));
        } else {
            assert(file_page(w, m) =~= zero_page());
        }
    } else {
        if 0 <= m && (m + 1) * 4096 <= file.len() {
            assert(false);
        }
    }
}

pub struct Pager {
    file: Vec<u8>,
    pub num_pages: u32,
    pages: Vec<Option<BoxedPage>>,
}

impl View for Pager {
    type V = Seq<Seq<u8>>;

    /// The current contents of every cacheable page, cached or not.
    closed spec fn view(&self) -> Seq<Seq<u8>> {
        Seq::new(TABLE_MAX_PAGES as nat, |n: int| self.page_view(n))
    }
}

impl Pager {
    /// The bytes of the database file as the pager holds them.
    pub closed spec fn file_image(&self) -> Seq<u8> {
        self.file@
    }

    /// The number of pages the database holds (the public field `num_pages`).
    pub closed spec fn page_count(&self) -> u32 {
        self.num_pages
    }

    /// Whether page `n` is in the cache.
    pub closed spec fn is_cached(&self, n: int) -> bool {
        self.pages@[n] is Some
    }

    closed spec fn page_view(&self, n: int) -> Seq<u8> {
        match self.pages@[n] {
            Some(page) => page@,
            None => file_page(self.file@, n),
        }
    }

    /// The pager's internal consistency.
    pub closed spec fn wf(&self) -> bool {
        &&& self.pages@.len() == TABLE_MAX_PAGES
        &&& self.file@.len() % 4096 == 0
        &&& self.file@.len() <= self.num_pages * 4096
        &&& forall|n: int| 0 <= n < TABLE_MAX_PAGES && (#[trigger] self.pages@[n]) is Some ==> n
            < self.num_pages
        &&& self.num_pages > 0 ==> (self.file@.len() == self.num_pages * 4096 || (self.num_pages
            <= TABLE_MAX_PAGES && self.pages@[self.num_pages - 1] is Some))
    }

    /// A page that is not in the cache shows the bytes the file image holds for it.
    pub proof fn lemma_uncached_page(&self, n: int)
        requires
            0 <= n < TABLE_MAX_PAGES,
            !self.is_cached(n),
        ensures
            self@[n] == file_page(self.file_image(), n),
    {
    }

    /// A well-formed pager shows one full page for every cacheable page number.
    pub proof fn lemma_view_valid(&self)
        requires
            self.wf(),
        ensures
            valid_memory(self@),
    {
    }
}

impl Pager {
    /// Opens a database file image, which must be a whole number of pages.
    pub fn open(file: Vec<u8>) -> (result: Result<Pager, DatabaseError>)
        requires
            file@.len() / 4096 <= u32::MAX,
        ensures
            file@.len() % 4096 != 0 <==> result is Err,
            result matches Err(e) ==> e is CorruptDatabase,
            result matches Ok(pager) ==> {
                &&& pager.wf()
                &&& pager.file_image() == file@
                &&& pager.page_count() == file@.len() / 4096
                &&& forall|n: int| 0 <= n < TABLE_MAX_PAGES ==> !pager.is_cached(n)
                &&& pager@ == Seq::new(TABLE_MAX_PAGES as nat, |n: int| file_page(file@, n))
            },
    {
        let file_length = file.len();
        if file_length % PAGE_SIZE != 0 {
            return Err(DatabaseError::corrupt("database file is not a whole number of pages"));
        }
        let num_pages = (file_length / PAGE_SIZE) as u32;
        let mut pages: Vec<Option<BoxedPage>> = Vec::new();
        let mut i: usize = 0;
        while i < TABLE_MAX_PAGES
            invariant
                0 <= i <= TABLE_MAX_PAGES,
                pages@.len() == i,
                forall|n: int| 0 <= n < i ==> (#[trigger] pages@[n]) is None,
            decreases TABLE_MAX_PAGES - i,
        {
            pages.push(None);
            i = i + 1;
        }
        let pager = Pager { file, num_pages, pages };
        assert(pager@ =~= Seq::new(TABLE_MAX_PAGES as nat, |n: int| file_page(pager.file@, n)));
        Ok(pager)
    }

    /// Returns a page for reading and writing, loading it from the file image on first use.
    ///
    /// A page number at or past `TABLE_MAX_PAGES` is outside this function's contract.
    pub fn get_page(&mut self, page_num: u32) -> (page: &mut Page)
        requires
            old(self).wf(),
            page_num < TABLE_MAX_PAGES,
        ensures
            page@ == old(self)@[page_num as int],
            final(self).wf(),
            final(self)@ == old(self)@.update(page_num as int, final(page)@),
            final(self).page_count() == if old(self).page_count() > page_num {
                old(self).page_count()
            } else {
                (page_num + 1) as u32
            },
            final(self).file_image() == old(self).file_image(),
            final(self).is_cached(page_num as int),
            forall|n: int|
                0 <= n < TABLE_MAX_PAGES && n != page_num ==> final(self).is_cached(n)
                    == old(self).is_cached(n),
    {
        let index = self.checked_page_index(page_num);
        self.fetch_page(page_num);
        let slot = self.pages[index].as_mut().unwrap();
        &mut **slot
    }

    /// The number of pages the database holds.
    pub fn num_pages(&self) -> (num_pages: u32)
        ensures
            num_pages == self.page_count(),
    {
        self.num_pages
    }

    /// Reads a page that is already in the cache.
    pub fn cached_page(&self, page_num: u32) -> (page: &Page)
        requires
            self.wf(),
            page_num < TABLE_MAX_PAGES,
            self.is_cached(page_num as int),
        ensures
            page@ == self@[page_num as int],
    {
        let index = self.checked_page_index(page_num);
        self.pages[index].as_ref().unwrap()
    }

    /// Makes sure page `page_num` is in the cache, loading it from the file image if needed
    /// (what `get_page` does before it hands the page out).
    pub fn fetch_page(&mut self, page_num: u32)
        requires
            old(self).wf(),
            page_num < TABLE_MAX_PAGES,
        ensures
            final(self).wf(),
            final(self)@ == old(self)@,
            final(self).is_cached(page_num as int),
            final(self).page_count() == if old(self).page_count() > page_num {
                old(self).page_count()
            } else {
                (page_num + 1) as u32
            },
            final(self).file_image() == old(self).file_image(),
            forall|n: int|
                0 <= n < TABLE_MAX_PAGES && n != page_num ==> final(self).is_cached(n)
                    == old(self).is_cached(n),
    {
        let index = page_num as usize;
        if self.pages[index].is_none() {
            let page = self.load_page(page_num);
            self.pages.set(index, Some(page));
            if self.num_pages <= page_num {
                self.num_pages = page_num + 1;
            }
        }
        assert(self@ =~= old(self)@);
        proof {
            if self.num_pages == old(self).num_pages && self.num_pages > 0 && self.file@.len()
                != self.num_pages * 4096 {
                assert(old(self).pages@[old(self).num_pages - 1] is Some);
                assert(self.pages@[self.num_pages - 1] is Some);
            }
        }
    }

    /// Writes a cached page back to the file image.
    ///
    /// A page number outside the cache gives the invalid-input error "page outside cache";
    /// an uncached page leaves the image as it is.
    pub fn flush(&mut self, page_num: u32) -> (result: Result<(), DatabaseError>)
        requires
            old(self).wf(),
        ensures
            final(self).wf(),
            final(self)@ == old(self)@,
            final(self).page_count() == old(self).page_count(),
            forall|n: int| 0 <= n < TABLE_MAX_PAGES ==> final(self).is_cached(n) == old(self).is_cached(n),
            result is Err <==> page_num >= TABLE_MAX_PAGES,
            result matches Err(e) ==> e matches DatabaseError::InvalidInput(m) && m@
                == "page outside cache"@,
            final(self).file_image() == if page_num < TABLE_MAX_PAGES && old(self).is_cached(
                page_num as int,
            ) {
                written_file(old(self).file_image(), page_num as int, old(self)@[page_num as int])
            } else {
                old(self).file_image()
            },
    {
        let index = self.page_index_for_flush(page_num)?;
        if let Some(page) = &self.pages[index] {
            let page_copy: Page = **page;
            self.write_page(page_num, &page_copy);
        }
        Ok(())
    }

    /// Whether the file image holds every page as the pager shows it, and no more pages.
    pub open spec fn flushed(&self) -> bool {
        &&& Seq::new(TABLE_MAX_PAGES as nat, |n: int| file_page(self.file_image(), n)) == self@
        &&& self.file_image().len() == self.page_count() * 4096
    }

    /// Writes every page below `num_pages` back to the file image, as closing the database
    /// does, and returns the page numbers that could not be flushed because they lie
    /// outside the cache.
    pub fn flush_all(&mut self) -> (failed: Vec<u32>)
        requires
            old(self).wf(),
        ensures
            final(self).wf(),
            final(self)@ == old(self)@,
            final(self).page_count() == old(self).page_count(),
            final(self).flushed(),
            failed@.len() == if old(self).page_count() > TABLE_MAX_PAGES {
                old(self).page_count() - TABLE_MAX_PAGES
            } else {
                0
            },
            forall|i: int| 0 <= i < failed@.len() ==> failed@[i] == TABLE_MAX_PAGES + i,
    {
        let mut failed: Vec<u32> = Vec::new();
        let num_pages = self.num_pages;
        let mut page_num: u32 = 0;
        while page_num < num_pages
            invariant
                self.wf(),
                self@ == old(self)@,
                self.num_pages == num_pages,
                num_pages == old(self).num_pages,
                0 <= page_num <= num_pages,
                forall|n: int|
                    0 <= n < TABLE_MAX_PAGES && (!self.is_cached(n) || n < page_num) ==> file_page(
                        self.file@,
                        n,
                    ) == #[trigger] self@[n],
                page_num > 0 && page_num <= TABLE_MAX_PAGES && self.is_cached(page_num - 1)
                    ==> self.file@.len() >= page_num * 4096,
                failed@.len() == if page_num > TABLE_MAX_PAGES {
                    page_num - TABLE_MAX_PAGES
                } else {
                    0
                },
                forall|i: int| 0 <= i < failed@.len() ==> failed@[i] == TABLE_MAX_PAGES + i,
            decreases num_pages - page_num,
        {
            let ghost before = *self;
            match self.flush(page_num) {
                Ok(()) => {
                    proof {
                        assert forall|n: int|
                            0 <= n < TABLE_MAX_PAGES && (!self.is_cached(n) || n < page_num + 1)
                                implies file_page(self.file@, n) == #[trigger] self@[n] by {
                            if before.is_cached(page_num as int) {
                                lemma_written_file_pages(
                                    before.file@,
                                    page_num as int,
                                    before@[page_num as int],
                                    n,
                                );
                            }
                        }
                        if before.is_cached(page_num as int) {
                            lemma_written_file_pages(
                                before.file@,
                                page_num as int,
                                before@[page_num as int],
                                0,
                            );
                        }
                    }
                },
                Err(_) => {
                    failed.push(page_num);
                },
            }
            page_num = page_num + 1;
        }
        proof {
            if num_pages > 0 && self.file@.len() != num_pages * 4096 {
                assert(self.is_cached(num_pages - 1));
            }
            assert(Seq::new(TABLE_MAX_PAGES as nat, |n: int| file_page(self.file_image(), n))
                =~= self@);
        }
        failed
    }

    /// Gives up the pager and hands back the file image it holds.
    pub fn into_file(self) -> (file: Vec<u8>)
        ensures
            file@ == self.file_image(),
    {
        self.file
    }

    /// Validates a page number for the fallible flush operation.
    fn page_index_for_flush(&self, page_num: u32) -> (result: Result<usize, DatabaseError>)
        requires
            self.wf(),
        ensures
            result matches Ok(index) ==> index == page_num && page_num < TABLE_MAX_PAGES,
            result matches Err(e) ==> page_num >= TABLE_MAX_PAGES && (e matches DatabaseError::InvalidInput(m)
                && m@ == "page outside cache"@),
    {
        let index = page_num as usize;
        if index >= self.pages.len() {
            Err(DatabaseError::invalid_input("page outside cache"))
        } else {
            Ok(index)
        }
    }

    /// Writes one page into the file image at its calculated offset.
    fn write_page(&mut self, page_num: u32, page: &Page)
        requires
            old(self).wf(),
            page_num < old(self).num_pages,
            page_num < TABLE_MAX_PAGES,
            old(self).pages@[page_num as int] matches Some(cached) && cached@ == page@,
        ensures
            final(self).wf(),
            final(self)@ == old(self)@,
            final(self).num_pages == old(self).num_pages,
            final(self).pages@ == old(self).pages@,
            final(self).file@ == written_file(old(self).file@, page_num as int, page@),
    {
        let offset = page_num as usize * PAGE_SIZE;
        let ghost old_file = self.file@;
        let ghost extended = if old_file.len() < offset + 4096 {
            old_file + Seq::new((offset + 4096 - old_file.len()) as nat, |i: int| 0u8)
        } else {
            old_file
        };
        while self.file.len() < offset + PAGE_SIZE
            invariant
                offset == page_num * 4096,
                page_num < TABLE_MAX_PAGES,
                self.pages@ == old(self).pages@,
                self.num_pages == old(self).num_pages,
                old_file.len() <= self.file@.len() <= if old_file.len() < offset + 4096 {
                    offset + 4096
                } else {
                    old_file.len() as int
                },
                self.file@ == extended.subrange(0, self.file@.len() as int),
                extended.len() == if old_file.len() < offset + 4096 {
                    offset + 4096
                } else {
                    old_file.len() as int
                },
                forall|i: int| old_file.len() <= i < extended.len() ==> extended[i] == 0u8,
                forall|i: int| 0 <= i < old_file.len() ==> extended[i] == old_file[i],
            decreases offset + PAGE_SIZE - self.file@.len(),
        {
            self.file.push(0);
            assert(self.file@ =~= extended.subrange(0, self.file@.len() as int));
        }
        assert(self.file@ =~= extended);
        let mut i: usize = 0;
        while i < PAGE_SIZE
            invariant
                offset == page_num * 4096,
                page_num < TABLE_MAX_PAGES,
                self.pages@ == old(self).pages@,
                self.num_pages == old(self).num_pages,
                0 <= i <= PAGE_SIZE,
                self.file@.len() == extended.len(),
                offset + PAGE_SIZE <= extended.len(),
                forall|j: int|
                    0 <= j < extended.len() && !(offset <= j < offset + i) ==> self.file@[j]
                        == extended[j],
                forall|j: int| offset <= j < offset + i ==> self.file@[j] == page@[j - offset],
            decreases PAGE_SIZE - i,
        {
            self.file.set(offset + i, page[i]);
            i = i + 1;
        }
        assert(self.file@ =~= written_file(old_file, page_num as int, page@));
        proof {
            lemma_written_file_pages(old_file, page_num as int, page@, 0);
            assert forall|n: int| 0 <= n < TABLE_MAX_PAGES implies #[trigger] self.page_view(n)
                == old(self).page_view(n) by {
                lemma_written_file_pages(old_file, page_num as int, page@, n);
            }
            assert(self@ =~= old(self)@);
        }
    }

    /// Validates a page number for operations that cannot return an error.
    fn checked_page_index(&self, page_num: u32) -> (index: usize)
        requires
            page_num < TABLE_MAX_PAGES,
        ensures
            index == page_num,
    {
        page_num as usize
    }

    /// Loads a page from the file image, or returns a new zero-filled page.
    fn load_page(&self, page_num: u32) -> (page: BoxedPage)
        requires
            self.file@.len() % 4096 == 0,
            page_num < TABLE_MAX_PAGES,
        ensures
            page@ == file_page(self.file@, page_num as int),
    {
        let mut page = new_page();
        let offset = page_num as usize * PAGE_SIZE;
        if offset < self.file.len() {
            let mut i: usize = 0;
            while i < PAGE_SIZE
                invariant
                    0 <= i <= PAGE_SIZE,
                    offset == page_num * 4096,
                    offset + PAGE_SIZE <= self.file@.len(),
                    page@.len() == PAGE_SIZE,
                    forall|j: int| 0 <= j < i ==> page@[j] == self.file@[offset + j],
                decreases PAGE_SIZE - i,
            {
                page[i] = self.file[offset + i];
                i = i + 1;
            }
            assert(page@ =~= file_page(self.file@, page_num as int));
        }
        page
    }
}

} // verus!
