use sqlite::config::{PAGE_SIZE, TABLE_MAX_PAGES};
use sqlite::error::DatabaseError;
use sqlite::storage::page::{clear, copy_into, file_offset, new_page, read_range, write_range};
use sqlite::storage::pager::Pager;
use sqlite::text::decimal_text;

/// Writes every cached page back and gives the file image, as closing the database does.
fn close(mut pager: Pager) -> Vec<u8> {
    assert!(pager.flush_all().is_empty());
    pager.into_file()
}

#[test]
fn new_page_is_zeroed() {
    assert!(new_page().iter().all(|byte| *byte == 0));
}

#[test]
fn range_helpers_work() {
    let mut page = new_page();
    write_range(&mut page, 10, &[1, 2, 3]);
    assert_eq!(read_range(&page, 10, 3), &[1, 2, 3]);
}

#[test]
fn file_offset_uses_page_size() {
    assert_eq!(file_offset(2), (PAGE_SIZE * 2) as u64);
}

#[test]
fn clear_zeroes_a_dirty_page() {
    let mut page = new_page();
    write_range(&mut page, 0, &[1, 2, 3]);
    clear(&mut page);
    assert!(page.iter().all(|byte| *byte == 0));
}

#[test]
fn copy_into_duplicates_contents() {
    let mut source = new_page();
    write_range(&mut source, 0, &[9, 8, 7]);
    let mut destination = new_page();
    copy_into(&mut destination, &source);
    assert_eq!(read_range(&destination, 0, 3), &[9, 8, 7]);
}

#[test]
fn write_range_at_the_page_end_fits() {
    let mut page = new_page();
    write_range(&mut page, PAGE_SIZE - 2, &[4, 5]);
    assert_eq!(read_range(&page, PAGE_SIZE - 2, 2), &[4, 5]);
    assert_eq!(file_offset(0), 0);
    assert_eq!(file_offset(u32::MAX), u32::MAX as u64 * PAGE_SIZE as u64);
}

#[test]
fn open_creates_an_empty_new_file() {
    let pager = Pager::open(Vec::new()).expect("open should succeed");
    assert_eq!(pager.num_pages, 0);
}

#[test]
fn open_rejects_a_file_with_a_partial_page() {
    let result = Pager::open(vec![0u8; PAGE_SIZE + 10]);
    assert!(result.is_err());
}

#[test]
fn open_counts_the_pages_of_an_existing_file() {
    let pager = Pager::open(vec![0u8; PAGE_SIZE * 3]).unwrap();
    assert_eq!(pager.num_pages, 3);
    assert!(matches!(Pager::open(vec![0u8; 1]), Err(DatabaseError::CorruptDatabase(_))));
}

#[test]
fn get_page_returns_a_zeroed_page_for_new_pages() {
    let mut pager = Pager::open(Vec::new()).unwrap();
    let page = pager.get_page(0);
    assert!(page.iter().all(|byte| *byte == 0));
}

#[test]
fn get_page_grows_num_pages() {
    let mut pager = Pager::open(Vec::new()).unwrap();
    assert_eq!(pager.num_pages, 0);
    pager.get_page(2);
    assert_eq!(pager.num_pages, 3);
}

#[test]
fn get_page_caches_writes_until_flushed() {
    let mut pager = Pager::open(Vec::new()).unwrap();
    pager.get_page(0)[0] = 42;
    assert_eq!(pager.get_page(0)[0], 42);
}

#[test]
fn flush_persists_a_page_to_disk() {
    let image = {
        let mut pager = Pager::open(Vec::new()).unwrap();
        pager.get_page(0)[0] = 99;
        pager.flush(0).expect("flush should succeed");
        pager.into_file()
    };
    let mut reopened = Pager::open(image).unwrap();
    assert_eq!(reopened.get_page(0)[0], 99);
}

#[test]
fn drop_flushes_all_pages_automatically() {
    let image = {
        let mut pager = Pager::open(Vec::new()).unwrap();
        pager.get_page(0)[0] = 7;
        pager.get_page(1)[0] = 8;
        close(pager)
    };
    let mut reopened = Pager::open(image).unwrap();
    assert_eq!(reopened.num_pages, 2);
    assert_eq!(reopened.get_page(0)[0], 7);
    assert_eq!(reopened.get_page(1)[0], 8);
}

#[test]
fn flush_beyond_cache_limit_returns_error() {
    let mut pager = Pager::open(Vec::new()).unwrap();
    let result = pager.flush(TABLE_MAX_PAGES as u32);
    assert!(result.is_err());
    assert!(matches!(&result, Err(DatabaseError::InvalidInput(message)) if message == "page outside cache"));
}

#[test]
fn an_unflushed_page_does_not_reach_the_file() {
    let mut pager = Pager::open(Vec::new()).unwrap();
    pager.get_page(0)[0] = 5;
    assert_eq!(pager.into_file().len(), 0);
}

#[test]
fn error_has_readable_message() {
    let error = DatabaseError::invalid_input("ID cannot be negative");
    assert_eq!(
        error.to_string(),
        "invalid database input: ID cannot be negative"
    );
}

#[test]
fn error_messages_name_their_details() {
    assert_eq!(
        DatabaseError::corrupt("unknown node type").to_string(),
        "corrupt database: unknown node type"
    );
    let out_of_bounds = DatabaseError::PageOutOfBounds { page_number: 401, maximum: 400 };
    assert_eq!(out_of_bounds.to_string(), "page 401 is outside the maximum of 400 pages");
    let io = DatabaseError::Io(std::io::Error::new(std::io::ErrorKind::Other, "disk gone"));
    assert_eq!(io.to_string(), "database file error: disk gone");
}

#[test]
fn decimal_text_writes_digits_without_padding() {
    assert_eq!(decimal_text(0), "0");
    assert_eq!(decimal_text(7), "7");
    assert_eq!(decimal_text(10), "10");
    assert_eq!(decimal_text(4096), "4096");
    assert_eq!(decimal_text(u64::MAX), "18446744073709551615");
}
