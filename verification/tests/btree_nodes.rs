use sqlite::btree::internal::{
    initialize_internal_node, internal_node_child, internal_node_find, internal_node_find_child,
    internal_node_key, internal_node_num_keys, internal_node_right_child, set_internal_node_child,
    set_internal_node_key, set_internal_node_num_keys, set_internal_node_right_child,
};
use sqlite::btree::leaf::{
    initialize_leaf_node, leaf_node_find, leaf_node_key, leaf_node_next_leaf, leaf_node_num_cells,
    leaf_node_value_slice, set_leaf_node_key, set_leaf_node_next_leaf, set_leaf_node_num_cells,
    write_leaf_cell,
};
use sqlite::btree::node::{
    get_node_max_key, get_node_parent, get_node_type, is_node_root, set_node_parent, set_node_root,
    set_node_type, NodeType,
};
use sqlite::btree::tree::Table;
use sqlite::btree::cursor::Cursor;
use sqlite::config::INVALID_PAGE_NUM;
use sqlite::row::Row;
use sqlite::storage::page::new_page;
use sqlite::storage::pager::Pager;

fn new_table() -> Table {
    Table::open(Vec::new()).expect("open should succeed")
}

#[test]
fn num_keys_round_trips() {
    let mut page = new_page();
    set_internal_node_num_keys(&mut page, 2);
    assert_eq!(internal_node_num_keys(&page), 2);
}

#[test]
fn right_child_round_trips() {
    let mut page = new_page();
    set_internal_node_right_child(&mut page, 5);
    assert_eq!(internal_node_right_child(&page), 5);
}

#[test]
fn initialize_internal_node_sets_defaults() {
    let mut page = new_page();
    initialize_internal_node(&mut page);
    assert_eq!(get_node_type(&page), NodeType::Internal);
    assert!(!is_node_root(&page));
    assert_eq!(internal_node_num_keys(&page), 0);
    assert_eq!(internal_node_right_child(&page), INVALID_PAGE_NUM);
}

#[test]
fn child_and_key_round_trip() {
    let mut page = new_page();
    initialize_internal_node(&mut page);
    set_internal_node_num_keys(&mut page, 2);
    set_internal_node_child(&mut page, 0, 10);
    set_internal_node_key(&mut page, 0, 100);
    set_internal_node_child(&mut page, 1, 20);
    set_internal_node_key(&mut page, 1, 200);
    set_internal_node_right_child(&mut page, 30);

    assert_eq!(internal_node_child(&page, 0), 10);
    assert_eq!(internal_node_key(&page, 0), 100);
    assert_eq!(internal_node_child(&page, 1), 20);
    assert_eq!(internal_node_key(&page, 1), 200);
    // Index == num_keys reads the special right-child slot.
    assert_eq!(internal_node_child(&page, 2), 30);
}

#[test]
fn find_child_returns_leftmost_key_greater_or_equal() {
    let mut page = new_page();
    initialize_internal_node(&mut page);
    set_internal_node_num_keys(&mut page, 3);
    set_internal_node_key(&mut page, 0, 10);
    set_internal_node_key(&mut page, 1, 20);
    set_internal_node_key(&mut page, 2, 30);

    assert_eq!(internal_node_find_child(&page, 5), 0);
    assert_eq!(internal_node_find_child(&page, 10), 0);
    assert_eq!(internal_node_find_child(&page, 15), 1);
    assert_eq!(internal_node_find_child(&page, 30), 2);
    // Greater than every key: belongs under the implicit right child.
    assert_eq!(internal_node_find_child(&page, 999), 3);
}

#[test]
fn internal_node_find_descends_to_the_correct_leaf() {
    let mut pager = Pager::open(Vec::new()).unwrap();

    // Page 1: leaf with keys [1, 2]
    let leaf_a = pager.get_page(1);
    initialize_leaf_node(leaf_a);
    set_leaf_node_num_cells(leaf_a, 2);
    set_leaf_node_key(leaf_a, 0, 1);
    set_leaf_node_key(leaf_a, 1, 2);

    // Page 2: leaf with keys [5, 9]
    let leaf_b = pager.get_page(2);
    initialize_leaf_node(leaf_b);
    set_leaf_node_num_cells(leaf_b, 2);
    set_leaf_node_key(leaf_b, 0, 5);
    set_leaf_node_key(leaf_b, 1, 9);

    // Page 0: internal root, one key(2) splitting leaf_a | leaf_b
    let root = pager.get_page(0);
    initialize_internal_node(root);
    set_internal_node_num_keys(root, 1);
    set_internal_node_child(root, 0, 1);
    set_internal_node_key(root, 0, 2);
    set_internal_node_right_child(root, 2);

    assert_eq!(internal_node_find(&mut pager, 0, 1), (1, 0));
    assert_eq!(internal_node_find(&mut pager, 0, 9), (2, 1));
    // A key that isn't present yet still returns a sorted insertion point.
    assert_eq!(internal_node_find(&mut pager, 0, 7), (2, 1));
}

#[test]
fn num_cells_round_trips() {
    let mut page = new_page();
    assert_eq!(leaf_node_num_cells(&page), 0);
    set_leaf_node_num_cells(&mut page, 7);
    assert_eq!(leaf_node_num_cells(&page), 7);
}

#[test]
fn next_leaf_round_trips() {
    let mut page = new_page();
    set_leaf_node_next_leaf(&mut page, 3);
    assert_eq!(leaf_node_next_leaf(&page), 3);
}

#[test]
fn initialize_leaf_node_sets_defaults() {
    let mut page = new_page();
    initialize_leaf_node(&mut page);
    assert_eq!(get_node_type(&page), NodeType::Leaf);
    assert!(!is_node_root(&page));
    assert_eq!(leaf_node_num_cells(&page), 0);
    assert_eq!(leaf_node_next_leaf(&page), 0);
    assert_eq!(get_node_parent(&page), INVALID_PAGE_NUM);
}

#[test]
fn key_and_value_round_trip() {
    let mut page = new_page();
    initialize_leaf_node(&mut page);
    let row = Row::new(4, "carol", "carol@example.com");
    write_leaf_cell(&mut page, 0, 4, &row);
    assert_eq!(leaf_node_key(&page, 0), 4);
    assert_eq!(Row::deserialize_from(leaf_node_value_slice(&page, 0)), row);
}

#[test]
fn find_on_empty_leaf_returns_position_zero() {
    let mut page = new_page();
    initialize_leaf_node(&mut page);
    let table = new_table();
    let mut pager = table.pager;
    *pager.get_page(0) = *page;
    assert_eq!(leaf_node_find(&mut pager, 0, 42), (0, 0));
}

#[test]
fn find_returns_exact_match_index() {
    let table = new_table();
    let mut pager = table.pager;
    let page = pager.get_page(0);
    initialize_leaf_node(page);
    for (i, key) in [10u32, 20, 30, 40].into_iter().enumerate() {
        set_leaf_node_key(page, i as u32, key);
    }
    set_leaf_node_num_cells(page, 4);
    assert_eq!(leaf_node_find(&mut pager, 0, 30), (0, 2));
}

#[test]
fn find_returns_sorted_insertion_point_when_missing() {
    let table = new_table();
    let mut pager = table.pager;
    let page = pager.get_page(0);
    initialize_leaf_node(page);
    for (i, key) in [10u32, 20, 30, 40].into_iter().enumerate() {
        set_leaf_node_key(page, i as u32, key);
    }
    set_leaf_node_num_cells(page, 4);
    assert_eq!(leaf_node_find(&mut pager, 0, 25), (0, 2));
    assert_eq!(leaf_node_find(&mut pager, 0, 5), (0, 0));
    assert_eq!(leaf_node_find(&mut pager, 0, 100), (0, 4));
}

#[test]
fn leaf_node_insert_appends_in_sorted_position() {
    let mut table = new_table();
    let cursor0 = Cursor { page_num: 0, cell_num: 0, end_of_table: false };
    table.leaf_node_insert(&cursor0, 10, &Row::new(10, "a", "a@x.com"));
    let cursor1 = Cursor { page_num: 0, cell_num: 1, end_of_table: false };
    table.leaf_node_insert(&cursor1, 20, &Row::new(20, "b", "b@x.com"));
    let cursor_mid = Cursor { page_num: 0, cell_num: 1, end_of_table: false };
    table.leaf_node_insert(&cursor_mid, 15, &Row::new(15, "c", "c@x.com"));

    let page = table.pager.get_page(0);
    assert_eq!(leaf_node_num_cells(page), 3);
    assert_eq!(leaf_node_key(page, 0), 10);
    assert_eq!(leaf_node_key(page, 1), 15);
    assert_eq!(leaf_node_key(page, 2), 20);
}

#[test]
fn node_type_round_trips() {
    let mut page = new_page();
    set_node_type(&mut page, NodeType::Internal);
    assert_eq!(get_node_type(&page), NodeType::Internal);
    set_node_type(&mut page, NodeType::Leaf);
    assert_eq!(get_node_type(&page), NodeType::Leaf);
}

#[test]
fn node_type_from_byte() {
    assert_eq!(NodeType::from(0u8), NodeType::Internal);
    assert_eq!(NodeType::from(1u8), NodeType::Leaf);
}

#[test]
fn root_flag_round_trips() {
    let mut page = new_page();
    assert!(!is_node_root(&page));
    set_node_root(&mut page, true);
    assert!(is_node_root(&page));
    set_node_root(&mut page, false);
    assert!(!is_node_root(&page));
}

#[test]
fn parent_pointer_round_trips() {
    let mut page = new_page();
    set_node_parent(&mut page, 12345);
    assert_eq!(get_node_parent(&page), 12345);
}

#[test]
fn get_node_max_key_reads_last_leaf_cell() {
    let mut pager_page = new_page();
    initialize_leaf_node(&mut pager_page);
    set_leaf_node_num_cells(&mut pager_page, 3);
    set_leaf_node_key(&mut pager_page, 0, 1);
    set_leaf_node_key(&mut pager_page, 1, 5);
    set_leaf_node_key(&mut pager_page, 2, 9);

    let mut pager = Pager::open(Vec::new()).unwrap();
    *pager.get_page(0) = *pager_page;
    assert_eq!(get_node_max_key(&mut pager, 0), 9);
}

#[test]
fn get_node_max_key_follows_the_rightmost_child() {
    let mut pager = Pager::open(Vec::new()).unwrap();
    let leaf_a = pager.get_page(1);
    initialize_leaf_node(leaf_a);
    set_leaf_node_num_cells(leaf_a, 1);
    set_leaf_node_key(leaf_a, 0, 3);
    let leaf_b = pager.get_page(2);
    initialize_leaf_node(leaf_b);
    set_leaf_node_num_cells(leaf_b, 2);
    set_leaf_node_key(leaf_b, 0, 8);
    set_leaf_node_key(leaf_b, 1, 11);
    let root = pager.get_page(0);
    initialize_internal_node(root);
    set_internal_node_num_keys(root, 1);
    set_internal_node_child(root, 0, 1);
    set_internal_node_key(root, 0, 3);
    set_internal_node_right_child(root, 2);
    assert_eq!(get_node_max_key(&mut pager, 0), 11);
}

#[test]
fn a_row_written_to_a_cell_reads_back_unchanged() {
    let mut page = new_page();
    initialize_leaf_node(&mut page);
    let username = "u".repeat(32);
    let email = "e".repeat(255);
    let row = Row::new(u32::MAX, &username, &email);
    write_leaf_cell(&mut page, 12, 7, &row);
    assert_eq!(leaf_node_key(&page, 12), 7);
    assert_eq!(Row::deserialize_from(leaf_node_value_slice(&page, 12)), row);
}

#[test]
fn create_new_root_moves_the_old_root_to_a_left_child() {
    let mut table = new_table();
    for id in [5u32, 1, 9] {
        sqlite::sql::executor::execute_insert(Row::new(id, "u", "e"), &mut table).unwrap();
    }
    assert_eq!(table.get_unused_page_num(), 1);
    table.create_new_root(2);

    let root = table.pager.get_page(0);
    assert_eq!(get_node_type(root), NodeType::Internal);
    assert!(is_node_root(root));
    assert_eq!(internal_node_num_keys(root), 1);
    assert_eq!(internal_node_child(root, 0), 1);
    assert_eq!(internal_node_key(root, 0), 9);
    assert_eq!(internal_node_right_child(root), 2);

    let left = table.pager.get_page(1);
    assert_eq!(get_node_type(left), NodeType::Leaf);
    assert!(!is_node_root(left));
    assert_eq!(get_node_parent(left), 0);
    assert_eq!(leaf_node_num_cells(left), 3);
    assert_eq!(leaf_node_key(left, 0), 1);
    assert_eq!(leaf_node_key(left, 2), 9);
    assert_eq!(get_node_parent(table.pager.get_page(2)), 0);
}
