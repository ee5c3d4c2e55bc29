use sqlite::btree::leaf::LEAF_NODE_MAX_CELLS;
use sqlite::btree::tree::Table;
use sqlite::config::{COLUMN_EMAIL_SIZE, COLUMN_USERNAME_SIZE};
use sqlite::row::Row;
use sqlite::sql::executor::{execute_insert, execute_select, table_is_consistent, ExecuteError};
use sqlite::sql::parser::{prepare_statement, PrepareError};
use sqlite::sql::statement::Statement;

/// Writes every cached page back and gives the file image, as closing the database does.
fn close(mut table: Table) -> Vec<u8> {
    assert!(table.pager.flush_all().is_empty());
    table.pager.into_file()
}

/// Reads every row in key order through a cursor.
fn scan(table: &mut Table) -> Vec<Row> {
    let mut cursor = table.start();
    let mut rows = vec![];
    while !cursor.end_of_table {
        rows.push(cursor.value(table));
        cursor.advance(table);
    }
    rows
}

/// What the REPL does with one line: parse it and, for an Insert, execute it.
fn run_line(input: &str, table: &mut Table) -> Result<Option<ExecuteError>, PrepareError> {
    match prepare_statement(input)? {
        Statement::Insert(row) => Ok(execute_insert(row, table).err()),
        Statement::Select => {
            execute_select(table);
            Ok(None)
        }
    }
}

#[test]
fn parses_a_valid_insert() {
    let statement = prepare_statement("insert 1 alice alice@example.com").unwrap();
    match statement {
        Statement::Insert(row) => {
            assert_eq!(row.id, 1);
            assert_eq!(row.username, "alice");
            assert_eq!(row.email, "alice@example.com");
        }
        Statement::Select => panic!("expected an Insert statement"),
    }
}

#[test]
fn parses_a_select() {
    assert!(matches!(prepare_statement("select"), Ok(Statement::Select)));
}

#[test]
fn empty_input_is_a_syntax_error() {
    assert_eq!(prepare_statement(""), Err(PrepareError::SyntaxError));
    assert_eq!(prepare_statement("   "), Err(PrepareError::SyntaxError));
}

#[test]
fn unrecognized_keyword_is_reported() {
    assert_eq!(
        prepare_statement("delete 1 a b"), Err(PrepareError::UnrecognizedStatement("delete".to_string()))
    );
}

#[test]
fn insert_with_wrong_argument_count_is_a_syntax_error() {
    assert_eq!(prepare_statement("insert 1 alice"), Err(PrepareError::SyntaxError));
    assert_eq!(
        prepare_statement("insert 1 alice a@x.com extra"), Err(PrepareError::SyntaxError)
    );
}

#[test]
fn insert_with_non_numeric_id_is_a_syntax_error() {
    assert_eq!(
        prepare_statement("insert abc alice a@x.com"), Err(PrepareError::SyntaxError)
    );
}

#[test]
fn insert_with_negative_id_is_reported() {
    assert_eq!(
        prepare_statement("insert -1 alice a@x.com"), Err(PrepareError::NegativeId)
    );
}

#[test]
fn insert_with_id_beyond_u32_is_a_syntax_error() {
    let too_big = (u32::MAX as i64) + 1;
    let input = format!("insert {too_big} alice a@x.com");
    assert_eq!(prepare_statement(&input), Err(PrepareError::SyntaxError));
}

#[test]
fn insert_with_username_too_long_is_reported() {
    let long_username = "a".repeat(COLUMN_USERNAME_SIZE + 1);
    let input = format!("insert 1 {long_username} a@x.com");
    assert_eq!(prepare_statement(&input), Err(PrepareError::StringTooLong));
}

#[test]
fn insert_with_email_too_long_is_reported() {
    let long_email = "a".repeat(COLUMN_EMAIL_SIZE + 1);
    let input = format!("insert 1 alice {long_email}");
    assert_eq!(prepare_statement(&input), Err(PrepareError::StringTooLong));
}

#[test]
fn insert_accepts_text_at_the_exact_size_limit() {
    let username = "a".repeat(COLUMN_USERNAME_SIZE);
    let email = "b".repeat(COLUMN_EMAIL_SIZE);
    let input = format!("insert 1 {username} {email}");
    assert!(prepare_statement(&input).is_ok());
}

#[test]
fn words_may_be_separated_by_any_whitespace() {
    match prepare_statement("\t insert\u{3000}7   bob \n bob@x.com \r\n") {
        Ok(Statement::Insert(row)) => {
            assert_eq!(row, Row::new(7, "bob", "bob@x.com"));
        }
        _ => panic!("expected an Insert statement"),
    }
    assert!(matches!(prepare_statement("  select  "), Ok(Statement::Select)));
}

#[test]
fn ids_follow_integer_parsing() {
    match prepare_statement("insert +42 a b") {
        Ok(Statement::Insert(row)) => assert_eq!(row.id, 42),
        _ => panic!("expected an Insert statement"),
    }
    match prepare_statement("insert 0004294967295 a b") {
        Ok(Statement::Insert(row)) => assert_eq!(row.id, u32::MAX),
        _ => panic!("expected an Insert statement"),
    }
    assert!(prepare_statement("insert -0 a b").is_ok());
    assert_eq!(prepare_statement("insert - a b"), Err(PrepareError::SyntaxError));
    assert_eq!(prepare_statement("insert 1x a b"), Err(PrepareError::SyntaxError));
    assert_eq!(
        prepare_statement("insert -9223372036854775808 a b"), Err(PrepareError::NegativeId)
    );
    assert_eq!(
        prepare_statement("insert 9223372036854775808 a b"), Err(PrepareError::SyntaxError)
    );
}

#[test]
fn keywords_are_case_sensitive() {
    assert_eq!(
        prepare_statement("SELECT"), Err(PrepareError::UnrecognizedStatement("SELECT".to_string()))
    );
}

#[test]
fn text_length_is_counted_in_bytes() {
    // Eleven four-byte characters: 44 bytes, over the 32-byte username field.
    let username = "\u{1F600}".repeat(11);
    let input = format!("insert 1 {username} a@x.com");
    assert_eq!(prepare_statement(&input), Err(PrepareError::StringTooLong));
}

#[test]
fn a_single_leaf_fills_up_to_its_maximum_cell_count() {
    let mut table = Table::open(Vec::new()).unwrap();
    for id in 0..LEAF_NODE_MAX_CELLS as u32 {
        execute_insert(Row::new(id, "u", "e@x.com"), &mut table).unwrap();
    }
    let ids: Vec<u32> = scan(&mut table).iter().map(|row| row.id).collect();
    assert_eq!(ids, (0..LEAF_NODE_MAX_CELLS as u32).collect::<Vec<_>>());
}

#[test]
fn out_of_order_inserts_up_to_capacity_still_read_back_sorted() {
    let mut table = Table::open(Vec::new()).unwrap();
    // Insert descending so every row lands at the front of the leaf.
    for id in (0..LEAF_NODE_MAX_CELLS as u32).rev() {
        execute_insert(Row::new(id, "u", "e@x.com"), &mut table).unwrap();
    }
    let ids: Vec<u32> = scan(&mut table).iter().map(|row| row.id).collect();
    assert_eq!(ids, (0..LEAF_NODE_MAX_CELLS as u32).collect::<Vec<_>>());
}

#[test]
fn rows_survive_a_close_and_reopen() {
    let image = {
        let mut table = Table::open(Vec::new()).unwrap();
        execute_insert(Row::new(1, "alice", "alice@example.com"), &mut table).unwrap();
        execute_insert(Row::new(2, "bob", "bob@example.com"), &mut table).unwrap();
        close(table)
    };
    let mut reopened = Table::open(image).unwrap();
    assert_eq!(
        scan(&mut reopened),
        vec![
            Row::new(1, "alice", "alice@example.com"),
            Row::new(2, "bob", "bob@example.com"),
        ]
    );
}

#[test]
fn opening_an_existing_file_does_not_lose_its_row_count() {
    let image = {
        let mut table = Table::open(Vec::new()).unwrap();
        for id in 1..=5u32 {
            execute_insert(Row::new(id, "u", "e@x.com"), &mut table).unwrap();
        }
        close(table)
    };
    // Reopening twice in a row should be stable and not duplicate or drop rows.
    let image = {
        let mut table = Table::open(image).unwrap();
        execute_select(&mut table);
        close(table)
    };
    let mut table = Table::open(image).unwrap();
    assert_eq!(scan(&mut table).len(), 5);
}

#[test]
fn opening_a_missing_file_creates_it() {
    let table = Table::open(Vec::new()).unwrap();
    let image = close(table);
    assert_eq!(image.len(), 4096);
}

#[test]
fn insert_then_select_round_trips_through_the_repl_pipeline() {
    let mut table = Table::open(Vec::new()).unwrap();
    assert_eq!(run_line("insert 1 alice alice@example.com", &mut table), Ok(None));
    assert_eq!(run_line("select", &mut table), Ok(None));
}

#[test]
fn duplicate_insert_through_the_repl_pipeline_is_reported() {
    let mut table = Table::open(Vec::new()).unwrap();
    run_line("insert 1 alice alice@example.com", &mut table).unwrap();
    assert_eq!(
        run_line("insert 1 alice alice@example.com", &mut table),
        Ok(Some(ExecuteError::DuplicateKey))
    );
}

#[test]
fn malformed_statement_through_the_repl_pipeline_is_a_syntax_error() {
    let mut table = Table::open(Vec::new()).unwrap();
    assert_eq!(
        run_line("insert not_an_id alice alice@example.com", &mut table),
        Err(PrepareError::SyntaxError)
    );
}

#[test]
fn select_returns_the_inserted_rows_in_key_order() {
    let mut table = Table::open(Vec::new()).unwrap();
    for id in [5u32, 1, 3] {
        execute_insert(Row::new(id, "n", "m"), &mut table).unwrap();
    }
    let ids: Vec<u32> = execute_select(&mut table).iter().map(|row| row.id).collect();
    assert_eq!(ids, vec![1, 3, 5]);
    assert_eq!(
        execute_insert(Row::new(3, "x", "y"), &mut table),
        Err(ExecuteError::DuplicateKey)
    );
    assert_eq!(execute_select(&mut table).len(), 3);
}

#[test]
fn rows_display_as_tuples() {
    let row = Row::new(7, "dave", "dave@example.com");
    assert_eq!(row.to_text(), "(7, dave, dave@example.com)");
}

#[test]
fn a_table_built_by_inserts_is_consistent() {
    let mut table = Table::open(Vec::new()).unwrap();
    assert!(table_is_consistent(&mut table));
    for id in [4u32, 2, 9] {
        execute_insert(Row::new(id, "a", "b"), &mut table).unwrap();
    }
    assert!(table_is_consistent(&mut table));
    let mut reopened = Table::open(close(table)).unwrap();
    assert!(table_is_consistent(&mut reopened));
}

#[test]
fn an_internal_root_that_points_at_itself_is_inconsistent() {
    // A zeroed page reads as an internal node with no keys whose right child is page 0.
    let mut table = Table::open(vec![0u8; 4096]).unwrap();
    assert!(!table_is_consistent(&mut table));
}

#[test]
fn a_leaf_claiming_more_cells_than_fit_is_inconsistent() {
    let mut image = vec![0u8; 4096];
    image[0] = 1;
    image[6..10].copy_from_slice(&(LEAF_NODE_MAX_CELLS as u32 + 1).to_le_bytes());
    let mut table = Table::open(image).unwrap();
    assert!(!table_is_consistent(&mut table));
}
