use sqlite::btree::tree::Table;
use sqlite::repl::{
    do_meta_command, indent, insert_message, line_action, prepare_error_message, print_constants, print_tree,
    unrecognized_command_message, LineAction, MetaCommandResult,
};
use sqlite::sql::executor::ExecuteError;
use sqlite::sql::parser::PrepareError;
use sqlite::row::Row;
use sqlite::sql::executor::execute_insert;

fn new_table() -> Table {
    Table::open(Vec::new()).unwrap()
}

#[test]
fn exit_command_requests_exit() {
    let mut table = new_table();
    assert_eq!(do_meta_command(".exit", &mut table).0, MetaCommandResult::Exit);
}

#[test]
fn unrecognized_command_is_reported_with_its_text() {
    let mut table = new_table();
    assert_eq!(
        do_meta_command(".bogus", &mut table).0,
        MetaCommandResult::UnrecognizedCommand(".bogus".to_string())
    );
}

#[test]
fn btree_command_succeeds_on_an_empty_table() {
    let mut table = new_table();
    assert_eq!(do_meta_command(".btree", &mut table).0, MetaCommandResult::Success);
}

#[test]
fn constants_command_succeeds() {
    let mut table = new_table();
    assert_eq!(do_meta_command(".constants", &mut table).0, MetaCommandResult::Success);
}

#[test]
fn dot_exit_requests_exit() {
    let mut table = new_table();
    assert_eq!(do_meta_command(".exit", &mut table).0, MetaCommandResult::Exit);
}

#[test]
fn unknown_dot_command_is_unrecognized() {
    let mut table = new_table();
    assert_eq!(
        do_meta_command(".frobnicate", &mut table).0,
        MetaCommandResult::UnrecognizedCommand(".frobnicate".to_string())
    );
}

#[test]
fn dot_constants_and_dot_btree_succeed_on_a_populated_table() {
    let mut table = new_table();
    execute_insert(Row::new(1, "alice", "alice@example.com"), &mut table).unwrap();
    assert_eq!(do_meta_command(".constants", &mut table).0, MetaCommandResult::Success);
    assert_eq!(do_meta_command(".btree", &mut table).0, MetaCommandResult::Success);
}

#[test]
fn meta_commands_are_trimmed_before_matching() {
    let mut table = new_table();
    assert_eq!(do_meta_command("  .exit\t\n", &mut table).0, MetaCommandResult::Exit);
    assert_eq!(
        do_meta_command(" .Exit ", &mut table).0,
        MetaCommandResult::UnrecognizedCommand(".Exit".to_string())
    );
}

#[test]
fn constants_lines_give_the_layout_sizes() {
    assert_eq!(
        print_constants(),
        vec![
            "ROW_SIZE: 293",
            "COMMON_NODE_HEADER_SIZE: 6",
            "LEAF_NODE_HEADER_SIZE: 14",
            "LEAF_NODE_CELL_SIZE: 297",
            "LEAF_NODE_SPACE_FOR_CELLS: 4082",
            "LEAF_NODE_MAX_CELLS: 13",
        ]
    );
    let mut table = new_table();
    let (result, lines) = do_meta_command(".constants", &mut table);
    assert_eq!(result, MetaCommandResult::Success);
    assert_eq!(lines[0], "Constants:");
    assert_eq!(lines.len(), 7);
}

#[test]
fn btree_lines_list_the_leaf_keys() {
    let mut table = new_table();
    for id in [3u32, 1, 2] {
        execute_insert(Row::new(id, "u", "e"), &mut table).unwrap();
    }
    let (result, lines) = do_meta_command(".btree", &mut table);
    assert_eq!(result, MetaCommandResult::Success);
    assert_eq!(lines, vec!["Tree:", "- leaf (size 3)", "  - 1", "  - 2", "  - 3"]);
    assert_eq!(print_tree(&mut table.pager, 0, 1), vec!["  - leaf (size 3)", "    - 1", "    - 2", "    - 3"]);
}

#[test]
fn indent_is_two_spaces_per_level() {
    assert_eq!(indent(0), "");
    assert_eq!(indent(3), "      ");
}

#[test]
fn lines_are_dispatched_by_their_trimmed_text() {
    assert_eq!(line_action("  \n"), LineAction::Blank);
    assert_eq!(line_action(""), LineAction::Blank);
    assert_eq!(line_action("  .btree\n"), LineAction::MetaCommand);
    assert_eq!(line_action("select\n"), LineAction::Statement);
    assert_eq!(line_action("x.y"), LineAction::Statement);
}

#[test]
fn messages_match_the_outcomes() {
    assert_eq!(prepare_error_message(&PrepareError::NegativeId), "ID must be positive.");
    assert_eq!(prepare_error_message(&PrepareError::StringTooLong), "String is too long.");
    assert_eq!(
        prepare_error_message(&PrepareError::SyntaxError),
        "Syntax error. Could not parse statement."
    );
    assert_eq!(
        prepare_error_message(&PrepareError::UnrecognizedStatement("drop".to_string())),
        "Unrecognized keyword at start of 'drop'."
    );
    assert_eq!(insert_message(&Ok(())), "Executed.");
    assert_eq!(insert_message(&Err(ExecuteError::DuplicateKey)), "Error: Duplicate key.");
    assert_eq!(insert_message(&Err(ExecuteError::TableFull)), "Error: Table full.");
    assert_eq!(unrecognized_command_message(".x"), "Unrecognized command '.x'");
}

/// Runs one line the way the interactive loop does and gives what it prints.
fn session_line(line: &str, table: &mut Table) -> Vec<String> {
    match line_action(line) {
        LineAction::Blank => vec![],
        LineAction::MetaCommand => {
            let (result, mut lines) = do_meta_command(line, table);
            if let MetaCommandResult::UnrecognizedCommand(command) = result {
                lines.push(unrecognized_command_message(&command));
            }
            lines
        }
        LineAction::Statement => match sqlite::sql::parser::prepare_statement(line) {
            Ok(sqlite::sql::statement::Statement::Insert(row)) => {
                vec![insert_message(&execute_insert(row, table))]
            }
            Ok(sqlite::sql::statement::Statement::Select) => {
                let mut lines: Vec<String> =
                    sqlite::sql::executor::execute_select(table).iter().map(|row| row.to_text()).collect();
                lines.push("Executed.".to_string());
                lines
            }
            Err(error) => vec![prepare_error_message(&error)],
        },
    }
}

#[test]
fn the_example_session_prints_the_documented_output() {
    let mut table = new_table();
    let mut output = vec![];
    for line in [
        "insert 1 alice alice@example.com",
        "insert 2 bob bob@example.com",
        "insert 3 carol carol@example.com",
        "select",
        ".btree",
        ".constants",
    ] {
        output.extend(session_line(line, &mut table));
    }
    assert_eq!(
        output,
        vec![
            "Executed.",
            "Executed.",
            "Executed.",
            "(1, alice, alice@example.com)",
            "(2, bob, bob@example.com)",
            "(3, carol, carol@example.com)",
            "Executed.",
            "Tree:",
            "- leaf (size 3)",
            "  - 1",
            "  - 2",
            "  - 3",
            "Constants:",
            "ROW_SIZE: 293",
            "COMMON_NODE_HEADER_SIZE: 6",
            "LEAF_NODE_HEADER_SIZE: 14",
            "LEAF_NODE_CELL_SIZE: 297",
            "LEAF_NODE_SPACE_FOR_CELLS: 4082",
            "LEAF_NODE_MAX_CELLS: 13",
        ]
    );

    // Closing and reopening shows the same rows.
    assert!(table.pager.flush_all().is_empty());
    let mut reopened = Table::open(table.pager.into_file()).unwrap();
    assert_eq!(
        session_line("select", &mut reopened),
        vec![
            "(1, alice, alice@example.com)",
            "(2, bob, bob@example.com)",
            "(3, carol, carol@example.com)",
            "Executed.",
        ]
    );
    assert_eq!(session_line(".exit", &mut reopened), Vec::<String>::new());
    assert_eq!(session_line(".nope", &mut reopened), vec!["Unrecognized command '.nope'"]);
    assert_eq!(session_line("update", &mut reopened), vec!["Unrecognized keyword at start of 'update'."]);
}
