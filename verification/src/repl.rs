//! The REPL's meta-commands and diagnostic output, produced as lines of text for the
//! caller to print.
use vstd::prelude::*;

use crate::btree::internal::{
    internal_cell_in_page, internal_cells_in_page, internal_node_child, internal_node_key,
    internal_node_num_keys, internal_node_right_child, page_internal_child, page_internal_key,
    page_internal_num_keys, page_internal_right_child, valid_internal_child,
};
use crate::btree::leaf::{
    leaf_key_in_page, leaf_keys_in_page, leaf_node_key, leaf_node_num_cells, page_leaf_key,
    page_leaf_num_cells, LEAF_NODE_CELL_SIZE, LEAF_NODE_HEADER_SIZE, LEAF_NODE_MAX_CELLS,
    LEAF_NODE_SPACE_FOR_CELLS,
};
use crate::btree::node::{
    get_node_type, page_node_type, subtree_ok, tree_height, valid_tree, NodeType,
    COMMON_NODE_HEADER_SIZE, NODE_TYPE_OFFSET,
};
use crate::btree::tree::Table;
use crate::config::{INVALID_PAGE_NUM, TABLE_MAX_PAGES};
use crate::row::ROW_SIZE;
use crate::storage::pager::Pager;
use crate::sql::executor::ExecuteError;
use crate::sql::parser::PrepareError;
use crate::text::{decimal_digits, decimal_text, text_eq, trim_text, trimmed};
use vstd::utf8::encode_utf8;

verus! {

/// Result of processing a dot-prefixed meta-command.
#[derive(Debug, PartialEq, Eq)]
pub enum MetaCommandResult {
    Success,
    Exit,
    UnrecognizedCommand(String),
}

/// What the interactive loop does with a line it read.
#[derive(Debug, PartialEq, Eq, Structural)]
pub enum LineAction {
    /// Nothing but whitespace: read the next line.
    Blank,
    /// A dot-prefixed meta-command.
    MetaCommand,
    /// A SQL statement.
    Statement,
}

/// The texts of a list of lines.
pub open spec fn line_views(lines: Seq<String>) -> Seq<Seq<char>> {
    lines.map_values(|line: String| line@)
}

/// Two spaces per level.
pub open spec fn indent_text(level: nat) -> Seq<char>
    decreases level,
{
    if level == 0 {
        Seq::empty()
    } else {
        indent_text((level - 1) as nat) + seq![' ', ' ']
    }
}

/// The indentation level one deeper (staying put at the largest level).
pub open spec fn next_level(level: u32) -> u32 {
    if level < u32::MAX {
        (level + 1) as u32
    } else {
        level
    }
}

/// `label` followed by the decimal digits of `n`.
pub open spec fn labeled_number(label: Seq<char>, n: nat) -> Seq<char> {
    label + decimal_digits(n)
}

/// The lines that describe a leaf page: its size, then one line per key.
pub open spec fn leaf_lines(page: Seq<u8>, level: u32) -> Seq<Seq<char>> {
    let n = page_leaf_num_cells(page);
    seq![indent_text(level as nat) + labeled_number("- leaf (size "@, n as nat) + ")"@] + Seq::new(
        n as nat,
        |i: int| indent_text(next_level(level) as nat) + labeled_number("- "@, page_leaf_key(page, i) as nat),
    )
}

/// The lines that describe the subtree at page `p`, indented from `level`, descending at
/// most `h` levels.
pub open spec fn tree_lines(mem: Seq<Seq<u8>>, p: u32, level: u32, h: nat) -> Seq<Seq<char>>
    decreases h, 1nat, 0nat,
{
    let page = mem[p as int];
    match page_node_type(page) {
        NodeType::Leaf => leaf_lines(page, level),
        NodeType::Internal => {
            if h == 0 {
                Seq::empty()
            } else {
                let k = page_internal_num_keys(page);
                seq![indent_text(level as nat) + labeled_number("- internal (size "@, k as nat) + ")"@]
                    + cells_lines(mem, p, level, (h - 1) as nat, k as nat) + if k > 0 {
                    tree_lines(mem, page_internal_right_child(page), next_level(level), (h - 1) as nat)
                } else {
                    Seq::empty()
                }
            }
        },
    }
}

/// The lines for the first `n` cells of internal page `p`: each child's subtree followed
/// by its separator key.
pub open spec fn cells_lines(mem: Seq<Seq<u8>>, p: u32, level: u32, hc: nat, n: nat) -> Seq<Seq<char>>
    decreases hc, 2nat, n,
{
    if n == 0 {
        Seq::empty()
    } else {
        let page = mem[p as int];
        cells_lines(mem, p, level, hc, (n - 1) as nat) + tree_lines(
            mem,
            page_internal_child(page, n - 1),
            next_level(level),
            hc,
        ) + seq![
            indent_text(next_level(level) as nat) + labeled_number(
                "- key "@,
                page_internal_key(page, n - 1) as nat,
            ),
        ]
    }
}

/// The lines `.constants` prints.
pub open spec fn constants_lines() -> Seq<Seq<char>> {
    seq![
        labeled_number("ROW_SIZE: "@, ROW_SIZE as nat),
        labeled_number("COMMON_NODE_HEADER_SIZE: "@, COMMON_NODE_HEADER_SIZE as nat),
        labeled_number("LEAF_NODE_HEADER_SIZE: "@, LEAF_NODE_HEADER_SIZE as nat),
        labeled_number("LEAF_NODE_CELL_SIZE: "@, LEAF_NODE_CELL_SIZE as nat),
        labeled_number("LEAF_NODE_SPACE_FOR_CELLS: "@, LEAF_NODE_SPACE_FOR_CELLS as nat),
        labeled_number("LEAF_NODE_MAX_CELLS: "@, LEAF_NODE_MAX_CELLS as nat),
    ]
}

/// The page cache grew, if at all, only within its capacity.
pub open spec fn cache_grown(before: u32, after: u32) -> bool {
    before <= after && (after == before || after <= TABLE_MAX_PAGES)
}

/// A read-only walk over the pager: what it holds and what the file holds stay the same.
pub open spec fn pager_read_only(old_pager: Pager, new_pager: Pager) -> bool {
    &&& new_pager.wf()
    &&& new_pager@ == old_pager@
    &&& new_pager.file_image() == old_pager.file_image()
    &&& cache_grown(old_pager.page_count(), new_pager.page_count())
}

/// `label` followed by `n` in decimal.
fn labeled(label: &str, n: u64) -> (line: String)
    ensures
        line@ == labeled_number(label@, n as nat),
{
    let mut line = String::from_str(label);
    let digits = decimal_text(n);
    line.append(digits.as_str());
    line
}

/// Appends `line` to `lines`.
fn push_line(lines: &mut Vec<String>, line: String)
    ensures
        line_views(final(lines)@) == line_views(old(lines)@).push(line@),
{
    lines.push(line);
    assert(line_views(lines@) =~= line_views(old(lines)@).push(line@));
}

/// Moves the lines of `more` to the end of `lines`.
fn append_lines(lines: &mut Vec<String>, more: Vec<String>)
    ensures
        line_views(final(lines)@) == line_views(old(lines)@) + line_views(more@),
{
    let ghost added = more@;
    let mut more = more;
    lines.append(&mut more);
    assert(line_views(lines@) =~= line_views(old(lines)@) + line_views(added));
}

/// The lines that describe the important on-disk layout sizes.
pub fn print_constants() -> (lines: Vec<String>)
    ensures
        line_views(lines@) == constants_lines(),
{
    let mut lines: Vec<String> = Vec::new();
    push_line(&mut lines, labeled("ROW_SIZE: ", ROW_SIZE as u64));
    push_line(&mut lines, labeled("COMMON_NODE_HEADER_SIZE: ", COMMON_NODE_HEADER_SIZE as u64));
    push_line(&mut lines, labeled("LEAF_NODE_HEADER_SIZE: ", LEAF_NODE_HEADER_SIZE as u64));
    push_line(&mut lines, labeled("LEAF_NODE_CELL_SIZE: ", LEAF_NODE_CELL_SIZE as u64));
    push_line(&mut lines, labeled("LEAF_NODE_SPACE_FOR_CELLS: ", LEAF_NODE_SPACE_FOR_CELLS as u64));
    push_line(&mut lines, labeled("LEAF_NODE_MAX_CELLS: ", LEAF_NODE_MAX_CELLS as u64));
    assert(line_views(lines@) =~= constants_lines());
    lines
}

/// Two spaces per tree depth level.
pub fn indent(level: u32) -> (text: String)
    ensures
        text@ == indent_text(level as nat),
{
    let mut text = String::new();
    let mut i: u32 = 0;
    while i < level
        invariant
            i <= level,
            text@ == indent_text(i as nat),
        decreases level - i,
    {
        text.append("  ");
        proof {
            reveal_strlit("  ");
        }
        i = i + 1;
        assert(text@ =~= indent_text(i as nat));
    }
    text
}

/// The lines that describe the B-tree rooted at the requested page.
pub fn print_tree(pager: &mut Pager, page_num: u32, indentation_level: u32) -> (lines: Vec<String>)
    requires
        old(pager).wf(),
        valid_tree(old(pager)@, page_num),
    ensures
        pager_read_only(*old(pager), *final(pager)),
        line_views(lines@) == tree_lines(old(pager)@, page_num, indentation_level, tree_height(old(pager)@, page_num)),
{
    let ghost h = tree_height(pager@, page_num);
    print_subtree(pager, page_num, indentation_level, Ghost(h))
}

/// The lines for the subtree at `page_num`, descending at most `h` levels.
fn print_subtree(pager: &mut Pager, page_num: u32, level: u32, Ghost(h): Ghost<nat>) -> (lines: Vec<String>)
    requires
        old(pager).wf(),
        subtree_ok(old(pager)@, page_num, h),
    ensures
        pager_read_only(*old(pager), *final(pager)),
        line_views(lines@) == tree_lines(old(pager)@, page_num, level, h),
    decreases h, 2nat,
{
    pager.fetch_page(page_num);
    let node_type = get_node_type(pager.cached_page(page_num));
    match node_type {
        NodeType::Leaf => print_leaf(pager, page_num, level),
        NodeType::Internal => print_internal(pager, page_num, level, Ghost(h)),
    }
}

/// The lines for one leaf and all keys stored in it.
fn print_leaf(pager: &mut Pager, page_num: u32, level: u32) -> (lines: Vec<String>)
    requires
        old(pager).wf(),
        page_num < TABLE_MAX_PAGES,
        leaf_keys_in_page(old(pager)@[page_num as int]),
        page_node_type(old(pager)@[page_num as int]) is Leaf,
    ensures
        pager_read_only(*old(pager), *final(pager)),
        line_views(lines@) == leaf_lines(old(pager)@[page_num as int], level),
{
    pager.fetch_page(page_num);
    let page = pager.cached_page(page_num);
    let key_count = leaf_node_num_cells(page);
    let mut lines: Vec<String> = Vec::new();
    let mut header = indent(level);
    let size = labeled("- leaf (size ", key_count as u64);
    header.append(size.as_str());
    header.append(")");
    push_line(&mut lines, header);
    let inner = level.saturating_add(1);
    let inner_indent = indent(inner);
    let ghost mem_page = page@;
    let mut index: u32 = 0;
    while index < key_count
        invariant
            index <= key_count,
            key_count == page_leaf_num_cells(mem_page),
            mem_page == page@,
            leaf_keys_in_page(mem_page),
            inner == next_level(level),
            inner_indent@ == indent_text(inner as nat),
            line_views(lines@) == leaf_lines(mem_page, level).take(index + 1),
        decreases key_count - index,
    {
        assert(leaf_key_in_page(index as int)) by {
            assert(leaf_key_in_page(key_count - 1));
        }
        let key = leaf_node_key(page, index);
        let mut line = inner_indent.clone();
        line.append(labeled("- ", key as u64).as_str());
        push_line(&mut lines, line);
        index = index + 1;
        assert(line_views(lines@) =~= leaf_lines(mem_page, level).take(index + 1));
    }
    assert(line_views(lines@) =~= leaf_lines(mem_page, level));
    lines
}

/// The lines for an internal node and, recursively, each child subtree.
fn print_internal(pager: &mut Pager, page_num: u32, level: u32, Ghost(h): Ghost<nat>) -> (lines: Vec<String>)
    requires
        old(pager).wf(),
        subtree_ok(old(pager)@, page_num, h),
        page_node_type(old(pager)@[page_num as int]) is Internal,
    ensures
        pager_read_only(*old(pager), *final(pager)),
        line_views(lines@) == tree_lines(old(pager)@, page_num, level, h),
    decreases h, 1nat,
{
    let ghost mem = pager@;
    let ghost page = mem[page_num as int];
    pager.fetch_page(page_num);
    let key_count = internal_node_num_keys(pager.cached_page(page_num));
    let mut lines: Vec<String> = Vec::new();
    let mut header = indent(level);
    let size = labeled("- internal (size ", key_count as u64);
    header.append(size.as_str());
    header.append(")");
    push_line(&mut lines, header);
    let ghost header_lines = line_views(lines@);
    let mut index: u32 = 0;
    while index < key_count
        invariant
            pager_read_only(*old(pager), *pager),
            mem == old(pager)@,
            page == mem[page_num as int],
            subtree_ok(mem, page_num, h),
            page_node_type(page) is Internal,
            h > 0,
            index <= key_count,
            key_count == page_internal_num_keys(page),
            line_views(lines@) == header_lines + cells_lines(mem, page_num, level, (h - 1) as nat, index as nat),
        decreases key_count - index,
    {
        let child_lines = print_internal_child(pager, page_num, index, level, Ghost((h - 1) as nat));
        append_lines(&mut lines, child_lines);
        index = index + 1;
        assert(line_views(lines@) =~= header_lines + cells_lines(mem, page_num, level, (h - 1) as nat, index as nat));
    }
    if key_count > 0 {
        pager.fetch_page(page_num);
        let right_child = internal_node_right_child(pager.cached_page(page_num));
        proof {
            assert(page_internal_child(page, key_count as int) == right_child);
        }
        let sub = print_subtree(pager, right_child, level.saturating_add(1), Ghost((h - 1) as nat));
        append_lines(&mut lines, sub);
    }
    assert(line_views(lines@) =~= tree_lines(mem, page_num, level, h));
    lines
}

/// The lines for one child subtree of an internal node, followed by its separator key.
fn print_internal_child(pager: &mut Pager, page_num: u32, index: u32, level: u32, Ghost(hc): Ghost<nat>) -> (lines: Vec<String>)
    requires
        old(pager).wf(),
        subtree_ok(old(pager)@, page_num, hc + 1),
        page_node_type(old(pager)@[page_num as int]) is Internal,
        index < page_internal_num_keys(old(pager)@[page_num as int]),
    ensures
        pager_read_only(*old(pager), *final(pager)),
        line_views(lines@) == tree_lines(
            old(pager)@,
            page_internal_child(old(pager)@[page_num as int], index as int),
            next_level(level),
            hc,
        ) + seq![
            indent_text(next_level(level) as nat) + labeled_number(
                "- key "@,
                page_internal_key(old(pager)@[page_num as int], index as int) as nat,
            ),
        ],
    decreases hc, 3nat,
{
    let ghost page = pager@[page_num as int];
    assert(internal_cell_in_page(index as int)) by {
        assert(internal_cells_in_page(page));
    }
    assert(valid_internal_child(page, index as int)) by {
        assert(page_internal_child(page, index as int) != INVALID_PAGE_NUM);
    }
    pager.fetch_page(page_num);
    let child = internal_node_child(pager.cached_page(page_num), index);
    let mut lines = print_subtree(pager, child, level.saturating_add(1), Ghost(hc));
    pager.fetch_page(page_num);
    let key = internal_node_key(pager.cached_page(page_num), index);
    let mut line = indent(level.saturating_add(1));
    line.append(labeled("- key ", key as u64).as_str());
    push_line(&mut lines, line);
    lines
}

/// Executes `.exit`, `.btree`, or `.constants`, giving the result and the lines the
/// command prints.
pub fn do_meta_command(input: &str, table: &mut Table) -> (outcome: (MetaCommandResult, Vec<String>))
    requires
        trimmed(input@) == ".btree"@ ==> old(table).pager.wf() && valid_tree(old(table).pager@, 0),
    ensures
        final(table).root_page_num == old(table).root_page_num,
        trimmed(input@) != ".btree"@ ==> *final(table) == *old(table),
        trimmed(input@) == ".btree"@ ==> pager_read_only(old(table).pager, final(table).pager),
        trimmed(input@) == ".exit"@ ==> outcome.0 is Exit && outcome.1@.len() == 0,
        trimmed(input@) == ".btree"@ ==> outcome.0 is Success && line_views(outcome.1@) == seq!["Tree:"@]
            + tree_lines(old(table).pager@, 0, 0, tree_height(old(table).pager@, 0)),
        trimmed(input@) == ".constants"@ ==> outcome.0 is Success && line_views(outcome.1@) == seq![
            "Constants:"@,
        ] + constants_lines(),
        trimmed(input@) != ".exit"@ && trimmed(input@) != ".btree"@ && trimmed(input@) != ".constants"@
            ==> outcome.1@.len() == 0 && (outcome.0 matches MetaCommandResult::UnrecognizedCommand(command)
            && command@ == trimmed(input@)),
{
    proof {
        reveal_strlit(".exit");
        reveal_strlit(".btree");
        reveal_strlit(".constants");
        assert(".exit"@.len() == 5 && ".btree"@.len() == 6 && ".constants"@.len() == 10);
    }
    let command = trim_text(input);
    if text_eq(command, ".exit") {
        (MetaCommandResult::Exit, Vec::new())
    } else if text_eq(command, ".btree") {
        let mut lines: Vec<String> = Vec::new();
        push_line(&mut lines, String::from_str("Tree:"));
        assert(line_views(lines@) =~= seq!["Tree:"@]);
        let tree = print_tree(&mut table.pager, 0, 0);
        append_lines(&mut lines, tree);
        (MetaCommandResult::Success, lines)
    } else if text_eq(command, ".constants") {
        let mut lines: Vec<String> = Vec::new();
        push_line(&mut lines, String::from_str("Constants:"));
        assert(line_views(lines@) =~= seq!["Constants:"@]);
        append_lines(&mut lines, print_constants());
        (MetaCommandResult::Success, lines)
    } else {
        (MetaCommandResult::UnrecognizedCommand(command.to_owned()), Vec::new())
    }
}

/// Classifies a line the way the loop dispatches it: blank once trimmed, a meta-command
/// when its trimmed text starts with a `.` byte, and a statement otherwise.
pub fn line_action(line: &str) -> (action: LineAction)
    ensures
        trimmed(line@).len() == 0 ==> action == LineAction::Blank,
        trimmed(line@).len() > 0 && encode_utf8(trimmed(line@))[0] == 0x2e ==> action == LineAction::MetaCommand,
        trimmed(line@).len() > 0 && encode_utf8(trimmed(line@))[0] != 0x2e ==> action == LineAction::Statement,
{
    let input = trim_text(line);
    let bytes = input.as_bytes();
    proof {
        vstd::utf8::encode_utf8_decode_utf8(input@);
        if input@.len() == 0 {
            assert(encode_utf8(input@) =~= Seq::<u8>::empty());
        }
    }
    if bytes.len() == 0 {
        LineAction::Blank
    } else if bytes[0] == 0x2e {
        LineAction::MetaCommand
    } else {
        LineAction::Statement
    }
}

/// What the loop prints for a statement the parser refused.
pub fn prepare_error_message(error: &PrepareError) -> (text: String)
    ensures
        *error == PrepareError::NegativeId ==> text@ == "ID must be positive."@,
        *error == PrepareError::StringTooLong ==> text@ == "String is too long."@,
        *error == PrepareError::SyntaxError ==> text@ == "Syntax error. Could not parse statement."@,
        error matches PrepareError::UnrecognizedStatement(keyword) ==> text@ == "Unrecognized keyword at start of '"@
            + keyword@ + "'."@,
{
    match error {
        PrepareError::NegativeId => String::from_str("ID must be positive."),
        PrepareError::StringTooLong => String::from_str("String is too long."),
        PrepareError::SyntaxError => String::from_str("Syntax error. Could not parse statement."),
        PrepareError::UnrecognizedStatement(keyword) => {
            let mut text = String::from_str("Unrecognized keyword at start of '");
            text.append(keyword.as_str());
            text.append("'.");
            text
        },
    }
}

/// What the loop prints once an insertion ran.
pub fn insert_message(result: &Result<(), ExecuteError>) -> (text: String)
    ensures
        *result == Ok::<(), ExecuteError>(()) ==> text@ == "Executed."@,
        *result == Err::<(), ExecuteError>(ExecuteError::DuplicateKey) ==> text@ == "Error: Duplicate key."@,
        *result == Err::<(), ExecuteError>(ExecuteError::TableFull) ==> text@ == "Error: Table full."@,
{
    match result {
        Ok(()) => String::from_str("Executed."),
        Err(ExecuteError::DuplicateKey) => String::from_str("Error: Duplicate key."),
        Err(ExecuteError::TableFull) => String::from_str("Error: Table full."),
    }
}

/// What the loop prints for a meta-command it does not know.
pub fn unrecognized_command_message(command: &str) -> (text: String)
    ensures
        text@ == "Unrecognized command '"@ + command@ + "'"@,
{
    let mut text = String::from_str("Unrecognized command '");
    text.append(command);
    text.append("'");
    text
}

} // verus!
