//! Errors shared by more than one database layer.
//!
//! Parser-only errors stay in `sql/parser.rs`, and execution-only errors stay in
//! `sql/executor.rs`. This file holds failures of the pager, storage, or B-tree code.
use vstd::prelude::*;

use crate::text::{decimal_digits, decimal_text};

verus! {

#[verifier::external_type_specification]
#[verifier::external_body]
pub struct ExIoError(std::io::Error);

#[derive(Debug)]
pub enum DatabaseError {
    /// The operating system could not read or write the database file.
    Io(std::io::Error),
    /// A page number is outside the configured page cache.
    PageOutOfBounds { page_number: u32, maximum: usize },
    /// The database file or page bytes are not valid.
    CorruptDatabase(String),
    /// A caller supplied an invalid database value.
    InvalidInput(String),
}

impl DatabaseError {
    /// A corrupt-database error carrying `message`.
    pub fn corrupt(message: &str) -> (error: Self)
        ensures
            error matches DatabaseError::CorruptDatabase(m) && m@ == message@,
    {
        DatabaseError::CorruptDatabase(message.to_owned())
    }

    /// An invalid-input error carrying `message`.
    pub fn invalid_input(message: &str) -> (error: Self)
        ensures
            error matches DatabaseError::InvalidInput(m) && m@ == message@,
    {
        DatabaseError::InvalidInput(message.to_owned())
    }
}

/// The message of an operating-system error (through its `Display`).
///
/// Trusted for nothing: what the system reports is not stated.
#[verifier::external_body]
fn io_error_text(error: &std::io::Error) -> String {
    format!("{error}")
}

impl DatabaseError {
    /// The error's message: its kind followed by the details it carries.
    pub fn to_string(&self) -> (text: String)
        ensures
            self matches DatabaseError::Io(_) ==> "database file error: "@.is_prefix_of(text@),
            self matches DatabaseError::PageOutOfBounds { page_number, maximum } ==> text@ == "page "@
                + decimal_digits(page_number as nat) + " is outside the maximum of "@ + decimal_digits(
                maximum as nat,
            ) + " pages"@,
            self matches DatabaseError::CorruptDatabase(message) ==> text@ == "corrupt database: "@ + message@,
            self matches DatabaseError::InvalidInput(message) ==> text@ == "invalid database input: "@ + message@,
    {
        match self {
            DatabaseError::Io(error) => {
                let mut text = String::from_str("database file error: ");
                let ghost prefix = text@;
                text.append(io_error_text(error).as_str());
                assert(prefix.is_prefix_of(text@)) by {
                    assert(text@.subrange(0, prefix.len() as int) =~= prefix);
                }
                text
            },
            DatabaseError::PageOutOfBounds { page_number, maximum } => {
                let mut text = String::from_str("page ");
                text.append(decimal_text(*page_number as u64).as_str());
                text.append(" is outside the maximum of ");
                text.append(decimal_text(*maximum as u64).as_str());
                text.append(" pages");
                text
            },
            DatabaseError::CorruptDatabase(message) => {
                let mut text = String::from_str("corrupt database: ");
                text.append(message.as_str());
                text
            },
            DatabaseError::InvalidInput(message) => {
                let mut text = String::from_str("invalid database input: ");
                text.append(message.as_str());
                text
            },
        }
    }
}

} // verus!
