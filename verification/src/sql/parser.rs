//! Converts user-entered SQL text into validated statements.
use vstd::prelude::*;

use crate::config::{COLUMN_EMAIL_SIZE, COLUMN_USERNAME_SIZE};
use crate::row::Row;
use crate::sql::statement::Statement;
use crate::text::{i64_text_value, parse_i64, text_eq, whitespace_words, words};
use vstd::utf8::encode_utf8;

verus! {

/// Reasons that SQL text cannot be prepared for execution.
#[derive(Debug, PartialEq, Eq)]
pub enum PrepareError {
    NegativeId,
    StringTooLong,
    SyntaxError,
    UnrecognizedStatement(String),
}

/// What the ID text of an INSERT gives: the ID, or `SyntaxError` for text that is not an
/// `i64` or does not fit in `u32`, or `NegativeId` for a negative number.
pub open spec fn id_outcome(text: Seq<char>) -> Result<u32, PrepareError> {
    match i64_text_value(text) {
        None => Err(PrepareError::SyntaxError),
        Some(v) => if v < 0 {
            Err(PrepareError::NegativeId)
        } else if v > u32::MAX {
            Err(PrepareError::SyntaxError)
        } else {
            Ok(v as u32)
        },
    }
}

/// Whether a username and an email fit their fixed-width fields, counted in UTF-8 bytes.
pub open spec fn texts_fit(username: Seq<char>, email: Seq<char>) -> bool {
    encode_utf8(username).len() <= COLUMN_USERNAME_SIZE && encode_utf8(email).len() <= COLUMN_EMAIL_SIZE
}

/// `result` is what the words of an INSERT line (the keyword first) prepare to: exactly
/// four words, a valid ID, and texts that fit, or the first error among these.
pub open spec fn insert_prepared(ws: Seq<Seq<char>>, result: Result<Statement, PrepareError>) -> bool {
    if ws.len() != 4 {
        result == Err::<Statement, PrepareError>(PrepareError::SyntaxError)
    } else {
        match id_outcome(ws[1]) {
            Err(e) => result == Err::<Statement, PrepareError>(e),
            Ok(id) => if !texts_fit(ws[2], ws[3]) {
                result == Err::<Statement, PrepareError>(PrepareError::StringTooLong)
            } else {
                result matches Ok(Statement::Insert(row)) && row.id == id && row.username@ == ws[2]
                    && row.email@ == ws[3]
            },
        }
    }
}

/// `result` is what a line whose words are `ws` prepares to.
pub open spec fn prepared(ws: Seq<Seq<char>>, result: Result<Statement, PrepareError>) -> bool {
    if ws.len() == 0 {
        result == Err::<Statement, PrepareError>(PrepareError::SyntaxError)
    } else if ws[0] == "insert"@ {
        insert_prepared(ws, result)
    } else if ws[0] == "select"@ {
        result matches Ok(Statement::Select)
    } else {
        result matches Err(PrepareError::UnrecognizedStatement(keyword)) && keyword@ == ws[0]
    }
}

/// A line whose first word is `select` prepares to a SELECT whatever words follow it:
/// the words after the keyword are ignored.
pub proof fn lemma_select_ignores_following_words(
    extra: Seq<Seq<char>>,
    result: Result<Statement, PrepareError>,
)
    requires
        prepared(seq!["select"@] + extra, result),
    ensures
        result matches Ok(Statement::Select),
{
    let ws = seq!["select"@] + extra;
    assert(ws[0] == "select"@);
    reveal_strlit("select");
    reveal_strlit("insert");
    assert("select"@[0] != "insert"@[0]);
    assert(ws[0] != "insert"@);
}

/// The views of a run of words.
pub open spec fn word_views(tokens: Seq<&str>) -> Seq<Seq<char>> {
    tokens.map_values(|w: &str| w@)
}

/// Parses one line of SQL into a validated statement.
pub fn prepare_statement(input: &str) -> (result: Result<Statement, PrepareError>)
    ensures
        prepared(words(input@), result),
        words(input@).len() > 0 && words(input@)[0] == "select"@ ==> result matches Ok(Statement::Select),
{
    let tokens = whitespace_words(input);
    if tokens.len() == 0 {
        return Err(PrepareError::SyntaxError);
    }
    let first = tokens[0];
    assert(first@ == words(input@)[0]);
    proof {
        reveal_strlit("select");
        reveal_strlit("insert");
        assert("select"@[0] != "insert"@[0]);
    }
    if text_eq(first, "insert") {
        parse_insert(tokens.as_slice())
    } else if text_eq(first, "select") {
        Ok(Statement::Select)
    } else {
        Err(PrepareError::UnrecognizedStatement(first.to_owned()))
    }
}

/// Parses and validates the four tokens in an INSERT command.
fn parse_insert(tokens: &[&str]) -> (result: Result<Statement, PrepareError>)
    ensures
        insert_prepared(word_views(tokens@), result),
{
    if tokens.len() != 4 {
        return Err(PrepareError::SyntaxError);
    }
    let ghost ws = word_views(tokens@);
    assert(tokens@[1]@ == ws[1] && tokens@[2]@ == ws[2] && tokens@[3]@ == ws[3]);
    let id = match parse_id(tokens[1]) {
        Ok(id) => id,
        Err(e) => return Err(e),
    };
    match validate_text_lengths(tokens[2], tokens[3]) {
        Ok(()) => {},
        Err(e) => return Err(e),
    }
    Ok(Statement::Insert(Row::new(id, tokens[2], tokens[3])))
}

/// Parses a non-negative row ID that fits in `u32`.
fn parse_id(text: &str) -> (result: Result<u32, PrepareError>)
    ensures
        result == id_outcome(text@),
{
    match parse_i64(text) {
        None => Err(PrepareError::SyntaxError),
        Some(id) => {
            if id < 0 {
                Err(PrepareError::NegativeId)
            } else if id > u32::MAX as i64 {
                Err(PrepareError::SyntaxError)
            } else {
                Ok(id as u32)
            }
        },
    }
}

/// Ensures text fields fit their fixed-width disk slots.
fn validate_text_lengths(username: &str, email: &str) -> (result: Result<(), PrepareError>)
    ensures
        texts_fit(username@, email@) ==> result is Ok,
        !texts_fit(username@, email@) ==> result == Err::<(), PrepareError>(PrepareError::StringTooLong),
{
    if username.as_bytes().len() > COLUMN_USERNAME_SIZE || email.as_bytes().len() > COLUMN_EMAIL_SIZE {
        Err(PrepareError::StringTooLong)
    } else {
        Ok(())
    }
}

} // verus!
