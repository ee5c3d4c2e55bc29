//! Structured commands produced by the SQL parser.
use vstd::prelude::*;

use crate::row::Row;

verus! {

/// SQL operations currently supported by the database.
#[derive(Debug, PartialEq, Eq)]
pub enum Statement {
    Insert(Row),
    Select,
}

} // verus!
