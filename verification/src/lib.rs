pub mod btree;
pub mod config;
pub mod engine;
pub mod error;
pub mod repl;
pub mod row;
pub mod sql;
pub mod storage;
pub mod text;

pub use engine::btree_engine::BTreeEngine;
