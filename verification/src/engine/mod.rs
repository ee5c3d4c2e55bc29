//! A disk-backed B-tree storage engine for `u64` keys and values.
pub mod disk;
pub mod meta;
pub mod node;
pub mod search;
pub mod tree;
pub mod insert;
pub mod btree_engine;
pub mod check;
