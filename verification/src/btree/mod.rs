pub mod cursor;
pub mod internal;
pub mod leaf;
pub mod node;
pub mod root;
pub mod tree;
