pub mod executor;
pub mod parser;
pub mod statement;
