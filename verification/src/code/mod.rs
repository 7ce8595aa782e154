//! Projects of source code, read only.

pub mod indexer;
pub mod prompt;
pub mod scanner;
pub mod search;
pub mod types;
