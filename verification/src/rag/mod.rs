//! Retrieval of document passages.

pub mod chunking;
pub mod embeddings;
pub mod search;
