//! Talking to language models.

pub mod client;
pub mod conversation;
pub mod overview;
pub mod process;
pub mod prompts;
pub mod sanitize;
