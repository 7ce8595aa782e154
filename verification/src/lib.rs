//! Verified core of Kuznor, a private assistant that talks to local language
//! models about conversations, documents and source code.

pub mod ai;
pub mod clock;
pub mod code;
pub mod config;
pub mod db;
pub mod documents;
pub mod models;
pub mod net;
pub mod order;
pub mod paths;
pub mod performance;
pub mod rag;
pub mod session;
pub mod text;
pub mod ui;
