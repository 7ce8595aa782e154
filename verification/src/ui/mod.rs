//! What the windows show and what can be asked of them, apart from drawing.

pub mod chat;
pub mod code;
pub mod libraries;
pub mod markdown;
pub mod settings;
pub mod sidebar;
