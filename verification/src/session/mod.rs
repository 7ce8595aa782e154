//! The course of a session: what is on the screen, what is being answered and
//! indexed, and what follows from each request and event.

pub mod actions;
pub mod choices;
pub mod indexing;
pub mod sources;
pub mod state;
pub mod turn;
