//! A small client library for Stack Overflow chat rooms: cookie handling,
//! transcript reading and shell command interpretation.

pub mod text;
pub mod cookie;
pub mod chat;
pub mod shell;
pub mod number;
pub mod pattern;
pub mod clock;
pub mod dom;
pub mod transcript;
pub mod room;
pub mod config;
