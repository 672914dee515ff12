//! Keybinding engine for a terminal application: a grammar for chord
//! sequences, a per-mode binding tree, a matcher that consumes one key
//! press at a time, and the decisions of the event loop that feeds it.

pub mod actions;
pub mod key_event;
pub mod key_mode;
pub mod mode;
pub mod settings;
pub mod app_state;
pub mod tui;
