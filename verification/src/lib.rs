//! Verified core of a keyboard-driven terminal HTTP client: runtime variable
//! substitution, JSON extraction rules, curl generation, history redaction and
//! the key-driven state machine of the interface.

pub mod text;
pub mod auth;
pub mod order;
pub mod variables;
pub mod json;
pub mod response;
pub mod request;
pub mod curl;
pub mod history;
pub mod app;
pub mod keybindings;
