//! Editing of an encrypted Nix file: the rules that turn the edited text into
//! a copy without secrets, and the decisions of an editing session.

pub mod config;
pub mod editor;
pub mod file_io;
pub mod gitignore;
pub mod redact;
pub mod session;
