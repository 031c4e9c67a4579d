//! A personal command-alias registry: short names bound to shell command
//! lines, optionally scoped to a directory, with verified rules for saving,
//! deleting, renaming, resolving and listing them.

pub mod table;
pub mod text;
pub mod path;
pub mod registry;
pub mod laws;
