//! Core logic of an FTP download client driven by plain-text configuration
//! files: the configuration format (`config`), adding entries to it (`edit`)
//! and what loading gives back afterwards (`reload`), names with `(*)`
//! (`wildcard`), paths (`paths`), the progress display (`progress`), the
//! command-line flags (`args`), what to do with each entry and file
//! (`actions`), and the text primitives beneath them all (`text`).

pub mod text;
pub mod config;
pub mod paths;
pub mod progress;
pub mod args;
pub mod edit;
pub mod reload;
pub mod wildcard;
pub mod actions;
