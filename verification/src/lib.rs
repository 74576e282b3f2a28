//! Output compaction for command-line assistants: filters that shorten
//! command output, a session cache of repeated output, the managed settings
//! block of a configuration file, and the savings log.

pub mod text;
pub mod hooks;
pub mod filters;
pub mod session;
pub mod savings;
