//! Verified core of a small nginx control panel: toggling which site
//! configuration is included in the main config file, reading and clearing
//! log files, and mapping control actions to command lines.
//!
//! All file and process I/O lives outside this crate; the functions here
//! compute new file contents, parsed log entries and command lines from
//! plain values, with contracts that pin the results down.

pub mod config;
pub mod control;
pub mod errors;
pub mod logs;
pub mod paths;
pub mod text;
