//! Content-addressed change detection for conditionally running commands.
//!
//! The crate decides, before a command is run, whether the command's prior
//! effects are still valid: it hashes the contents of file and directory
//! dependencies, keeps a per-command status cache, and turns the observed
//! state of dependencies, targets and sentinels into a run/skip verdict.

pub mod change_detection;
pub mod engine;
pub mod fs_model;
pub mod ordering;
pub mod string_map;
pub mod utils;
