//! Discovery of "workspace" directories in a filesystem tree.
//!
//! A workspace is a directory recognized by marker files it contains
//! (for example, a directory holding `Cargo.toml` is a Rust workspace).
//! The scanner walks a root directory up to a bounded depth, prunes
//! directories whose name is excluded by the configuration, and labels
//! each remaining directory with the first matching rule.

pub mod config;
pub mod paths;
pub mod results;
pub mod rules;
pub mod scan;

pub use config::{ScanConfig, WorkspaceDefinition};
pub use paths::SafePath;
pub use results::ScanResults;
pub use scan::find_workspaces_in_dir;
