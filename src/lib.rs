//! Aggregates the text of a file tree into one blob, optionally following
//! import / include statements so that referenced files come first.

pub mod engine;
pub mod paths;
pub mod refs;
pub mod telemetry;
pub mod text;
