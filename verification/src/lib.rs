//! Matching Google Takeout media files to their JSON side-car metadata,
//! and the decisions around restoring the capture date of each file.

pub mod text;
pub mod file_name;
pub mod matcher;
pub mod processor;
pub mod commands;
