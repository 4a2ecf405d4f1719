//! A verified block-based merge engine for `.gitignore` files.
//!
//! The engine parses a line buffer into named, marker-delimited blocks,
//! and supports idempotent insert/update/remove operations on those blocks
//! while keeping all block offsets consistent as content shifts.

pub mod markers;
pub mod blocks;
pub mod generator;
pub mod read_paths;
pub mod write_path;
pub mod write_file;
