//! The sorted-table layer: block building and reading, format
//! descriptors, and the bootstrap checks for opening a table file.

pub mod block;
pub mod block_builder;
pub mod format;
pub mod table;
