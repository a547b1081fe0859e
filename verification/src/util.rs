//! General-purpose helpers: the binary integer codec.

pub mod coding;
