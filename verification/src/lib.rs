//! Reader and writer for an immutable, sorted, on-disk key-value table.
//!
//! The format stores prefix-compressed key/value entries in blocks with
//! restart-point trailers, locates blocks through varint-encoded handles,
//! and anchors the whole file with a fixed-size, magic-tagged footer.

pub mod comparator;
pub mod errors;
pub mod filename;
pub mod status;
pub mod table;
pub mod util;
