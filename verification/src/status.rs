//! Typed failure carried by readers and decoders.

use vstd::prelude::*;

verus! {

/// Outcome classification for table and block operations.
///
/// `Corruption` marks malformed bytes and is terminal for the structure in
/// which it occurs; `IOError` carries an underlying read or seek failure
/// verbatim.
#[derive(Debug, Clone, PartialEq, Eq)]
pub enum Status {
    Okay,
    NotFound(String),
    Corruption(String),
    NotSupported(String),
    InvalidArgument(String),
    IOError(String),
}

impl Status {
    /// The human-readable cause carried by this status.
    pub fn description(&self) -> (r: &str)
        ensures
            r@ == self.description_spec(),
    {
        match self {
            Status::Okay => "no error",
            Status::NotFound(s) => s.as_str(),
            Status::Corruption(s) => s.as_str(),
            Status::NotSupported(s) => s.as_str(),
            Status::InvalidArgument(s) => s.as_str(),
            Status::IOError(s) => s.as_str(),
        }
    }

    /// What `description` returns for each variant.
    pub open spec fn description_spec(&self) -> Seq<char> {
        match self {
            Status::Okay => "no error"@,
            Status::NotFound(s) => s@,
            Status::Corruption(s) => s@,
            Status::NotSupported(s) => s@,
            Status::InvalidArgument(s) => s@,
            Status::IOError(s) => s@,
        }
    }

    /// True iff this status reports a corruption.
    pub open spec fn is_corruption(&self) -> bool {
        self is Corruption
    }
}

} // verus!
