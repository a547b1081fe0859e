//! The crate-wide error type: every fallible operation returns
//! `RubbleResult`.

use vstd::prelude::*;
use crate::status::Status;

verus! {

/// Error returned by decoders, builders and readers.
#[derive(Debug, Clone, PartialEq, Eq)]
pub enum RubbleError {
    /// A typed status, most often a `Corruption` or an `IOError`.
    Status(Status),
    /// A plain description with no further structure.
    Other(&'static str),
    /// A failure with no detail at all.
    GeneralError,
}

pub type RubbleResult<T> = Result<T, RubbleError>;

impl RubbleError {
    /// True iff this error carries a corruption status.
    pub open spec fn is_corruption(&self) -> bool {
        match self {
            RubbleError::Status(s) => s.is_corruption(),
            _ => false,
        }
    }
}

} // verus!
