//! The error taxonomy: malformed persisted text, or a runtime shape
//! mismatch. Both are returned to the caller; verified code never
//! panics on malformed input data.

use vstd::prelude::*;

verus! {

/// Why a library call failed.
#[derive(Clone, Copy, Debug, PartialEq, Eq, Structural)]
pub enum VaiError {
    /// Persisted text is malformed: a wrong column count, an unparsable
    /// number, too few data rows, or an unparsable count header.
    FormatError,
    /// A runtime shape mismatch: an input or a persisted matrix whose
    /// width does not fit the network.
    DimensionError,
}

impl VaiError {
    /// A short description of the error.
    pub fn message(&self) -> (s: &'static str)
        ensures
            (*self is FormatError) ==> s@ == "malformed network text"@,
            (*self is DimensionError) ==> s@ == "dimension mismatch"@,
    {
        match self {
            VaiError::FormatError => "malformed network text",
            VaiError::DimensionError => "dimension mismatch",
        }
    }
}

} // verus!
