//! Failures reported by the storage engine and the feed.
use vstd::prelude::*;

verus! {

/// Why an operation on the log failed.
#[derive(Debug, Clone, Copy, PartialEq, Eq, Structural)]
pub enum Error {
    /// The underlying byte store could not read or write.
    Io,
    /// A stored record does not have the shape of its kind.
    Decode,
    /// The payload's length differs from the length its tree node records.
    LengthMismatch { expected: usize, actual: usize },
    /// No record exists for the tree node at this flat-tree index.
    NotFound { index: usize },
    /// Lengths read back from the tree do not add up to a usable position.
    Corrupt,
}

} // verus!
