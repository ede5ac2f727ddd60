//! The error type shared by both table decoders.

use vstd::prelude::*;

verus! {

/// How a decode can fail.
///
/// Every failure aborts the whole decode: no partial table is ever returned.
#[derive(Debug, PartialEq, Eq)]
pub enum ProcError {
    /// A required field is missing from a line (wrong field count).
    MalformedRecord,
    /// A field expected to be numeric does not parse as an integer of the
    /// expected signedness, or overflows the target integer width.
    InvalidNumber,
    /// The underlying line source reported a failure while producing a line;
    /// the payload is the underlying fault's description as opaque text.
    SourceReadError(String),
}

} // verus!
