//! The ways in which the pipeline fails.

use vstd::prelude::*;

verus! {

/// Why a record, or a report, could not be processed.
#[derive(Clone, Copy, Debug, PartialEq, Eq, Structural)]
pub enum ErrorKind {
    /// The reading of a record is not a decimal number with one to three
    /// integer digits, one fractional digit and an optional leading minus.
    MalformedReading,
    /// A line holds no field delimiter.
    MissingDelimiter,
    /// A station name to be reported is absent from the table.
    InvariantViolation,
}

/// A failure while reading records from a buffer: what went wrong, and the
/// offset in the buffer of the first byte of the offending line.
#[derive(Clone, Copy, Debug, PartialEq, Eq, Structural)]
pub struct RecordError {
    pub kind: ErrorKind,
    pub offset: usize,
}

} // verus!
