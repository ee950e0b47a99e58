//! What can be wrong with a line of the definitions or of the log.

use vstd::prelude::*;

verus! {

/// The fault found in one line.
#[derive(Clone, Copy, Debug, PartialEq, Eq, Structural)]
pub enum LineError {
    /// A definition line with no habit name after its cadence.
    MissingName,
    /// A definition line whose cadence is not an `i64`.
    BadCadence,
    /// A log line with fewer than three tab-separated fields.
    MissingField,
    /// A log line whose first field is not the ISO date of an existing day.
    BadDate,
}

/// A line that could not be read, with its index (from 0) among the lines.
#[derive(Clone, Copy, Debug, PartialEq, Eq, Structural)]
pub struct ParseError {
    pub line: usize,
    pub kind: LineError,
}

} // verus!
