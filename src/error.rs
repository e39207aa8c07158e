use vstd::prelude::*;

verus! {

/// Why a log could not be read as a table of executions.
#[derive(Debug, Clone, Copy, PartialEq, Eq, Structural)]
pub enum Malformed {
    /// The text holds no line at all, so not even a header.
    MissingHeader,
    /// A line does not hold exactly four comma-separated cells.
    ColumnCount { found: usize },
    /// The elapsed-time cell of a data line is not a number of seconds in
    /// the form Rust reads as a float; `inf` and `NaN` are refused too.
    InvalidElapsed,
}

/// The errors of loading a log and of querying it.
#[derive(Debug, Clone, Copy, PartialEq, Eq, Structural)]
pub enum Error {
    /// The log breaks the fixed schema; `line` counts from 1.
    MalformedFile { line: usize, problem: Malformed },
    /// A query was asked of a log without data rows.
    EmptyDataset,
    /// A percentile outside `(0, 1]` was asked for.
    InvalidPercentile { numerator: u64, denominator: u64 },
}

} // verus!
