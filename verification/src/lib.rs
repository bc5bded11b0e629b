//! A single-pass scan-aggregate-merge pipeline over a delimited text file.
//!
//! The input is a byte region holding `<key><separator><value>` lines, where
//! the value is a decimal number with at most one fractional digit.  The
//! region is partitioned into line-aligned byte ranges, each range is
//! aggregated into a per-key `(min, max, sum, count)` table of fixed-point
//! values scaled by ten, the tables are merged pairwise, and the merged table
//! is rendered as one sorted, fixed-precision summary line.
use vstd::prelude::*;

pub mod aggregate;
pub mod format;
pub mod hash;
pub mod lines;
pub mod mapper;
pub mod parse;
pub mod partition;
pub mod pipeline;
pub mod table;

verus! {

/// Field separator between the key and the value of a record.
pub const SEPARATOR: u8 = 59;

/// Line terminator between records.
pub const TERMINATOR: u8 = 10;

/// Every fault the pipeline can detect.  The policy is fail-fast: any fault
/// aborts the whole pass, so no partial table ever reaches the formatter.
#[derive(Clone, Copy, Debug, PartialEq, Eq, Structural)]
pub enum Error {
    /// A worker count of zero was requested.
    ZeroWorkers,
    /// A partition boundary search ran past the end of the region without
    /// finding a line terminator.
    NoTerminator,
    /// A line holds no field separator.
    MissingSeparator,
    /// A value field is not a decimal number with at most one fractional
    /// digit, or its scaled value does not fit the stored range.
    BadNumber,
    /// A merged per-key count would not fit its machine word.
    CountOverflow,
}

} // verus!
