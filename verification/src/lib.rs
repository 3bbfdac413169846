//! A small streaming CSV query engine.
//!
//! The engine scans a delimited text file held in memory as bytes, splits it
//! into rows on the newline byte, evaluates an optional compound predicate
//! (OR of AND of three-token comparisons) against each row, and either
//! projects selected fields or folds matching rows into per-column aggregate
//! accumulators (`MIN`, `MAX`, `SUM`, `AVG`, `COUNT`).
//!
//! Numbers are exact fixed-point decimals with nine fractional digits; text
//! that does not fit that domain (including text that is not a number at all)
//! behaves like an IEEE NaN: `!=` comparisons against it are true, every
//! other comparison is false, and aggregates skip it. Whitespace handling
//! (trimming and token splitting) recognises the ASCII whitespace characters.
//!
//! Rows are byte ranges between newline bytes; a carriage return before a
//! newline is kept as the last byte of its row, and the final row is produced
//! even when the file does not end with a newline.

use vstd::prelude::*;

pub mod aggregates;
pub mod command;
pub mod condition;
pub mod csv_reader;
pub mod executor;
pub mod fields;
pub mod numeric;
pub mod parser;
pub mod seqtools;
pub mod text;

verus! {

/// Why a query could not run to completion.
#[derive(Clone, Copy, Debug, PartialEq, Eq)]
pub enum QueryError {
    /// The data had no rows, so no header line could be read.
    MissingHeader,
    /// A data row was not valid UTF-8.
    Utf8Decode,
}

} // verus!
