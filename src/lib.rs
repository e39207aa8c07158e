//! Latency statistics over a log of repeated executions of one operation.
//!
//! A log is CSV text with the columns `timestamp`, `elapsedtime_seconds`,
//! `trace_id` and `jaeger_url`. It is loaded into an [`Analyzer`], which
//! answers order-statistic queries: the fastest and the slowest execution
//! (with their trace ids) and percentiles under the "higher" rank rule.
//!
//! Elapsed times are held exactly, as whole nanoseconds, and a percentile
//! is an exact fraction `numerator / denominator`.

pub mod analyzer;
pub mod cli;
pub mod decimal;
pub mod error;
pub mod laws;
pub mod parse;

pub use analyzer::{Analyzer, Fraction, Row};
pub use cli::{csv_analysis, Args, CSVAnalysis, Commands, Report};
pub use error::{Error, Malformed};
