//! Verified bank-statement reporting.
//!
//! The crate ingests tab-delimited account exports (as vectors of lines),
//! parses them into [`account::Account`] values with amounts held in integer
//! cents, aggregates income/expense/profit summaries per account and per
//! month, detects recurring expense payments, and renders the deterministic
//! textual report.  File and terminal I/O stay outside the crate: callers
//! hand in lines and receive the report as a vector of lines.

pub mod account;
pub mod amount;
pub mod parse;
pub mod recurrent;
pub mod report;
pub mod sort;
pub mod style;
pub mod text;
