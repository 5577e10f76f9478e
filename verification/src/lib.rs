//! Analytics for per-reader library-borrowing histories.
//!
//! The crate ingests spreadsheet rows (already decoded into plain cell
//! values), normalizes them into borrow records, and computes descriptive
//! statistics per source file: borrow frequency, reading duration, favorite
//! author and category, monthly distribution, the most-borrowed book, and
//! the "full attendance" months derived from ISO-week coverage.
//!
//! - [`cells`] holds the decoded cell values, [`records`] the data model;
//! - [`calendar`] proves the date arithmetic: serial day counts with the
//!   1899-12-30 epoch, and ISO 8601 weeks;
//! - [`text`] and [`parse`] turn cell text into fields, prices and dates;
//! - [`tally`] proves the order-preserving counters, [`stats`] the
//!   aggregates and [`attendance`] the ISO-week month coverage;
//! - [`analyzer`] is the session tying ingestion and the queries together.

pub mod analyzer;
pub mod attendance;
pub mod calendar;
pub mod cells;
pub mod parse;
pub mod records;
pub mod stats;
pub mod tally;
pub mod text;

