//! Summary statistics for the per-read log of a long-read sequencing run.
//!
//! The log is a tab-separated table with a header line; each further line
//! describes one read by its length, a quality score or a pass flag, and a
//! sample tag. A run finds the columns it needs in the header ([`columns`]),
//! reads the rows one by one ([`row`]) into a running state ([`aggregate`])
//! and computes the order statistics of the read lengths at the end
//! ([`stats`]). [`run`] ties these together for the content of a whole file.
//!
//! All figures are exact: sums are kept in 128 bits, means and medians are
//! quotients of integers, and quality scores are compared as the decimals
//! that were written.

pub mod aggregate;
pub mod bytes;
pub mod columns;
pub mod error;
pub mod ident;
pub mod number;
pub mod present;
pub mod row;
pub mod run;
pub mod stats;
pub mod table;
pub mod tally;
