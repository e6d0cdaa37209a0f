//! Statistics over the console output of the `kdig` DNS diagnostic tool.
//!
//! The library extracts one record of query metrics from the free-form text
//! of a single capture file, and aggregates a collection of such records
//! into summary statistics and per-server / per-protocol counts.
//!
//! Query times are held as whole microseconds (thousandths of the
//! millisecond values the tool prints), so every statistic - mean and
//! median included, as exact fractions - is computed without rounding.

pub mod extract;
pub mod groups;
pub mod numbers;
pub mod pattern;
pub mod report;
pub mod stats;
pub mod text;
