//! Time-series charts kept up to date from a source of record: calendar buckets at day,
//! week, month and year resolution, weighted roll-up of a fine series into a coarser one,
//! exact decimal values with their stored text, and a per-chart store that re-merges a
//! trailing window on each update.

pub mod calendar;
pub mod chart;
pub mod rollup;
pub mod source;
pub mod store;
pub mod value;
