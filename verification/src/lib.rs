//! Analysis of overlapping timed executions: a sweep that attributes pairwise
//! overlap time to intervals ordered by start time, binning and order
//! statistics over the derived measures, and the parsing and configuration
//! rules that surround them.

pub mod binning;
pub mod color;
pub mod config;
pub mod criteria;
pub mod datetime;
pub mod filter;
pub mod import;
pub mod overlap;
pub mod statistics;
pub mod text;
pub mod units;
