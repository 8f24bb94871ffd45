//! Metric primitives: monotonic counters, named gauges, and alert levels.
//!
//! The aggregating monitor that owns collections of these, with its latency
//! histograms and float-valued thresholds, is unverified shell code around
//! the library; these are the primitives it is built from.

pub mod counter;
pub mod gauge;
pub mod threshold;
