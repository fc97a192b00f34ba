//! Aggregation engine for a continuous-benchmarking dashboard.
//!
//! A set of per-commit benchmark records is aligned into dense,
//! equal-length time series: one value slot per commit per benchmark
//! name, with an explicit missing marker where a commit did not report
//! that benchmark.

pub mod data;
pub mod model;
pub mod aggregate;
pub mod laws;
pub mod sort;
