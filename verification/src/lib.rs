//! A bounded-concurrency batch pipeline for daily ticker gains.
//!
//! The library holds the verified core of a small market-data tool: it
//! extracts ticker symbols from a comma-separated blob, partitions them into
//! fixed-size batches, tracks each fetch-transform-persist job through its
//! lifecycle, converts daily quotes into exact rational gain values, and
//! models the files a run persists. Network, filesystem and CSV plumbing
//! live outside the library and only hand plain values in and out.

pub mod clock;
pub mod gains;
pub mod job;
pub mod run;
pub mod schedule;
pub mod symbols;
