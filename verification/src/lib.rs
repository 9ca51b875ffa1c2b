//! Availability history engine: turns a stream of timestamped health
//! observations into a compact run-length-encoded history, rebuilds that
//! history from a legacy flat observation log, and downsamples a run history
//! into a fixed number of classified display buckets with summary statistics.
//!
//! All times are milliseconds since the Unix epoch, held as `i64`.

pub mod client;
pub mod config;
pub mod db;
pub mod fmt;
pub mod migrate;
pub mod web;
