//! Comparison of Rust micro-benchmark reports.
//!
//! The crate parses benchmark result lines from textual reports, regroups the
//! parsed records by file or by module, joins records that share a benchmark
//! name across two sources, and computes and filters the numeric comparison
//! between them.

pub mod benchmark;

pub mod cmd;

pub mod pattern;

pub mod pipeline;

pub mod text;

pub mod utils;
