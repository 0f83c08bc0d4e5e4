//! Per-read and aggregate quality statistics for long-read sequencing
//! alignments: identity computation, read classification and accumulation,
//! and summary aggregation (N50, means, medians, flag tallies, duplex rate).

pub mod fixed;
pub mod record;
pub mod stats;
