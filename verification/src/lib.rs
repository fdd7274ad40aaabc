//! Counts non-overlapping occurrences of a fixed byte pattern, chunk by chunk,
//! and aggregates per-file counts into a report keyed by path.
//!
//! The matching and scanning logic is verified: [`chunk`] counts matches inside
//! one buffer, [`scan`] drives the buffer-by-buffer scan with its boundary
//! correction, [`repetition`] proves the scan exact on periodic content, and
//! [`report`] merges per-file results into a single map.

pub mod chunk;
pub mod repetition;
pub mod report;
pub mod scan;
