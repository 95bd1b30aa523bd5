//! Per-key aggregate statistics (minimum, maximum, mean, count) over a
//! delimited text buffer whose lines have the shape `key;value`, where the
//! value is a signed fixed-point number with exactly one decimal digit.
//!
//! The pipeline: partition the buffer into newline-aligned chunks, aggregate
//! each chunk into a per-key statistics map, merge the per-chunk maps, and
//! emit one formatted line per key in ascending key order.

pub mod aggregate;
pub mod merge;
pub mod parse;
pub mod partition;
pub mod pipeline;
pub mod render;
pub mod scan;
pub mod stats;
pub mod table;
