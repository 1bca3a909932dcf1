//! A verified range-assignment engine: an interval map over a discrete
//! unsigned domain that accepts closed ranges in priority order (later
//! insertions overwrite earlier ones pointwise) and enumerates the result
//! as the smallest sequence of maximal, non-overlapping, coalesced runs.

pub mod laws;
pub mod parse;
pub mod pipeline;
pub mod store;
