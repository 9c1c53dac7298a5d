//! Median fusion of redundant time-base-corrected tape captures.
//!
//! Several digitizations of the same analog tape pass are combined,
//! sample by sample, into one cleaned-up capture: the fused sample is
//! the median across the aligned inputs, per-input squared error is
//! accumulated for quality metrics, each input's known dropout spans
//! are merged into a quorum-based consensus map, and a synchronizer
//! keeps the input streams aligned across duplicated fields.

pub mod dropout;
pub mod median;
pub mod metrics;
pub mod pipeline;
pub mod sync;
