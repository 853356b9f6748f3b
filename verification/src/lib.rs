//! A step-function resampling and amplitude-normalization engine.
//!
//! The library turns a sparse, irregularly-timestamped log of scalar
//! measurements into a uniformly-clocked, bounded-integer sample sequence:
//! the parser expands raw `timestamp value` lines into a step-shaped series,
//! the resampler walks that series at a fixed rate with zero-order hold, and
//! the normalizer rescales the held values into a signed 16-bit range.
//! Times and values are exact fixed-point numbers in millionths, so every
//! boundary and hold decision is bit-exact and fully specified.

pub mod error;
pub mod extent;
pub mod laws;
pub mod normalize;
pub mod parse;
pub mod pipeline;
pub mod resample;
pub mod series;
