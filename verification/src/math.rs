//! Numeric helpers that hold no floating point themselves.
pub mod normal_cdf;
