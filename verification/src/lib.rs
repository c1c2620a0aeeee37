//! Verified collections and n-dimensional index structures.
pub mod collections;
pub mod defines;
pub mod math;
pub mod single_func;
pub mod structures;
