//! Construction traits: a factory of values and types that bind themselves to one.
pub mod factory;
pub mod bind_to;
