//! [BindTo] and [Container]: types built against a factory.
use vstd::prelude::*;
use crate::defines::factory::Factory;

verus! {

/// A type that builds itself by binding to a part, selected by `f`, of the values that a factory
/// `CF` of `C`s makes.
pub trait BindTo<CF: Factory<T = C>, C> where Self: Sized {
    type T;

    /// Builds the value from the factory and the selector.
    fn bind_to<F: Fn(&C) -> &mut Self::T>(cf: &mut CF, f: F) -> Self;
}

/// Marks a type that holds values of type `C`.
pub trait Container<C> {}

} // verus!
