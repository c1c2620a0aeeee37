//! [Factory]: something that makes values from a parameter.
use vstd::prelude::*;

verus! {

/// Makes values of type `T` from a parameter of type `TParam`.
pub trait Factory {
    type T;
    type TParam;

    /// Makes one value.
    fn create(&self, p: Self::TParam) -> Self::T;
}

} // verus!
