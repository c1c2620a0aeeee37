//! [SingleFunc]: a function named by a type, and [Sq], squaring.
use vstd::prelude::*;
use vstd::std_specs::ops::MulSpec;
use core::marker::PhantomData;
use core::ops::Mul;

verus! {

/// A function from `Input` to `Output` that a type stands for.
pub trait SingleFunc {
    type Input;
    type Output;

    /// The inputs the function accepts.
    spec fn call_req(input: Self::Input) -> bool;

    /// Applies the function.
    fn call(input: Self::Input) -> Self::Output
        requires
            Self::call_req(input),
    ;
}

/// `v * v`.
pub fn sq<T: Mul<Output = T> + Copy>(v: T) -> (res: T)
    requires
        v.mul_req(v),
    ensures
        T::obeys_mul_spec() ==> res == v.mul_spec(v),
{
    v * v
}

/// The squaring function of `T`, as a type.
#[verifier::reject_recursive_types(T)]
pub struct Sq<T: Mul<Output = T> + Copy>(pub PhantomData<T>);

impl<T: Mul<Output = T> + Copy> SingleFunc for Sq<T> {
    type Input = T;

    type Output = T;

    open spec fn call_req(input: T) -> bool {
        input.mul_req(input)
    }

    fn call(input: T) -> (res: T)
        ensures
            T::obeys_mul_spec() ==> res == input.mul_spec(input),
    {
        sq(input)
    }
}

} // verus!
