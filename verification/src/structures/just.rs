//! [Just]: a plain value behind [Deref].
use vstd::prelude::*;
use core::ops::Deref;

verus! {

/// Holds a value and dereferences to it.
pub struct Just<T>(pub T);

impl<T> Deref for Just<T> {
    type Target = T;

    fn deref(&self) -> (res: &T)
        ensures
            *res == self.0,
    {
        &self.0
    }
}

} // verus!
