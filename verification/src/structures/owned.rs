//! [Owned]
use vstd::prelude::*;
use core::ops::Deref;

verus! {

/// Acts like a [Deref] smart pointer but owns the value, for uses that expect one.
#[derive(Debug, Clone, Copy)]
pub struct Owned<T>(pub T);

impl<T> Deref for Owned<T> {
    type Target = T;

    fn deref(&self) -> (res: &T)
        ensures
            *res == self.0,
    {
        &self.0
    }
}

} // verus!
