//! [IdOf]: an id that remembers the type of what it names.
use vstd::prelude::*;
use core::marker::PhantomData;

verus! {

/// An index into a list, typed by what it names.
pub struct IdOf<T: ?Sized> {
    id: usize,
    p: PhantomData<T>,
}

impl<T: ?Sized> IdOf<T> {
    /// The index.
    pub closed spec fn id_view(&self) -> usize {
        self.id
    }

    /// The id for index `id`.
    pub fn new(id: usize) -> (res: Self)
        ensures
            res.id_view() == id,
    {
        IdOf { id, p: PhantomData }
    }

    /// The index.
    pub fn id(&self) -> (res: usize)
        ensures
            res == self.id_view(),
    {
        self.id
    }
}

} // verus!
