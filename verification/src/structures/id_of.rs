//! [IdOf] and [IdOf1]: ids typed by what they name.
use vstd::prelude::*;
use core::marker::PhantomData;

verus! {

/// Something that names a `T` by an index.
pub trait IdOf<T> {
    /// The index, as a value.
    spec fn id_spec(&self) -> usize;

    /// The index.
    fn id(&self) -> (res: usize)
        ensures
            res == self.id_spec(),
    ;
}

/// An index typed by what it names.
pub struct IdOf1<T> {
    id: usize,
    p: PhantomData<T>,
}

impl<T> IdOf1<T> {
    /// The index.
    pub closed spec fn id_view(&self) -> usize {
        self.id
    }

    /// The id for index `id`.
    pub fn new(id: usize) -> (res: Self)
        ensures
            res.id_view() == id,
    {
        IdOf1 { id, p: PhantomData }
    }

    /// The index.
    pub fn id(&self) -> (res: usize)
        ensures
            res == self.id_view(),
    {
        self.id
    }
}

impl<T> IdOf<T> for IdOf1<T> {
    open spec fn id_spec(&self) -> usize {
        self.id_view()
    }

    fn id(&self) -> (res: usize) {
        self.id
    }
}

} // verus!
