//! [CountedIterator]
use vstd::prelude::*;

verus! {

/// Pairs an iterator's items with their positions.
pub struct CountedIterator<TIter> {
    index: usize,
    iter: TIter,
}

impl<TIter> CountedIterator<TIter> {
    /// The position of the next item.
    pub closed spec fn index_view(&self) -> usize {
        self.index
    }

    /// The wrapped iterator.
    pub closed spec fn iter_view(&self) -> TIter {
        self.iter
    }

    /// Starts counting at zero.
    pub fn new(iter: TIter) -> (res: Self)
        ensures
            res.index_view() == 0,
            res.iter_view() == iter,
    {
        Self { index: 0, iter }
    }
}

} // verus!
