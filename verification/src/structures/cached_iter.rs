//! [CachedIter]: an iterator that has already fetched its next item, so it can be looked at.
use vstd::prelude::*;
use vstd::std_specs::iter::IteratorSpec;

verus! {

/// Holds the item the inner iterator gave last, ahead of handing it out.
#[verifier::reject_recursive_types(T)]
#[verifier::reject_recursive_types(TIter)]
pub struct CachedIter<T, TIter: Iterator<Item = T>> {
    current: Option<T>,
    iter: TIter,
}

impl<T, TIter: Iterator<Item = T>> CachedIter<T, TIter> {
    /// The fetched item, `None` once the inner iterator is done.
    pub closed spec fn current_view(&self) -> Option<T> {
        self.current
    }

    /// The inner iterator, after the fetched item.
    pub closed spec fn iter_view(&self) -> TIter {
        self.iter
    }

    /// Fetches the first item of `iter`.
    pub fn new(iter: TIter) -> (res: Self)
        ensures
            iter.obeys_prophetic_iter_laws() ==> {
                &&& res.iter_view().obeys_prophetic_iter_laws()
                &&& if iter.remaining().len() > 0 {
                    &&& res.current_view() == Some(iter.remaining()[0])
                    &&& res.iter_view().remaining() == iter.remaining().drop_first()
                } else {
                    res.current_view() is None
                }
            },
    {
        let mut iter = iter;
        let current = iter.next();
        Self { current, iter }
    }

    /// The fetched item.
    pub fn get(&self) -> (res: Option<&T>)
        ensures
            res == match self.current_view() {
                Some(v) => Some(&v),
                None => None,
            },
    {
        match &self.current {
            Some(v) => Some(v),
            None => None,
        }
    }

    /// The fetched item and the inner iterator.
    pub fn unwrap(self) -> (res: (Option<T>, TIter))
        ensures
            res.0 == self.current_view(),
            res.1 == self.iter_view(),
    {
        (self.current, self.iter)
    }

    /// Hands out the fetched item and fetches the next one.
    pub fn next(&mut self) -> (res: Option<T>)
        ensures
            res == old(self).current_view(),
            old(self).iter_view().obeys_prophetic_iter_laws() ==> {
                &&& final(self).iter_view().obeys_prophetic_iter_laws()
                &&& if old(self).iter_view().remaining().len() > 0 {
                    &&& final(self).current_view() == Some(old(self).iter_view().remaining()[0])
                    &&& final(self).iter_view().remaining() == old(self).iter_view().remaining().drop_first()
                } else {
                    final(self).current_view() is None
                }
            },
    {
        let next = self.iter.next();
        let mut res = next;
        core::mem::swap(&mut res, &mut self.current);
        res
    }
}

} // verus!
