//! [ShiftedArray] and [ShiftedVec]: storage addressed by `isize` indexes starting at a shift.
use vstd::prelude::*;
use core::ops::Range;

verus! {

/// `<[T; N] as TryFrom<Vec<T>>>::try_from`: a vector of exactly `N` items becomes the array of
/// those items in the same order (std documents the conversion succeeding exactly when the
/// lengths match).
#[verifier::external_body]
pub(crate) fn array_from_vec<T, const N: usize>(v: Vec<T>) -> (res: [T; N])
    requires
        v@.len() == N,
    ensures
        res@ == v@,
{
    <[T; N] as TryFrom<Vec<T>>>::try_from(v).ok().unwrap()
}

/// `COUNT` values addressed by the indexes `shift..shift + COUNT`.
#[derive(Debug, Clone, Copy, PartialEq, Eq, PartialOrd, Ord, Hash)]
pub struct ShiftedArray<T, const COUNT: usize> {
    values: [T; COUNT],
    shift: isize,
}

impl<T, const COUNT: usize> ShiftedArray<T, COUNT> {
    /// The values, the one at index `shift` first.
    pub closed spec fn values_view(&self) -> Seq<T> {
        self.values@
    }

    /// The index of the first value.
    pub closed spec fn shift_view(&self) -> isize {
        self.shift
    }

    /// Calls `cb` on each index `shift..shift + COUNT` in order.
    pub fn from_fn<F: Fn(isize) -> T>(shift: isize, cb: F) -> (res: Self)
        requires
            COUNT <= isize::MAX,
            shift + COUNT <= isize::MAX + 1,
            forall|j: isize| shift <= j < shift + COUNT ==> call_requires(cb, (j,)),
        ensures
            res.shift_view() == shift,
            res.values_view().len() == COUNT,
            forall|i: int|
                0 <= i < COUNT ==> call_ensures(
                    cb,
                    ((shift + i) as isize,),
                    #[trigger] res.values_view()[i],
                ),
    {
        let mut v: Vec<T> = Vec::new();
        let mut i: usize = 0;
        while i < COUNT
            invariant
                0 <= i <= COUNT,
                COUNT <= isize::MAX,
                shift + COUNT <= isize::MAX + 1,
                v@.len() == i,
                forall|j: isize| shift <= j < shift + COUNT ==> call_requires(cb, (j,)),
                forall|j: int|
                    0 <= j < i ==> call_ensures(cb, ((shift + j) as isize,), #[trigger] v@[j]),
            decreases COUNT - i,
        {
            let idx = shift + i as isize;
            let x = cb(idx);
            v.push(x);
            proof {
                assert forall|j: int| 0 <= j < i + 1 implies call_ensures(
                    cb,
                    ((shift + j) as isize,),
                    #[trigger] v@[j],
                ) by {
                    if j == i {
                        assert(((shift + j) as isize) == idx);
                    }
                }
            }
            i = i + 1;
        }
        let values = array_from_vec::<T, COUNT>(v);
        Self { values, shift }
    }

    /// The values.
    pub fn get_raw(&self) -> (res: &[T; COUNT])
        ensures
            res@ == self.values_view(),
    {
        &self.values
    }

    /// The values, mutably.
    pub fn get_mut_raw(&mut self) -> (res: &mut [T; COUNT])
        ensures
            res@ == old(self).values_view(),
            final(self).values_view() == final(res)@,
            final(self).shift_view() == old(self).shift_view(),
    {
        &mut self.values
    }

    /// The values, taken out.
    pub fn into_raw(self) -> (res: [T; COUNT])
        ensures
            res@ == self.values_view(),
    {
        self.values
    }

    /// The value at `index`.
    pub fn index(&self, index: isize) -> (res: &T)
        requires
            COUNT <= isize::MAX,
            self.shift_view() <= index < self.shift_view() + COUNT,
        ensures
            *res == self.values_view()[index - self.shift_view()],
    {
        &self.values[(index - self.shift) as usize]
    }

    /// The value at `index`, mutably.
    pub fn index_mut(&mut self, index: isize) -> (res: &mut T)
        requires
            COUNT <= isize::MAX,
            old(self).shift_view() <= index < old(self).shift_view() + COUNT,
        ensures
            *res == old(self).values_view()[index - old(self).shift_view()],
            final(self).values_view() == old(self).values_view().update(
                index - old(self).shift_view(),
                *final(res),
            ),
            final(self).shift_view() == old(self).shift_view(),
    {
        &mut self.values[(index - self.shift) as usize]
    }
}

/// Values addressed by the indexes `shift..shift + len`.
#[derive(Debug, Clone, PartialEq, Eq, PartialOrd, Ord, Hash)]
pub struct ShiftedVec<T> {
    values: Vec<T>,
    shift: isize,
}

impl<T> ShiftedVec<T> {
    /// The values, the one at index `shift` first.
    pub closed spec fn values_view(&self) -> Seq<T> {
        self.values@
    }

    /// The index of the first value.
    pub closed spec fn shift_view(&self) -> isize {
        self.shift
    }

    /// Calls `cb` on each index of `size` in order.
    pub fn from_fn<F: Fn(isize) -> T>(size: Range<isize>, cb: F) -> (res: Self)
        requires
            forall|i: isize| size.start <= i < size.end ==> call_requires(cb, (i,)),
        ensures
            res.shift_view() == size.start,
            res.values_view().len() == if size.start < size.end {
                size.end - size.start
            } else {
                0
            },
            forall|i: int|
                0 <= i < res.values_view().len() ==> call_ensures(
                    cb,
                    ((size.start + i) as isize,),
                    #[trigger] res.values_view()[i],
                ),
    {
        let mut values: Vec<T> = Vec::new();
        let mut i = size.start;
        while i < size.end
            invariant
                size.start <= i || size.end <= size.start,
                size.start <= i ==> values@.len() == i - size.start,
                size.end <= size.start ==> values@.len() == 0 && i == size.start,
                i <= size.end || size.end <= size.start,
                forall|j: isize| size.start <= j < size.end ==> call_requires(cb, (j,)),
                forall|j: int|
                    0 <= j < values@.len() ==> call_ensures(
                        cb,
                        ((size.start + j) as isize,),
                        #[trigger] values@[j],
                    ),
            decreases size.end - i,
        {
            let v = cb(i);
            values.push(v);
            i = i + 1;
        }
        Self { shift: size.start, values }
    }

    /// The values.
    pub fn get_raw(&self) -> (res: &Vec<T>)
        ensures
            res@ == self.values_view(),
    {
        &self.values
    }

    /// The values, mutably.
    pub fn get_mut_raw(&mut self) -> (res: &mut Vec<T>)
        ensures
            res@ == old(self).values_view(),
            final(self).values_view() == final(res)@,
            final(self).shift_view() == old(self).shift_view(),
    {
        &mut self.values
    }

    /// The values, taken out.
    pub fn into_raw(self) -> (res: Vec<T>)
        ensures
            res@ == self.values_view(),
    {
        self.values
    }

    /// The value at `index`.
    pub fn index(&self, index: isize) -> (res: &T)
        requires
            self.shift_view() <= index,
            index - self.shift_view() < self.values_view().len(),
            index - self.shift_view() <= isize::MAX,
        ensures
            *res == self.values_view()[index - self.shift_view()],
    {
        &self.values[(index - self.shift) as usize]
    }

    /// The value at `index`, mutably.
    pub fn index_mut(&mut self, index: isize) -> (res: &mut T)
        requires
            old(self).shift_view() <= index,
            index - old(self).shift_view() < old(self).values_view().len(),
            index - old(self).shift_view() <= isize::MAX,
        ensures
            *res == old(self).values_view()[index - old(self).shift_view()],
            final(self).values_view() == old(self).values_view().update(
                index - old(self).shift_view(),
                *final(res),
            ),
            final(self).shift_view() == old(self).shift_view(),
    {
        &mut self.values[(index - self.shift) as usize]
    }
}

} // verus!
