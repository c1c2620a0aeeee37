//! [CountableRangeStd]: an inclusive range of integers as a countable range, and its cursor.
use vstd::prelude::*;
use core::ops::{Range, RangeInclusive};
use crate::structures::countable_range::{CountableRangeItem, CountableRangeItemN, CountableRangeForRef};

verus! {

/// The integers `start..=end`, numbered from `start`.
#[derive(Debug, Clone, Copy)]
pub struct CountableRangeStd {
    start: isize,
    end: isize,
    index_len: usize,
}

/// A cursor at `item` in a [CountableRangeStd].
#[derive(Debug, Clone, Copy)]
pub struct CountableRangeStdItem {
    item: isize,
    ref_range: CountableRangeStd,
}

impl CountableRangeStd {
    /// The first integer.
    pub closed spec fn start_view(&self) -> int {
        self.start as int
    }

    /// The last integer.
    pub closed spec fn end_view(&self) -> int {
        self.end as int
    }

    /// The bounds are in order, one apart at most for the empty range, and the length fits.
    pub closed spec fn wf(&self) -> bool {
        &&& self.start - 1 <= self.end
        &&& self.end - self.start + 1 <= isize::MAX
        &&& self.index_len == self.end - self.start + 1
    }

    /// The number of integers.
    pub open spec fn len_spec(&self) -> int {
        self.end_view() - self.start_view() + 1
    }

    /// Well formed and not empty.
    pub open spec fn nonempty_wf(&self) -> bool {
        &&& self.wf()
        &&& self.start_view() <= self.end_view()
    }

    /// The range `range`; its length must fit in `isize`, and it is empty only when its end is just
    /// below its start.
    pub fn new(range: RangeInclusive<isize>) -> (res: Self)
        requires
            !range@.exhausted,
            range@.start - 1 <= range@.end,
            range@.end - range@.start + 1 <= isize::MAX,
        ensures
            res.wf(),
            res.start_view() == range@.start,
            res.end_view() == range@.end,
    {
        let (start, end) = range.into_inner();
        let index_len = (end - start + 1) as usize;
        CountableRangeStd { start, end, index_len }
    }

    /// The range `range.start..=range.end - 1`.
    pub fn from_range(range: Range<isize>) -> (res: Self)
        requires
            range.start <= range.end,
            range.end > isize::MIN,
            range.end - range.start <= isize::MAX,
        ensures
            res.wf(),
            res.start_view() == range.start,
            res.end_view() == range.end - 1,
    {
        let end = range.end - 1;
        Self::new(RangeInclusive::new(range.start, end))
    }

    /// The bounds as a range, and the length.
    pub fn into_inner(self) -> (res: (RangeInclusive<isize>, usize))
        requires
            self.wf(),
        ensures
            !res.0@.exhausted,
            res.0@.start == self.start_view(),
            res.0@.end == self.end_view(),
            res.1 == self.len_spec(),
    {
        (RangeInclusive::new(self.start, self.end), self.index_len)
    }

    /// The cursor at `input`, which must lie in the range.
    pub fn make(self, input: isize) -> (res: CountableRangeStdItem)
        requires
            self.start_view() <= input <= self.end_view(),
        ensures
            res.item_view() == input,
            res.range_view() == self,
    {
        CountableRangeStdItem { item: input, ref_range: self }
    }

    /// `Ok(input)` when `input` lies in the range, else `Err(())`.
    pub fn can_make(&self, input: isize) -> (res: Result<isize, ()>)
        ensures
            res == (if self.start_view() <= input <= self.end_view() {
                Ok::<isize, ()>(input)
            } else {
                Err::<isize, ()>(())
            }),
    {
        if self.start <= input && input <= self.end {
            Ok(input)
        } else {
            Err(())
        }
    }
}

impl CountableRangeStdItem {
    /// The integer the cursor is at.
    pub closed spec fn item_view(&self) -> int {
        self.item as int
    }

    /// The range of the cursor.
    pub closed spec fn range_view(&self) -> CountableRangeStd {
        self.ref_range
    }

    /// The integer the cursor is at.
    pub fn inner(&self) -> (res: &isize)
        ensures
            *res == self.item_view(),
    {
        &self.item
    }

    /// The integer and the range.
    pub fn into_inner(self) -> (res: (isize, CountableRangeStd))
        ensures
            res.0 == self.item_view(),
            res.1 == self.range_view(),
    {
        (self.item, self.ref_range)
    }
}

impl CountableRangeItem for CountableRangeStdItem {
    open spec fn len_view(&self) -> int {
        self.range_view().len_spec()
    }

    open spec fn index_view(&self) -> int {
        self.item_view() - self.range_view().start_view()
    }

    open spec fn item_wf(&self) -> bool {
        &&& self.range_view().nonempty_wf()
        &&& self.range_view().start_view() <= self.item_view() <= self.range_view().end_view()
    }

    proof fn lemma_item_wf(&self) {
    }

    fn index(&self) -> (res: usize) {
        (self.item - self.ref_range.start) as usize
    }

    fn range_len(&self) -> (res: usize) {
        self.ref_range.index_len
    }

    fn next_assign(&mut self) -> (stayed: bool)
        ensures
            final(self).range_view() == old(self).range_view(),
    {
        if self.item < self.ref_range.end {
            self.item = self.item + 1;
            true
        } else {
            self.item = self.ref_range.start;
            false
        }
    }

    fn prev_assign(&mut self) -> (stayed: bool)
        ensures
            final(self).range_view() == old(self).range_view(),
    {
        if self.ref_range.start < self.item {
            self.item = self.item - 1;
            true
        } else {
            self.item = self.ref_range.end;
            false
        }
    }

    fn first_assign(&mut self)
        ensures
            final(self).range_view() == old(self).range_view(),
    {
        self.item = self.ref_range.start;
    }

    fn last_assign(&mut self)
        ensures
            final(self).range_view() == old(self).range_view(),
    {
        self.item = self.ref_range.end;
    }
}

impl CountableRangeItemN for CountableRangeStdItem {
    fn move_n_assign(&mut self, n: isize) -> (res: isize) {
        let index_len = self.ref_range.index_len as isize;
        let ghost idx = self.index_view();
        let ghost q = n as int / index_len as int;
        let ghost r = n as int % index_len as int;
        proof {
            lemma_quotient_bounds(n as int, index_len as int);
        }
        let mut n_div = n.checked_div_euclid(index_len).unwrap();
        let n_rem = n.checked_rem_euclid(index_len).unwrap() as usize;
        let mut next_idx: usize = (self.item - self.ref_range.start) as usize + n_rem;
        if next_idx >= self.ref_range.index_len {
            next_idx = next_idx - self.ref_range.index_len;
            n_div = n_div + 1;
            assert(idx + n == n_div * index_len + next_idx) by (nonlinear_arith)
                requires
                    n == index_len * q + r,
                    n_div == q + 1,
                    next_idx == idx + r - index_len,
            ;
        } else {
            assert(idx + n == n_div * index_len + next_idx) by (nonlinear_arith)
                requires
                    n == index_len * q + r,
                    n_div == q,
                    next_idx == idx + r,
            ;
        }
        proof {
            vstd::arithmetic::div_mod::lemma_fundamental_div_mod_converse(
                idx + n,
                index_len as int,
                n_div as int,
                next_idx as int,
            );
        }
        self.item = self.ref_range.start + next_idx as isize;
        n_div
    }
}

/// Bounds on the Euclidean quotient and remainder of `n` by `d`: the quotient fits where `n` does,
/// and is below `isize::MAX` where the remainder is not zero.
proof fn lemma_quotient_bounds(n: int, d: int)
    requires
        d >= 1,
        isize::MIN <= n <= isize::MAX,
    ensures
        isize::MIN <= n / d <= isize::MAX,
        0 <= n % d < d,
        n == d * (n / d) + n % d,
        n % d != 0 ==> n / d < isize::MAX,
{
    vstd::arithmetic::div_mod::lemma_fundamental_div_mod(n, d);
    let q = n / d;
    let r = n % d;
    assert(isize::MIN <= q <= isize::MAX) by (nonlinear_arith)
        requires
            n == d * q + r,
            0 <= r < d,
            d >= 1,
            isize::MIN <= n <= isize::MAX,
    ;
    assert(r != 0 ==> q < isize::MAX) by (nonlinear_arith)
        requires
            n == d * q + r,
            0 <= r < d,
            d >= 1,
            n <= isize::MAX,
            isize::MAX > 0,
    ;
}

impl CountableRangeForRef for CountableRangeStd {
    type Item = CountableRangeStdItem;

    open spec fn range_len_view(&self) -> int {
        self.len_spec()
    }

    open spec fn range_wf(&self) -> bool {
        self.nonempty_wf()
    }

    proof fn lemma_range_wf(&self) {
    }

    fn item_first(self) -> (res: CountableRangeStdItem)
        ensures
            res.range_view() == self,
            res.item_view() == self.start_view(),
    {
        let res = CountableRangeStdItem { item: self.start, ref_range: self };
        assert(res.range_view() == self);
        assert(res.item_wf());
        res
    }

    fn item_last(self) -> (res: CountableRangeStdItem)
        ensures
            res.range_view() == self,
            res.item_view() == self.end_view(),
    {
        CountableRangeStdItem { item: self.end, ref_range: self }
    }

    fn item_from_index(self, index: usize) -> (res: Option<CountableRangeStdItem>)
        ensures
            res is Some <==> index < self.range_len_view(),
            res matches Some(item) ==> item.range_view() == self && item.item_view()
                == self.start_view() + index,
    {
        if index < self.index_len {
            proof {
                vstd::arithmetic::div_mod::lemma_small_mod(index as nat, self.range_len_view() as nat);
            }
            Some(CountableRangeStdItem { item: self.start + index as isize, ref_range: self })
        } else {
            None
        }
    }

    fn index_len(&self) -> (res: usize) {
        self.index_len
    }
}

} // verus!
