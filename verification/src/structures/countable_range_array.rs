//! [CountableRangeMergeArray]: the product of `LEN` countable ranges of one type, numbered with
//! range 0 most significant, and its cursor [CountableRangeMergeArrayItem].
use vstd::prelude::*;
use crate::collections::shifted_array::array_from_vec;
use crate::structures::countable_range::{CountableRangeItem, CountableRangeItemN, CountableRangeForRef};
use crate::structures::horner::{
    horner_value, horner_prod, digits_below, lens_positive, lemma_horner_bound,
    lemma_horner_prod_positive, lemma_horner_split, lemma_horner_front, lemma_horner_update,
    lemma_horner_extremes,
};

verus! {

/// One carry step upwards: digits after `i` went from their maximum to zero and digit `i` grew by
/// one, so the value grew by one.
proof fn lemma_carry_up(d: Seq<int>, e: Seq<int>, l: Seq<int>, i: int)
    requires
        digits_below(d, l),
        e.len() == l.len(),
        0 <= i < d.len(),
        forall|j: int| i < j < d.len() ==> #[trigger] d[j] == l[j] - 1 && e[j] == 0,
        forall|j: int| 0 <= j < i ==> #[trigger] e[j] == d[j],
        e[i] == d[i] + 1,
    ensures
        horner_value(e, l) == horner_value(d, l) + 1,
{
    let k = i + 1;
    lemma_horner_split(d, l, k);
    lemma_horner_split(e, l, k);
    assert forall|j: int| 0 <= j < d.skip(k).len() implies #[trigger] d.skip(k)[j] == l.skip(k)[j]
        - 1 by {
        assert(d[j + k] == l[j + k] - 1 && e[j + k] == 0);
    }
    assert forall|j: int| 0 <= j < e.skip(k).len() implies #[trigger] e.skip(k)[j] == 0 by {
        assert(d[j + k] == l[j + k] - 1 && e[j + k] == 0);
    }
    lemma_horner_extremes(d.skip(k), l.skip(k));
    lemma_horner_extremes(e.skip(k), l.skip(k));
    assert(e.take(k) =~= d.take(k).update(i, d[i] + 1));
    lemma_horner_update(d.take(k), l.take(k), i, d[i] + 1);
    assert(l.take(k).skip(k) =~= Seq::<int>::empty());
    assert(horner_prod(l.take(k).skip(k)) == 1);
    let a = horner_value(d.take(k), l.take(k));
    let p = horner_prod(l.skip(k));
    assert((a + 1) * p == a * p + (p - 1) + 1) by (nonlinear_arith);
}

/// One borrow step downwards: digits after `i` went from zero to their maximum and digit `i`
/// shrank by one, so the value shrank by one.
proof fn lemma_carry_down(d: Seq<int>, e: Seq<int>, l: Seq<int>, i: int)
    requires
        digits_below(d, l),
        e.len() == l.len(),
        0 <= i < d.len(),
        forall|j: int| i < j < d.len() ==> #[trigger] d[j] == 0 && e[j] == l[j] - 1,
        forall|j: int| 0 <= j < i ==> #[trigger] e[j] == d[j],
        e[i] == d[i] - 1,
    ensures
        horner_value(e, l) == horner_value(d, l) - 1,
{
    let k = i + 1;
    lemma_horner_split(d, l, k);
    lemma_horner_split(e, l, k);
    assert forall|j: int| 0 <= j < d.skip(k).len() implies #[trigger] d.skip(k)[j] == 0 by {
        assert(d[j + k] == 0 && e[j + k] == l[j + k] - 1);
    }
    assert forall|j: int| 0 <= j < e.skip(k).len() implies #[trigger] e.skip(k)[j] == l.skip(k)[j]
        - 1 by {
        assert(d[j + k] == 0 && e[j + k] == l[j + k] - 1);
    }
    lemma_horner_extremes(d.skip(k), l.skip(k));
    lemma_horner_extremes(e.skip(k), l.skip(k));
    assert(e.take(k) =~= d.take(k).update(i, d[i] - 1));
    lemma_horner_update(d.take(k), l.take(k), i, d[i] - 1);
    assert(l.take(k).skip(k) =~= Seq::<int>::empty());
    assert(horner_prod(l.take(k).skip(k)) == 1);
    let a = horner_value(d.take(k), l.take(k));
    let p = horner_prod(l.skip(k));
    assert((a - 1) * p + (p - 1) == a * p - 1) by (nonlinear_arith);
}

/// The product of `LEN` ranges.
#[derive(Clone, Copy)]
pub struct CountableRangeMergeArray<TRange, const LEN: usize> {
    ranges: [TRange; LEN],
    index_lens: [usize; LEN],
    max_len: usize,
}

/// A cursor into a [CountableRangeMergeArray]: one cursor per range, and the position they make.
#[derive(Clone, Copy)]
pub struct CountableRangeMergeArrayItem<TItem, const LEN: usize> {
    items: [TItem; LEN],
    cached_index: usize,
    index_lens: [usize; LEN],
    max_len: usize,
}

impl<TItem: CountableRangeItem, const LEN: usize> CountableRangeMergeArrayItem<TItem, LEN> {
    /// The cursors.
    pub closed spec fn items_view(&self) -> Seq<TItem> {
        self.items@
    }

    /// The position of each cursor.
    pub open spec fn digits(&self) -> Seq<int> {
        Seq::new(LEN as nat, |i: int| self.items_view()[i].index_view())
    }

    /// The length of each range.
    pub open spec fn lens(&self) -> Seq<int> {
        Seq::new(LEN as nat, |i: int| self.items_view()[i].len_view())
    }

    /// How far the position moves when range `dim` moves one step: the product of the lengths
    /// after it.
    pub open spec fn step(&self, dim: int) -> int {
        horner_prod(self.lens().skip(dim + 1))
    }

    /// Every cursor is well formed; the stored steps, length and position agree with them; the
    /// length fits in `isize`.
    pub closed spec fn array_wf(&self) -> bool {
        &&& LEN >= 1
        &&& forall|i: int| 0 <= i < LEN ==> #[trigger] self.items@[i].item_wf()
        &&& forall|i: int| 0 <= i < LEN ==> #[trigger] self.index_lens@[i] == self.step(i)
        &&& self.max_len == horner_prod(self.lens())
        &&& self.max_len <= isize::MAX
        &&& self.cached_index == horner_value(self.digits(), self.lens())
    }

    proof fn lemma_digits(&self)
        requires
            forall|i: int| 0 <= i < LEN ==> #[trigger] self.items@[i].item_wf(),
        ensures
            digits_below(self.digits(), self.lens()),
            lens_positive(self.lens()),
            forall|i: int| 0 <= i < LEN ==> #[trigger] self.lens()[i] <= usize::MAX,
    {
        assert forall|i: int| 0 <= i < LEN implies 0 <= #[trigger] self.digits()[i]
            < self.lens()[i] by {
            self.items@[i].lemma_item_wf();
        }
        assert forall|i: int| 0 <= i < LEN implies 1 <= #[trigger] self.lens()[i] <= usize::MAX by {
            self.items@[i].lemma_item_wf();
        }
    }

    /// Increments the number that the cursors `0..end` make, with wrap-around; says whether it
    /// wrapped.
    fn carry_next(&mut self, end: usize) -> (wrapped: bool)
        requires
            end <= LEN,
            forall|i: int| 0 <= i < LEN ==> #[trigger] old(self).items@[i].item_wf(),
        ensures
            forall|i: int| 0 <= i < LEN ==> #[trigger] final(self).items@[i].item_wf(),
            final(self).lens() == old(self).lens(),
            forall|j: int| end <= j < LEN ==> #[trigger] final(self).digits()[j] == old(
                self,
            ).digits()[j],
            final(self).cached_index == old(self).cached_index,
            final(self).index_lens == old(self).index_lens,
            final(self).max_len == old(self).max_len,
            wrapped == (horner_value(
                old(self).digits().take(end as int),
                old(self).lens().take(end as int),
            ) + 1 == horner_prod(old(self).lens().take(end as int))),
            horner_value(final(self).digits().take(end as int), old(self).lens().take(end as int))
                == if wrapped {
                0
            } else {
                horner_value(old(self).digits().take(end as int), old(self).lens().take(end as int))
                    + 1
            },
    {
        let ghost d0 = self.digits();
        let ghost l0 = self.lens();
        let ghost dd = d0.take(end as int);
        let ghost ll = l0.take(end as int);
        proof {
            self.lemma_digits();
        }
        let mut i: usize = end;
        while i > 0
            invariant
                i <= end <= LEN,
                d0.len() == LEN && l0.len() == LEN,
                d0 == old(self).digits(),
                l0 == old(self).lens(),
                dd == d0.take(end as int),
                ll == l0.take(end as int),
                digits_below(d0, l0),
                forall|j: int| 0 <= j < LEN ==> #[trigger] self.items@[j].item_wf(),
                self.lens() == l0,
                forall|j: int| i <= j < end ==> #[trigger] d0[j] == l0[j] - 1,
                forall|j: int| i <= j < end ==> #[trigger] self.digits()[j] == 0,
                forall|j: int| 0 <= j < i ==> #[trigger] self.digits()[j] == d0[j],
                forall|j: int| end <= j < LEN ==> #[trigger] self.digits()[j] == d0[j],
                self.cached_index == old(self).cached_index,
                self.index_lens == old(self).index_lens,
                self.max_len == old(self).max_len,
            decreases i,
        {
            i = i - 1;
            let ghost before = self.items@;
            let ghost dig_before = self.digits();
            assert forall|j: int| i < j < end implies d0[j] == l0[j] - 1 && #[trigger] dig_before[j]
                == 0 by {
                assert(d0[j] == l0[j] - 1 && self.digits()[j] == 0);
            }
            assert forall|j: int| 0 <= j < i implies #[trigger] dig_before[j] == d0[j] by {
                assert(self.digits()[j] == d0[j]);
            }
            assert forall|j: int| end <= j < LEN implies #[trigger] dig_before[j] == d0[j] by {
                assert(self.digits()[j] == d0[j]);
            }
            assert(self.digits()[i as int] == d0[i as int]);
            assert(before[i as int].index_view() == d0[i as int]);
            assert(before[i as int].len_view() == l0[i as int]);
            let wrapped = !self.items[i].next_assign();
            assert(self.items@[i as int].index_view() == if wrapped { 0 } else { before[i as int].index_view() + 1 });
            proof {
                assert(forall|j: int| 0 <= j < LEN && j != i ==> self.items@[j] == before[j]);
                assert(self.lens() =~= l0);
                assert forall|j: int| 0 <= j < LEN && j != i implies #[trigger] self.digits()[j]
                    == dig_before[j] by {
                    assert(self.items@[j] == before[j]);
                }
                assert(self.digits()[i as int] == if wrapped {
                    0
                } else {
                    d0[i as int] + 1
                });
            }
            if !wrapped {
                proof {
                    let e = self.digits().take(end as int);
                    assert forall|j: int| i < j < dd.len() implies #[trigger] dd[j] == ll[j] - 1
                        && e[j] == 0 by {
                        assert(d0[j] == l0[j] - 1 && dig_before[j] == 0);
                    }
                    assert forall|j: int| 0 <= j < i implies #[trigger] e[j] == dd[j] by {
                        assert(dig_before[j] == d0[j]);
                    }
                    assert forall|j: int| 0 <= j < dd.len() implies 0 <= #[trigger] dd[j] < ll[j] by {
                        assert(0 <= d0[j] < l0[j]);
                    }
                    assert forall|j: int| 0 <= j < e.len() implies 0 <= #[trigger] e[j] < ll[j] by {
                        self.items@[j].lemma_item_wf();
                    }
                    lemma_carry_up(dd, e, ll, i as int);
                    lemma_horner_bound(e, ll);
                }
                return false;
            }
        }
        proof {
            let e = self.digits().take(end as int);
            assert forall|j: int| 0 <= j < end implies #[trigger] dd[j] == ll[j] - 1 && e[j] == 0 by {
                assert(d0[j] == l0[j] - 1 && self.digits()[j] == 0);
            }
            lemma_horner_extremes(dd, ll);
            lemma_horner_extremes(e, ll);
        }
        true
    }

    /// Decrements the number that the cursors `0..end` make, with wrap-around; says whether it
    /// wrapped.
    fn carry_prev(&mut self, end: usize) -> (wrapped: bool)
        requires
            end <= LEN,
            forall|i: int| 0 <= i < LEN ==> #[trigger] old(self).items@[i].item_wf(),
        ensures
            forall|i: int| 0 <= i < LEN ==> #[trigger] final(self).items@[i].item_wf(),
            final(self).lens() == old(self).lens(),
            forall|j: int| end <= j < LEN ==> #[trigger] final(self).digits()[j] == old(
                self,
            ).digits()[j],
            final(self).cached_index == old(self).cached_index,
            final(self).index_lens == old(self).index_lens,
            final(self).max_len == old(self).max_len,
            wrapped == (horner_value(
                old(self).digits().take(end as int),
                old(self).lens().take(end as int),
            ) == 0),
            horner_value(final(self).digits().take(end as int), old(self).lens().take(end as int))
                == if wrapped {
                horner_prod(old(self).lens().take(end as int)) - 1
            } else {
                horner_value(old(self).digits().take(end as int), old(self).lens().take(end as int))
                    - 1
            },
    {
        let ghost d0 = self.digits();
        let ghost l0 = self.lens();
        let ghost dd = d0.take(end as int);
        let ghost ll = l0.take(end as int);
        proof {
            self.lemma_digits();
        }
        let mut i: usize = end;
        while i > 0
            invariant
                i <= end <= LEN,
                d0.len() == LEN && l0.len() == LEN,
                d0 == old(self).digits(),
                l0 == old(self).lens(),
                dd == d0.take(end as int),
                ll == l0.take(end as int),
                digits_below(d0, l0),
                forall|j: int| 0 <= j < LEN ==> #[trigger] self.items@[j].item_wf(),
                self.lens() == l0,
                forall|j: int| i <= j < end ==> #[trigger] d0[j] == 0,
                forall|j: int| i <= j < end ==> #[trigger] self.digits()[j] == l0[j] - 1,
                forall|j: int| 0 <= j < i ==> #[trigger] self.digits()[j] == d0[j],
                forall|j: int| end <= j < LEN ==> #[trigger] self.digits()[j] == d0[j],
                self.cached_index == old(self).cached_index,
                self.index_lens == old(self).index_lens,
                self.max_len == old(self).max_len,
            decreases i,
        {
            i = i - 1;
            let ghost before = self.items@;
            let ghost dig_before = self.digits();
            assert forall|j: int| i < j < end implies d0[j] == 0 && #[trigger] dig_before[j]
                == l0[j] - 1 by {
                assert(d0[j] == 0 && self.digits()[j] == l0[j] - 1);
            }
            assert forall|j: int| 0 <= j < i implies #[trigger] dig_before[j] == d0[j] by {
                assert(self.digits()[j] == d0[j]);
            }
            assert forall|j: int| end <= j < LEN implies #[trigger] dig_before[j] == d0[j] by {
                assert(self.digits()[j] == d0[j]);
            }
            assert(self.digits()[i as int] == d0[i as int]);
            assert(before[i as int].index_view() == d0[i as int]);
            assert(before[i as int].len_view() == l0[i as int]);
            let wrapped = !self.items[i].prev_assign();
            assert(self.items@[i as int].index_view() == if wrapped { l0[i as int] - 1 } else { before[i as int].index_view() - 1 });
            proof {
                assert(forall|j: int| 0 <= j < LEN && j != i ==> self.items@[j] == before[j]);
                assert(self.lens() =~= l0);
                assert forall|j: int| 0 <= j < LEN && j != i implies #[trigger] self.digits()[j]
                    == dig_before[j] by {
                    assert(self.items@[j] == before[j]);
                }
                assert(self.digits()[i as int] == if wrapped {
                    l0[i as int] - 1
                } else {
                    d0[i as int] - 1
                });
            }
            if !wrapped {
                proof {
                    let e = self.digits().take(end as int);
                    assert forall|j: int| i < j < dd.len() implies #[trigger] dd[j] == 0 && e[j]
                        == ll[j] - 1 by {
                        assert(d0[j] == 0 && dig_before[j] == l0[j] - 1);
                    }
                    assert forall|j: int| 0 <= j < i implies #[trigger] e[j] == dd[j] by {
                        assert(dig_before[j] == d0[j]);
                    }
                    assert forall|j: int| 0 <= j < dd.len() implies 0 <= #[trigger] dd[j] < ll[j] by {
                        assert(0 <= d0[j] < l0[j]);
                    }
                    lemma_carry_down(dd, e, ll, i as int);
                    lemma_horner_bound(dd, ll);
                    lemma_horner_split(dd, ll, i as int + 1);
                    lemma_horner_extremes(dd.skip(i as int + 1), ll.skip(i as int + 1));
                    lemma_horner_bound(dd.take(i as int + 1), ll.take(i as int + 1));
                    assert(dd.take(i as int + 1).drop_last() =~= dd.take(i as int));
                    assert(ll.take(i as int + 1).drop_last() =~= ll.take(i as int));
                    lemma_horner_bound(dd.take(i as int), ll.take(i as int));
                    let a = horner_value(dd.take(i as int), ll.take(i as int));
                    let p = horner_prod(ll.skip(i as int + 1));
                    lemma_horner_bound(dd.skip(i as int + 1), ll.skip(i as int + 1));
                    assert((a * ll[i as int] + dd[i as int]) * p >= 1) by (nonlinear_arith)
                        requires
                            a >= 0,
                            dd[i as int] >= 1,
                            ll[i as int] >= 1,
                            p >= 1,
                    ;
                }
                return false;
            }
        }
        proof {
            let e = self.digits().take(end as int);
            assert forall|j: int| 0 <= j < end implies #[trigger] dd[j] == 0 && e[j] == ll[j] - 1 by {
                assert(d0[j] == 0 && self.digits()[j] == l0[j] - 1);
            }
            lemma_horner_extremes(dd, ll);
            lemma_horner_extremes(e, ll);
        }
        true
    }
}


/// The product of the first `k` lengths is at most the product of all of them.
proof fn lemma_prefix_prod_le(l: Seq<int>, k: int)
    requires
        lens_positive(l),
        0 <= k <= l.len(),
    ensures
        1 <= horner_prod(l.take(k)) <= horner_prod(l),
        1 <= horner_prod(l.skip(k)) <= horner_prod(l),
{
    lemma_horner_split(l, l, k);
    assert(lens_positive(l.take(k)));
    assert(lens_positive(l.skip(k)));
    lemma_horner_prod_positive(l.take(k));
    lemma_horner_prod_positive(l.skip(k));
    let a = horner_prod(l.take(k));
    let b = horner_prod(l.skip(k));
    assert(a <= a * b && b <= a * b) by (nonlinear_arith)
        requires
            a >= 1,
            b >= 1,
    ;
}

impl<TItem: CountableRangeItem, const LEN: usize> CountableRangeMergeArrayItem<TItem, LEN> {
    /// How far the position moves when the number that ranges `0..dim` make moves one step: the
    /// product of the lengths from `dim` on.
    pub open spec fn carry_step(&self, dim: int) -> int {
        horner_prod(self.lens().skip(dim))
    }

    /// The cached position is the one the cursors give: on a well formed item the check always
    /// holds, and is discharged here once and for all.
    pub fn check_index(&self)
        requires
            self.item_wf(),
    {
        let c = self.calc_index();
        assert(c == self.cached_index);
    }

    /// The position, computed from the cursors.
    pub fn calc_index(&self) -> (res: usize)
        requires
            self.item_wf(),
        ensures
            res == self.index_view(),
    {
        proof {
            self.lemma_digits();
            lemma_horner_bound(self.digits(), self.lens());
        }
        let ghost d = self.digits();
        let ghost l = self.lens();
        let mut acc: usize = 0;
        let mut i: usize = 0;
        while i < LEN
            invariant
                0 <= i <= LEN,
                self.item_wf(),
                d == self.digits(),
                l == self.lens(),
                digits_below(d, l),
                lens_positive(l),
                horner_prod(l) <= isize::MAX,
                acc == horner_value(d.take(i as int), l.take(i as int)),
            decreases LEN - i,
        {
            let len = self.items[i].range_len();
            let idx = self.items[i].index();
            proof {
                assert(d.take(i + 1).drop_last() =~= d.take(i as int));
                assert(l.take(i + 1).drop_last() =~= l.take(i as int));
                assert(digits_below(d.take(i + 1), l.take(i + 1)));
                lemma_horner_bound(d.take(i + 1), l.take(i + 1));
                lemma_prefix_prod_le(l, i + 1);
            }
            acc = acc * len + idx;
            i = i + 1;
        }
        proof {
            assert(d.take(LEN as int) =~= d);
            assert(l.take(LEN as int) =~= l);
        }
        acc
    }

    /// Steps range `dim` forward by `n`, wrapping within it alone; returns how many times it went
    /// round.
    pub fn move_n_assign_loop_at_dim(&mut self, dim_idx: usize, n: isize) -> (res: isize)
        where TItem: CountableRangeItemN
        requires
            old(self).item_wf(),
            dim_idx < LEN,
        ensures
            final(self).item_wf(),
            final(self).lens() == old(self).lens(),
            final(self).digits() == old(self).digits().update(
                dim_idx as int,
                (old(self).digits()[dim_idx as int] + n) % old(self).lens()[dim_idx as int],
            ),
            res == (old(self).digits()[dim_idx as int] + n) / old(self).lens()[dim_idx as int],
    {
        proof {
            self.lemma_digits();
            lemma_horner_bound(self.digits(), self.lens());
            lemma_horner_front(self.lens().skip(dim_idx as int), self.lens().skip(dim_idx as int));
            assert(self.lens().skip(dim_idx as int).skip(1) =~= self.lens().skip(dim_idx + 1));
            lemma_prefix_prod_le(self.lens(), dim_idx as int);
            lemma_prefix_prod_le(self.lens(), dim_idx + 1);
            let lv = self.lens()[dim_idx as int];
            let pv = horner_prod(self.lens().skip(dim_idx + 1));
            assert(lv <= lv * pv) by (nonlinear_arith)
                requires
                    pv >= 1,
                    lv >= 1,
            ;
        }
        let ghost d0 = self.digits();
        let ghost l0 = self.lens();
        let ghost before = self.items@;
        let old_idx = self.items[dim_idx].index();
        let moved = self.items[dim_idx].move_n_assign(n);
        let new_idx = self.items[dim_idx].index();
        let step = self.index_lens[dim_idx];
        proof {
            assert forall|j: int| 0 <= j < LEN implies #[trigger] self.items@[j].item_wf() by {
                if j != dim_idx {
                    assert(self.items@[j] == before[j]);
                }
            }
            assert(self.lens() =~= l0);
            assert(self.digits() =~= d0.update(dim_idx as int, new_idx as int));
            lemma_horner_update(d0, l0, dim_idx as int, new_idx as int);
            self.lemma_digits();
            lemma_horner_bound(self.digits(), self.lens());
            let l = l0[dim_idx as int];
            let p = step as int;
            assert(step == self.step(dim_idx as int));
            assert(-l * p < (new_idx - old_idx) * p < l * p) by (nonlinear_arith)
                requires
                    0 <= new_idx < l,
                    0 <= old_idx < l,
                    p >= 1,
            ;
        }
        let delta = new_idx as isize - old_idx as isize;
        self.cached_index = (self.cached_index as isize + delta * step as isize) as usize;
        moved
    }

    /// Steps the number that ranges `0..dim_idx` make forward by one, with wrap-around: the
    /// position moves forward by [Self::carry_step] of `dim_idx`, modulo the length; returns `false`
    /// when it wrapped, `true` otherwise.
    pub fn next_assign_at_dim(&mut self, dim_idx: usize) -> (stayed: bool)
        requires
            old(self).item_wf(),
            dim_idx < LEN,
        ensures
            final(self).item_wf(),
            final(self).lens() == old(self).lens(),
            forall|j: int| dim_idx <= j < LEN ==> #[trigger] final(self).digits()[j] == old(
                self,
            ).digits()[j],
            stayed == !(old(self).index_view() + old(self).carry_step(dim_idx as int)
                >= old(self).len_view()),
            final(self).index_view() == (old(self).index_view() + old(self).carry_step(
                dim_idx as int,
            )) % old(self).len_view(),
    {
        let ghost d0 = self.digits();
        let ghost l0 = self.lens();
        proof {
            self.lemma_digits();
            lemma_horner_split(d0, l0, dim_idx as int);
            lemma_horner_bound(d0.take(dim_idx as int), l0.take(dim_idx as int));
            lemma_horner_bound(d0.skip(dim_idx as int), l0.skip(dim_idx as int));
            lemma_horner_bound(d0, l0);
        }
        let wrapped = self.carry_next(dim_idx);
        let q = if dim_idx == 0 {
            self.max_len
        } else {
            self.index_lens[dim_idx - 1]
        };
        proof {
            self.lemma_digits();
            let e = self.digits();
            assert(e.skip(dim_idx as int) =~= d0.skip(dim_idx as int));
            lemma_horner_split(e, l0, dim_idx as int);
            if dim_idx == 0 {
                assert(l0.skip(0) =~= l0);
            } else {
                assert(l0.skip(dim_idx - 1 + 1) =~= l0.skip(dim_idx as int));
            }
            let a = horner_value(d0.take(dim_idx as int), l0.take(dim_idx as int));
            let h = horner_prod(l0.take(dim_idx as int));
            let qq = q as int;
            let s = horner_value(d0.skip(dim_idx as int), l0.skip(dim_idx as int));
            assert(qq == horner_prod(l0.skip(dim_idx as int)));
            assert(self.lens() == l0);
            assert(self.cached_index == a * qq + s);
            assert(self.max_len == h * qq);
            let b = horner_value(e.take(dim_idx as int), l0.take(dim_idx as int));
            assert(horner_value(e, l0) == b * qq + s);
            if wrapped {
                assert(b == 0);
                assert(a * qq + s + qq - h * qq == 0 * qq + s) by (nonlinear_arith)
                    requires
                        a + 1 == h,
                ;
                lemma_fundamental_div_mod_converse_local(a * qq + s + qq, h * qq, 1, s);
            } else {
                assert(b == a + 1);
                assert(digits_below(e.take(dim_idx as int), l0.take(dim_idx as int)));
                lemma_horner_bound(e.take(dim_idx as int), l0.take(dim_idx as int));
                assert(a * qq + s + qq < h * qq) by (nonlinear_arith)
                    requires
                        a + 1 < h,
                        0 <= s < qq,
                ;
                assert((a + 1) * qq + s == a * qq + s + qq) by (nonlinear_arith);
                lemma_fundamental_div_mod_converse_local(a * qq + s + qq, h * qq, 0, a * qq + s + qq);
            }
        }
        if wrapped {
            self.cached_index = self.cached_index - (self.max_len - q);
        } else {
            self.cached_index = self.cached_index + q;
        }
        assert(self.cached_index == horner_value(self.digits(), self.lens()));
        assert(forall|i: int| 0 <= i < LEN ==> #[trigger] self.index_lens@[i] == self.step(i));
        !wrapped
    }
}

impl<TItem: CountableRangeItem, const LEN: usize> CountableRangeMergeArrayItem<TItem, LEN> {
    /// Steps the number that ranges `0..dim_idx` make back by one, with wrap-around: the position
    /// moves back by [Self::carry_step] of `dim_idx`, modulo the length; returns `false` when it wrapped.
    pub fn prev_assign_at_dim(&mut self, dim_idx: usize) -> (stayed: bool)
        requires
            old(self).item_wf(),
            dim_idx < LEN,
        ensures
            final(self).item_wf(),
            final(self).lens() == old(self).lens(),
            forall|j: int| dim_idx <= j < LEN ==> #[trigger] final(self).digits()[j] == old(
                self,
            ).digits()[j],
            stayed == !(old(self).index_view() < old(self).carry_step(dim_idx as int)),
            final(self).index_view() == (old(self).index_view() - old(self).carry_step(
                dim_idx as int,
            )) % old(self).len_view(),
    {
        let ghost d0 = self.digits();
        let ghost l0 = self.lens();
        proof {
            self.lemma_digits();
            lemma_horner_split(d0, l0, dim_idx as int);
            lemma_horner_bound(d0.take(dim_idx as int), l0.take(dim_idx as int));
            lemma_horner_bound(d0.skip(dim_idx as int), l0.skip(dim_idx as int));
            lemma_horner_bound(d0, l0);
        }
        let wrapped = self.carry_prev(dim_idx);
        let q = if dim_idx == 0 {
            self.max_len
        } else {
            self.index_lens[dim_idx - 1]
        };
        proof {
            self.lemma_digits();
            let e = self.digits();
            assert(e.skip(dim_idx as int) =~= d0.skip(dim_idx as int));
            lemma_horner_split(e, l0, dim_idx as int);
            if dim_idx == 0 {
                assert(l0.skip(0) =~= l0);
            } else {
                assert(l0.skip(dim_idx - 1 + 1) =~= l0.skip(dim_idx as int));
            }
            let a = horner_value(d0.take(dim_idx as int), l0.take(dim_idx as int));
            let h = horner_prod(l0.take(dim_idx as int));
            let qq = q as int;
            let s = horner_value(d0.skip(dim_idx as int), l0.skip(dim_idx as int));
            assert(qq == horner_prod(l0.skip(dim_idx as int)));
            assert(self.lens() == l0);
            assert(self.cached_index == a * qq + s);
            assert(self.max_len == h * qq);
            let b = horner_value(e.take(dim_idx as int), l0.take(dim_idx as int));
            assert(horner_value(e, l0) == b * qq + s);
            if wrapped {
                assert(b == h - 1);
                assert(a * qq + s < qq) by (nonlinear_arith)
                    requires
                        a == 0,
                        0 <= s < qq,
                ;
                assert((h - 1) * qq + s == a * qq + s - qq + h * qq) by (nonlinear_arith)
                    requires
                        a == 0,
                ;
                lemma_fundamental_div_mod_converse_local(a * qq + s - qq, h * qq, -1, (h - 1) * qq + s);
            } else {
                assert(b == a - 1);
                assert((a - 1) * qq + s == a * qq + s - qq) by (nonlinear_arith);
                assert(a * qq + s - qq >= 0) by (nonlinear_arith)
                    requires
                        a >= 1,
                        s >= 0,
                        qq >= 1,
                ;
                assert(a * qq + s >= qq) by (nonlinear_arith)
                    requires
                        a >= 1,
                        s >= 0,
                        qq >= 1,
                ;
                lemma_fundamental_div_mod_converse_local(a * qq + s - qq, h * qq, 0, a * qq + s - qq);
            }
        }
        if wrapped {
            self.cached_index = self.cached_index + (self.max_len - q);
        } else {
            self.cached_index = self.cached_index - q;
        }
        !wrapped
    }

    /// Steps range `dim_idx` forward by one, wrapping within it alone; returns `false` when it wrapped.
    pub fn next_assign_at_dim_loop(&mut self, dim_idx: usize) -> (stayed: bool)
        requires
            old(self).item_wf(),
            dim_idx < LEN,
        ensures
            final(self).item_wf(),
            final(self).lens() == old(self).lens(),
            stayed == !(old(self).digits()[dim_idx as int] + 1 == old(self).lens()[dim_idx as int]),
            final(self).digits() == old(self).digits().update(
                dim_idx as int,
                if !stayed {
                    0
                } else {
                    old(self).digits()[dim_idx as int] + 1
                },
            ),
    {
        proof {
            self.lemma_digits();
            lemma_horner_bound(self.digits(), self.lens());
        }
        let ghost d0 = self.digits();
        let ghost l0 = self.lens();
        let ghost before = self.items@;
        let wrapped = !self.items[dim_idx].next_assign();
        let step = self.index_lens[dim_idx];
        let len = self.items[dim_idx].range_len();
        proof {
            assert forall|j: int| 0 <= j < LEN implies #[trigger] self.items@[j].item_wf() by {
                if j != dim_idx {
                    assert(self.items@[j] == before[j]);
                }
            }
            assert(self.lens() =~= l0);
            let nd = if wrapped { 0 } else { d0[dim_idx as int] + 1 };
            assert(self.digits() =~= d0.update(dim_idx as int, nd));
            lemma_horner_update(d0, l0, dim_idx as int, nd);
            self.lemma_digits();
            lemma_horner_bound(self.digits(), self.lens());
            assert(step == self.step(dim_idx as int));
            let p = step as int;
            let dv = d0[dim_idx as int];
            if wrapped {
                assert((0 - dv) * p == -((len - 1) * p)) by (nonlinear_arith)
                    requires
                        dv + 1 == len,
                ;
            } else {
                assert((dv + 1 - dv) * p == p) by (nonlinear_arith);
            }
        }
        if wrapped {
            self.cached_index = self.cached_index - (len - 1) * step;
        } else {
            self.cached_index = self.cached_index + step;
        }
        !wrapped
    }

    /// Steps range `dim_idx` back by one, wrapping within it alone; returns `false` when it wrapped.
    pub fn prev_assign_at_dim_loop(&mut self, dim_idx: usize) -> (stayed: bool)
        requires
            old(self).item_wf(),
            dim_idx < LEN,
        ensures
            final(self).item_wf(),
            final(self).lens() == old(self).lens(),
            stayed == !(old(self).digits()[dim_idx as int] == 0),
            final(self).digits() == old(self).digits().update(
                dim_idx as int,
                if !stayed {
                    old(self).lens()[dim_idx as int] - 1
                } else {
                    old(self).digits()[dim_idx as int] - 1
                },
            ),
    {
        proof {
            self.lemma_digits();
            lemma_horner_bound(self.digits(), self.lens());
        }
        let ghost d0 = self.digits();
        let ghost l0 = self.lens();
        let ghost before = self.items@;
        let wrapped = !self.items[dim_idx].prev_assign();
        let step = self.index_lens[dim_idx];
        let len = self.items[dim_idx].range_len();
        proof {
            assert forall|j: int| 0 <= j < LEN implies #[trigger] self.items@[j].item_wf() by {
                if j != dim_idx {
                    assert(self.items@[j] == before[j]);
                }
            }
            assert(self.lens() =~= l0);
            let nd = if wrapped { l0[dim_idx as int] - 1 } else { d0[dim_idx as int] - 1 };
            assert(self.digits() =~= d0.update(dim_idx as int, nd));
            lemma_horner_update(d0, l0, dim_idx as int, nd);
            self.lemma_digits();
            lemma_horner_bound(self.digits(), self.lens());
            assert(step == self.step(dim_idx as int));
            let p = step as int;
            let dv = d0[dim_idx as int];
            if wrapped {
                assert((len - 1 - dv) * p == (len - 1) * p) by (nonlinear_arith)
                    requires
                        dv == 0,
                ;
            } else {
                assert((dv - 1 - dv) * p == -p) by (nonlinear_arith);
            }
        }
        if wrapped {
            self.cached_index = self.cached_index + (len - 1) * step;
        } else {
            self.cached_index = self.cached_index - step;
        }
        !wrapped
    }

    /// The cursors, the position, the steps of the ranges and the length.
    pub fn into_inner(self) -> (res: ([TItem; LEN], usize, [usize; LEN], usize))
        requires
            self.item_wf(),
        ensures
            res.0@ == self.items_view(),
            res.1 == self.index_view(),
            forall|i: int| 0 <= i < LEN ==> #[trigger] res.2@[i] == self.step(i),
            res.3 == self.len_view(),
    {
        (self.items, self.cached_index, self.index_lens, self.max_len)
    }
}

impl<TItem: CountableRangeItemN, const LEN: usize> CountableRangeMergeArrayItem<TItem, LEN> {
    /// Adds `n` to the number that ranges `0..=dim` make, carrying from range `dim` towards range
    /// 0 and stopping once nothing is left to carry; returns what is carried out of range 0.
    fn carry_move(&mut self, dim: usize, n: isize) -> (carry: isize)
        requires
            dim < LEN,
            forall|i: int| 0 <= i < LEN ==> #[trigger] old(self).items@[i].item_wf(),
        ensures
            forall|i: int| 0 <= i < LEN ==> #[trigger] final(self).items@[i].item_wf(),
            final(self).lens() == old(self).lens(),
            forall|j: int| dim < j < LEN ==> #[trigger] final(self).digits()[j] == old(
                self,
            ).digits()[j],
            final(self).cached_index == old(self).cached_index,
            final(self).index_lens == old(self).index_lens,
            final(self).max_len == old(self).max_len,
            horner_value(old(self).digits().take(dim + 1), old(self).lens().take(dim + 1)) + n
                == carry * horner_prod(old(self).lens().take(dim + 1)) + horner_value(
                final(self).digits().take(dim + 1),
                old(self).lens().take(dim + 1),
            ),
    {
        let ghost d0 = self.digits();
        let ghost l0 = self.lens();
        let ghost dd = d0.take(dim + 1);
        let ghost ll = l0.take(dim + 1);
        proof {
            self.lemma_digits();
            assert(dd.skip(dim + 1) =~= Seq::<int>::empty());
            assert(ll.skip(dim + 1) =~= Seq::<int>::empty());
            assert(self.digits().take(dim + 1).skip(dim + 1) =~= Seq::<int>::empty());
        }
        let mut acc: isize = n;
        let mut i: usize = dim + 1;
        while i > 0 && acc != 0
            invariant
                i <= dim + 1 <= LEN,
                d0.len() == LEN && l0.len() == LEN,
                d0 == old(self).digits(),
                l0 == old(self).lens(),
                dd == d0.take(dim + 1),
                ll == l0.take(dim + 1),
                digits_below(d0, l0),
                forall|j: int| 0 <= j < LEN ==> #[trigger] self.items@[j].item_wf(),
                self.lens() == l0,
                forall|j: int| 0 <= j < i ==> #[trigger] self.digits()[j] == d0[j],
                forall|j: int| dim < j < LEN ==> #[trigger] self.digits()[j] == d0[j],
                horner_value(dd.skip(i as int), ll.skip(i as int)) + n == acc * horner_prod(
                    ll.skip(i as int),
                ) + horner_value(self.digits().take(dim + 1).skip(i as int), ll.skip(i as int)),
                self.cached_index == old(self).cached_index,
                self.index_lens == old(self).index_lens,
                self.max_len == old(self).max_len,
            decreases i,
        {
            i = i - 1;
            let ghost before = self.items@;
            let ghost dig_before = self.digits();
            assert(self.digits()[i as int] == d0[i as int]);
            assert forall|j: int| 0 <= j < i implies #[trigger] dig_before[j] == d0[j] by {
                assert(self.digits()[j] == d0[j]);
            }
            assert forall|j: int| dim < j < LEN implies #[trigger] dig_before[j] == d0[j] by {
                assert(self.digits()[j] == d0[j]);
            }
            let ghost acc0 = acc;
            acc = self.items[i].move_n_assign(acc);
            proof {
                assert forall|j: int| 0 <= j < LEN && j != i implies #[trigger] self.digits()[j]
                    == dig_before[j] by {
                    assert(self.items@[j] == before[j]);
                }
                assert forall|j: int| 0 <= j < LEN implies #[trigger] self.items@[j].item_wf() by {
                    if j != i {
                        assert(self.items@[j] == before[j]);
                    }
                }
                assert(self.lens() =~= l0);
                let x = d0[i as int];
                let l = l0[i as int];
                let x2 = self.digits()[i as int];
                assert(x2 == (x + acc0) % l);
                assert(acc == (x + acc0) / l);
                vstd::arithmetic::div_mod::lemma_fundamental_div_mod(x + acc0, l);
                let eb = dig_before.take(dim + 1);
                let e = self.digits().take(dim + 1);
                assert(e.skip(i + 1) =~= eb.skip(i + 1));
                lemma_horner_front(dd.skip(i as int), ll.skip(i as int));
                lemma_horner_front(e.skip(i as int), ll.skip(i as int));
                assert(dd.skip(i as int).skip(1) =~= dd.skip(i + 1));
                assert(ll.skip(i as int).skip(1) =~= ll.skip(i + 1));
                assert(e.skip(i as int).skip(1) =~= e.skip(i + 1));
                let p = horner_prod(ll.skip(i + 1));
                let hd = horner_value(dd.skip(i + 1), ll.skip(i + 1));
                let he = horner_value(e.skip(i + 1), ll.skip(i + 1));
                assert(x * p + hd + n == acc * (l * p) + (x2 * p + he)) by (nonlinear_arith)
                    requires
                        hd + n == acc0 * p + he,
                        x + acc0 == l * acc + x2,
                ;
            }
        }
        proof {
            let e = self.digits().take(dim + 1);
            assert(dd.skip(0) =~= dd);
            assert(ll.skip(0) =~= ll);
            assert(e.skip(0) =~= e);
            if i > 0 {
                lemma_horner_split(dd, ll, i as int);
                lemma_horner_split(e, ll, i as int);
                assert(e.take(i as int) =~= dd.take(i as int));
            }
        }
        acc
    }

    /// Adds `n` steps of range `dim_idx` to the position, carrying towards range 0: the position
    /// becomes `(index + n * step) mod len`, and the result is `(index + n * step) div len`.
    pub fn move_n_assign_at_dim(&mut self, dim_idx: usize, n: isize) -> (res: isize)
        requires
            old(self).item_wf(),
            dim_idx < LEN,
            isize::MIN <= n * old(self).step(dim_idx as int) <= isize::MAX,
            isize::MIN <= old(self).index_view() + n * old(self).step(dim_idx as int)
                <= isize::MAX,
        ensures
            final(self).item_wf(),
            final(self).lens() == old(self).lens(),
            forall|j: int| dim_idx < j < LEN ==> #[trigger] final(self).digits()[j] == old(
                self,
            ).digits()[j],
            final(self).index_view() == (old(self).index_view() + n * old(self).step(
                dim_idx as int,
            )) % old(self).len_view(),
            res == (old(self).index_view() + n * old(self).step(dim_idx as int)) / old(
                self,
            ).len_view(),
    {
        let ghost d0 = self.digits();
        let ghost l0 = self.lens();
        proof {
            self.lemma_digits();
            lemma_horner_bound(d0, l0);
        }
        proof {
            assert(self.index_lens@[dim_idx as int] == self.step(dim_idx as int));
            assert(self.cached_index == self.index_view());
            lemma_prefix_prod_le(l0, dim_idx + 1);
        }
        let p = self.index_lens[dim_idx] as isize;
        let v = self.cached_index as isize + n * p;
        let new_cached = v.checked_rem_euclid(self.max_len as isize).unwrap() as usize;
        let carry = self.carry_move(dim_idx, n);
        proof {
            self.lemma_digits();
            let e = self.digits();
            lemma_horner_bound(e, l0);
            lemma_horner_split(d0, l0, dim_idx + 1);
            lemma_horner_split(e, l0, dim_idx + 1);
            assert(e.skip(dim_idx + 1) =~= d0.skip(dim_idx + 1));
            let a = horner_value(d0.take(dim_idx + 1), l0.take(dim_idx + 1));
            let b = horner_value(e.take(dim_idx + 1), l0.take(dim_idx + 1));
            let h = horner_prod(l0.take(dim_idx + 1));
            let pp = horner_prod(l0.skip(dim_idx + 1));
            let sv = horner_value(d0.skip(dim_idx + 1), l0.skip(dim_idx + 1));
            assert(pp == self.step(dim_idx as int));
            assert(a * pp + sv + n * pp == carry * (h * pp) + (b * pp + sv)) by (nonlinear_arith)
                requires
                    a + n == carry * h + b,
            ;
            lemma_fundamental_div_mod_converse_local(
                a * pp + sv + n * pp,
                h * pp,
                carry as int,
                b * pp + sv,
            );
        }
        self.cached_index = new_cached;
        carry
    }
}

impl<TItem: CountableRangeItemN, const LEN: usize> CountableRangeItemN for
    CountableRangeMergeArrayItem<TItem, LEN> {
    fn move_n_assign(&mut self, n: isize) -> (res: isize) {
        let ghost d0 = self.digits();
        let ghost l0 = self.lens();
        proof {
            self.lemma_digits();
            lemma_horner_bound(d0, l0);
        }
        let r = n.checked_rem_euclid(self.max_len as isize).unwrap() as usize;
        let c = self.cached_index + r;
        let carry = self.carry_move(LEN - 1, n);
        proof {
            self.lemma_digits();
            let e = self.digits();
            lemma_horner_bound(e, l0);
            assert(d0.take(LEN as int) =~= d0);
            assert(e.take(LEN as int) =~= e);
            assert(l0.take(LEN as int) =~= l0);
            vstd::arithmetic::div_mod::lemma_fundamental_div_mod(n as int, self.max_len as int);
            let m = self.max_len as int;
            let qn = n as int / m;
            let old_v = horner_value(d0, l0);
            if c >= self.max_len {
                assert(old_v + n == (qn + 1) * m + (c - m)) by (nonlinear_arith)
                    requires
                        n == m * qn + r,
                        c == old_v + r,
                ;
                lemma_fundamental_div_mod_converse_local(old_v + n, m, qn + 1, c - m);
            } else {
                assert(old_v + n == qn * m + c) by (nonlinear_arith)
                    requires
                        n == m * qn + r,
                        c == old_v + r,
                ;
                lemma_fundamental_div_mod_converse_local(old_v + n, m, qn, c as int);
            }
            lemma_fundamental_div_mod_converse_local(old_v + n, m, carry as int, horner_value(e, l0));
        }
        self.cached_index = if c >= self.max_len {
            c - self.max_len
        } else {
            c
        };
        carry
    }
}

impl<TRange: CountableRangeForRef, const LEN: usize> CountableRangeMergeArray<TRange, LEN> {
    /// The ranges.
    pub closed spec fn ranges_view(&self) -> Seq<TRange> {
        self.ranges@
    }

    /// The length of each range.
    pub open spec fn range_lens(&self) -> Seq<int> {
        Seq::new(LEN as nat, |i: int| self.ranges_view()[i].range_len_view())
    }

    /// Every range is well formed, the steps and length agree with them, the length fits `isize`.
    pub closed spec fn merge_wf(&self) -> bool {
        &&& LEN >= 1
        &&& forall|i: int| 0 <= i < LEN ==> #[trigger] self.ranges@[i].range_wf()
        &&& forall|i: int|
            0 <= i < LEN ==> #[trigger] self.index_lens@[i] == horner_prod(
                self.range_lens().skip(i + 1),
            )
        &&& self.max_len == horner_prod(self.range_lens())
        &&& self.max_len <= isize::MAX
    }

    proof fn lemma_lens(&self)
        requires
            forall|i: int| 0 <= i < LEN ==> #[trigger] self.ranges@[i].range_wf(),
        ensures
            lens_positive(self.range_lens()),
    {
        assert forall|i: int| 0 <= i < LEN implies #[trigger] self.range_lens()[i] >= 1 by {
            self.ranges@[i].lemma_range_wf();
        }
    }

    /// The product of `ranges` from precomputed data: `index_lens[i]` must be the product of the
    /// lengths of the ranges after `i`, and `max_len` the product of all of them.
    pub fn from_datas(ranges: [TRange; LEN], index_lens: [usize; LEN], max_len: usize) -> (res: Self)
        requires
            LEN >= 1,
            forall|i: int| 0 <= i < LEN ==> #[trigger] ranges@[i].range_wf(),
            forall|i: int|
                0 <= i < LEN ==> #[trigger] index_lens@[i] == horner_prod(
                    Seq::new(LEN as nat, |k: int| ranges@[k].range_len_view()).skip(i + 1),
                ),
            max_len == horner_prod(Seq::new(LEN as nat, |k: int| ranges@[k].range_len_view())),
            max_len <= isize::MAX,
        ensures
            res.merge_wf(),
            res.ranges_view() == ranges@,
    {
        let res = Self { ranges, index_lens, max_len };
        proof {
            assert(res.range_lens() =~= Seq::new(LEN as nat, |k: int| ranges@[k].range_len_view()));
        }
        res
    }

    /// The product of `ranges`; there must be at least one, each well formed, and the product of
    /// their lengths must fit in `isize`.
    pub fn new(ranges: [TRange; LEN]) -> (res: Self)
        requires
            LEN >= 1,
            forall|i: int| 0 <= i < LEN ==> #[trigger] ranges@[i].range_wf(),
            horner_prod(Seq::new(LEN as nat, |i: int| ranges@[i].range_len_view())) <= isize::MAX,
        ensures
            res.merge_wf(),
            res.ranges_view() == ranges@,
    {
        let ghost l = Seq::new(LEN as nat, |i: int| ranges@[i].range_len_view());
        proof {
            assert forall|i: int| 0 <= i < LEN implies #[trigger] l[i] >= 1 by {
                ranges@[i].lemma_range_wf();
            }
            assert(l.skip(LEN as int) =~= Seq::<int>::empty());
        }
        let mut index_lens: [usize; LEN] = [0usize; LEN];
        let mut acc: usize = 1;
        let mut i: usize = LEN;
        while i > 0
            invariant
                i <= LEN,
                LEN >= 1,
                l == Seq::new(LEN as nat, |k: int| ranges@[k].range_len_view()),
                lens_positive(l),
                horner_prod(l) <= isize::MAX,
                forall|k: int| 0 <= k < LEN ==> #[trigger] ranges@[k].range_wf(),
                acc == horner_prod(l.skip(i as int)),
                forall|j: int| i <= j < LEN ==> #[trigger] index_lens@[j] == horner_prod(
                    l.skip(j + 1),
                ),
            decreases i,
        {
            i = i - 1;
            let len = ranges[i].index_len();
            index_lens[i] = acc;
            proof {
                lemma_horner_front(l.skip(i as int), l.skip(i as int));
                assert(l.skip(i as int).skip(1) =~= l.skip(i + 1));
                lemma_prefix_prod_le(l, i as int);
                assert(len == l[i as int]);
                assert(acc * len == len * acc) by (nonlinear_arith);
            }
            acc = acc * len;
        }
        proof {
            assert(l.skip(0) =~= l);
        }
        let res = CountableRangeMergeArray { ranges, index_lens, max_len: acc };
        proof {
            assert(res.range_lens() =~= l);
        }
        res
    }
}

impl<TRange: CountableRangeForRef + Copy, const LEN: usize> CountableRangeMergeArray<TRange, LEN> {
    /// A cursor into each range, at the position that `digits` gives for it.
    fn cursors_at(&self, digits: &Vec<usize>) -> (res: [TRange::Item; LEN])
        requires
            self.merge_wf(),
            digits@.len() == LEN,
            forall|i: int| 0 <= i < LEN ==> #[trigger] digits@[i] < self.range_lens()[i],
        ensures
            forall|i: int| 0 <= i < LEN ==> #[trigger] res@[i].item_wf(),
            forall|i: int| 0 <= i < LEN ==> #[trigger] res@[i].len_view() == self.range_lens()[i],
            forall|i: int| 0 <= i < LEN ==> #[trigger] res@[i].index_view() == digits@[i],
    {
        let mut items: Vec<TRange::Item> = Vec::new();
        let mut i: usize = 0;
        while i < LEN
            invariant
                0 <= i <= LEN,
                self.merge_wf(),
                digits@.len() == LEN,
                forall|k: int| 0 <= k < LEN ==> #[trigger] digits@[k] < self.range_lens()[k],
                items@.len() == i,
                forall|k: int| 0 <= k < i ==> #[trigger] items@[k].item_wf(),
                forall|k: int| 0 <= k < i ==> #[trigger] items@[k].len_view() == self.range_lens()[k],
                forall|k: int| 0 <= k < i ==> #[trigger] items@[k].index_view() == digits@[k],
            decreases LEN - i,
        {
            let range = self.ranges[i];
            assert(range.range_wf());
            let item_may = range.item_from_index(digits[i]);
            proof {
                vstd::arithmetic::div_mod::lemma_small_mod(
                    digits@[i as int] as nat,
                    self.range_lens()[i as int] as nat,
                );
            }
            match item_may {
                Some(item) => {
                    items.push(item);
                },
                None => {
                    assert(false);
                },
            }
            i = i + 1;
        }
        array_from_vec(items)
    }
}

impl<TRange: CountableRangeForRef + Copy, const LEN: usize> CountableRangeForRef for
    CountableRangeMergeArray<TRange, LEN> {
    type Item = CountableRangeMergeArrayItem<TRange::Item, LEN>;

    open spec fn range_len_view(&self) -> int {
        horner_prod(self.range_lens())
    }

    open spec fn range_wf(&self) -> bool {
        self.merge_wf()
    }

    proof fn lemma_range_wf(&self) {
        self.lemma_lens();
        lemma_horner_prod_positive(self.range_lens());
    }

    fn item_first(self) -> (res: Self::Item) {
        let digits: Vec<usize> = vec![0usize; LEN];
        proof {
            self.lemma_lens();
        }
        let items = self.cursors_at(&digits);
        let res = CountableRangeMergeArrayItem {
            items,
            cached_index: 0,
            index_lens: self.index_lens,
            max_len: self.max_len,
        };
        proof {
            assert(res.lens() =~= self.range_lens());
            assert(res.digits() =~= Seq::new(LEN as nat, |i: int| 0int));
            lemma_horner_extremes(res.digits(), res.lens());
        }
        res
    }

    fn item_last(self) -> (res: Self::Item) {
        let mut digits: Vec<usize> = Vec::new();
        let mut i: usize = 0;
        proof {
            self.lemma_lens();
        }
        while i < LEN
            invariant
                0 <= i <= LEN,
                self.merge_wf(),
                lens_positive(self.range_lens()),
                digits@.len() == i,
                forall|k: int| 0 <= k < i ==> #[trigger] digits@[k] == self.range_lens()[k] - 1,
            decreases LEN - i,
        {
            let range = self.ranges[i];
            proof {
                assert(self.range_lens()[i as int] >= 1);
            }
            let len = range.index_len();
            digits.push(len - 1);
            i = i + 1;
        }
        let items = self.cursors_at(&digits);
        proof {
            lemma_horner_prod_positive(self.range_lens());
        }
        let res = CountableRangeMergeArrayItem {
            items,
            cached_index: self.max_len - 1,
            index_lens: self.index_lens,
            max_len: self.max_len,
        };
        proof {
            assert(res.lens() =~= self.range_lens());
            lemma_horner_extremes(res.digits(), res.lens());
        }
        res
    }

    fn item_from_index(self, index: usize) -> (res: Option<Self::Item>) {
        proof {
            self.lemma_lens();
            lemma_horner_prod_positive(self.range_lens());
        }
        let ghost l = self.range_lens();
        let mut digits: Vec<usize> = vec![0usize; LEN];
        let mut rest: usize = index;
        let mut i: usize = LEN;
        proof {
            assert(l.skip(LEN as int) =~= Seq::<int>::empty());
            assert(digits@.skip(LEN as int) =~= Seq::<usize>::empty());
        }
        while i > 0
            invariant
                i <= LEN,
                self.merge_wf(),
                l == self.range_lens(),
                lens_positive(l),
                digits@.len() == LEN,
                forall|k: int| i <= k < LEN ==> #[trigger] digits@[k] < l[k],
                index == rest * horner_prod(l.skip(i as int)) + horner_value(
                    digits@.skip(i as int).map_values(|x: usize| x as int),
                    l.skip(i as int),
                ),
            decreases i,
        {
            i = i - 1;
            let range = self.ranges[i];
            proof {
                range.lemma_range_wf();
            }
            let len = range.index_len();
            let ghost before = digits@;
            let ghost q = rest;
            digits.set(i, rest % len);
            rest = rest / len;
            proof {
                vstd::arithmetic::div_mod::lemma_fundamental_div_mod(q as int, len as int);
                let ds = digits@.skip(i as int).map_values(|x: usize| x as int);
                let bs = before.skip(i + 1).map_values(|x: usize| x as int);
                assert(ds.skip(1) =~= bs);
                assert(digits@.skip(i + 1).map_values(|x: usize| x as int) =~= bs);
                lemma_horner_front(ds, l.skip(i as int));
                assert(l.skip(i as int).skip(1) =~= l.skip(i + 1));
                let p = horner_prod(l.skip(i + 1));
                let hv = horner_value(bs, l.skip(i + 1));
                let r = (q % len) as int;
                assert(q * p + hv == rest * (len * p) + (r * p + hv)) by (nonlinear_arith)
                    requires
                        q == len * rest + r,
                ;
            }
        }
        let ghost ds = digits@.map_values(|x: usize| x as int);
        proof {
            assert(l.skip(0) =~= l);
            assert(digits@.skip(0) =~= digits@);
            assert(digits_below(ds, l));
            lemma_horner_bound(ds, l);
            lemma_fundamental_div_mod_converse_local(
                index as int,
                self.max_len as int,
                rest as int,
                horner_value(ds, l),
            );
        }
        let items = self.cursors_at(&digits);
        let res = CountableRangeMergeArrayItem {
            items,
            cached_index: index % self.max_len,
            index_lens: self.index_lens,
            max_len: self.max_len,
        };
        proof {
            assert(res.lens() =~= l);
            assert(res.digits() =~= ds);
        }
        Some(res)
    }

    fn index_len(&self) -> (res: usize) {
        self.max_len
    }
}

/// `x == q * d + r` with `0 <= r < d` makes `q` and `r` the quotient and remainder.
proof fn lemma_fundamental_div_mod_converse_local(x: int, d: int, q: int, r: int)
    requires
        0 <= r < d,
        x == q * d + r,
    ensures
        x % d == r,
        x / d == q,
{
    vstd::arithmetic::div_mod::lemma_fundamental_div_mod_converse(x, d, q, r);
}


impl<TItem: CountableRangeItem, const LEN: usize> CountableRangeItem for CountableRangeMergeArrayItem<
    TItem,
    LEN,
> {
    open spec fn len_view(&self) -> int {
        horner_prod(self.lens())
    }

    open spec fn index_view(&self) -> int {
        horner_value(self.digits(), self.lens())
    }

    open spec fn item_wf(&self) -> bool {
        self.array_wf()
    }

    proof fn lemma_item_wf(&self) {
        self.lemma_digits();
        lemma_horner_bound(self.digits(), self.lens());
    }

    fn index(&self) -> (res: usize) {
        self.cached_index
    }

    fn range_len(&self) -> (res: usize) {
        self.max_len
    }

    fn next_assign(&mut self) -> (stayed: bool) {
        proof {
            self.lemma_digits();
            assert(self.digits().take(LEN as int) =~= self.digits());
            assert(self.lens().take(LEN as int) =~= self.lens());
        }
        let wrapped = self.carry_next(LEN);
        proof {
            assert(self.digits().take(LEN as int) =~= self.digits());
            assert(self.lens().take(LEN as int) =~= self.lens());
            self.lemma_digits();
            lemma_horner_bound(self.digits(), self.lens());
        }
        if wrapped {
            self.cached_index = 0;
        } else {
            self.cached_index = self.cached_index + 1;
        }
        !wrapped
    }

    fn prev_assign(&mut self) -> (stayed: bool) {
        proof {
            self.lemma_digits();
            assert(self.digits().take(LEN as int) =~= self.digits());
            assert(self.lens().take(LEN as int) =~= self.lens());
        }
        let wrapped = self.carry_prev(LEN);
        proof {
            assert(self.digits().take(LEN as int) =~= self.digits());
            assert(self.lens().take(LEN as int) =~= self.lens());
            self.lemma_digits();
            lemma_horner_bound(self.digits(), self.lens());
        }
        if wrapped {
            self.cached_index = self.max_len - 1;
        } else {
            self.cached_index = self.cached_index - 1;
        }
        !wrapped
    }

    fn first_assign(&mut self) {
        let ghost l0 = self.lens();
        let mut i: usize = 0;
        while i < LEN
            invariant
                0 <= i <= LEN,
                self.lens() == l0,
                forall|j: int| 0 <= j < LEN ==> #[trigger] self.items@[j].item_wf(),
                forall|j: int| 0 <= j < i ==> #[trigger] self.digits()[j] == 0,
                self.index_lens == old(self).index_lens,
                self.max_len == old(self).max_len,
                l0 == old(self).lens(),
                old(self).array_wf(),
            decreases LEN - i,
        {
            let ghost before = self.items@;
            let ghost dig_before = self.digits();
            assert forall|j: int| 0 <= j < i implies #[trigger] dig_before[j] == 0 by {
                assert(self.digits()[j] == 0);
            }
            self.items[i].first_assign();
            proof {
                assert forall|j: int| 0 <= j < LEN implies #[trigger] self.items@[j].item_wf() by {
                    if j != i {
                        assert(self.items@[j] == before[j]);
                    }
                }
                assert forall|j: int| 0 <= j < i + 1 implies #[trigger] self.digits()[j] == 0 by {
                    if j != i {
                        assert(self.items@[j] == before[j]);
                        assert(dig_before[j] == 0);
                    }
                }
                assert(self.lens() =~= l0);
            }
            i = i + 1;
        }
        proof {
            lemma_horner_extremes(self.digits(), self.lens());
        }
        self.cached_index = 0;
    }

    fn last_assign(&mut self) {
        let ghost l0 = self.lens();
        let mut i: usize = 0;
        while i < LEN
            invariant
                0 <= i <= LEN,
                self.lens() == l0,
                forall|j: int| 0 <= j < LEN ==> #[trigger] self.items@[j].item_wf(),
                forall|j: int| 0 <= j < i ==> #[trigger] self.digits()[j] == l0[j] - 1,
                self.index_lens == old(self).index_lens,
                self.max_len == old(self).max_len,
                l0 == old(self).lens(),
                old(self).array_wf(),
            decreases LEN - i,
        {
            let ghost before = self.items@;
            let ghost dig_before = self.digits();
            assert forall|j: int| 0 <= j < i implies #[trigger] dig_before[j] == l0[j] - 1 by {
                assert(self.digits()[j] == l0[j] - 1);
            }
            self.items[i].last_assign();
            proof {
                assert forall|j: int| 0 <= j < LEN implies #[trigger] self.items@[j].item_wf() by {
                    if j != i {
                        assert(self.items@[j] == before[j]);
                    }
                }
                assert forall|j: int| 0 <= j < i + 1 implies #[trigger] self.digits()[j] == l0[j]
                    - 1 by {
                    if j != i {
                        assert(self.items@[j] == before[j]);
                        assert(dig_before[j] == l0[j] - 1);
                    }
                }
                assert(self.lens() =~= l0);
            }
            i = i + 1;
        }
        proof {
            lemma_horner_extremes(self.digits(), self.lens());
            self.lemma_digits();
            lemma_horner_bound(self.digits(), self.lens());
        }
        self.cached_index = self.max_len - 1;
    }
}

} // verus!
