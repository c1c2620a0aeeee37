//! [NDimIndexer]: n-dimensional indexes over a range in each dimension, mapped to and from
//! one compressed `usize` with the last dimension the fastest-varying.
use vstd::prelude::*;
use core::ops::Range;
use crate::structures::mixed_radix::{
    all_nonneg, all_positive, digits_in_range, ints_of_isize, lemma_digits_value,
    lemma_prod_nonneg, lemma_prod_push, lemma_value_bound, lemma_value_digits, lemma_value_push,
    radix_digits, radix_prod, radix_value,
};
use crate::structures::n_dim_index_u::lemma_digits_len;

verus! {

/// An n-dimensional index.
pub type NDimIndex<const DIM: usize> = [isize; DIM];

/// The length of each range.
pub open spec fn range_extents(lens: Seq<Range<isize>>) -> Seq<int> {
    lens.map_values(|r: Range<isize>| r.end - r.start)
}

/// Each coordinate's offset from its range's start.
pub open spec fn rel_digits(indexes: Seq<isize>, lens: Seq<Range<isize>>) -> Seq<int> {
    Seq::new(indexes.len(), |i: int| indexes[i] - lens[i].start)
}

/// Whether every coordinate lies in its range.
pub open spec fn ranges_contain(indexes: Seq<isize>, lens: Seq<Range<isize>>) -> bool {
    &&& indexes.len() == lens.len()
    &&& forall|i: int| 0 <= i < indexes.len() ==> lens[i].start <= #[trigger] indexes[i] < lens[i].end
}

/// The compressed index of `indexes`: the last dimension is the least significant digit.
pub open spec fn compress_spec(indexes: Seq<isize>, lens: Seq<Range<isize>>) -> int {
    radix_value(rel_digits(indexes, lens).reverse(), range_extents(lens).reverse())
}

/// The index whose compressed form is `c`.
pub open spec fn decompress_spec(c: int, lens: Seq<Range<isize>>) -> Seq<int> {
    Seq::new(
        lens.len(),
        |i: int| radix_digits(c, range_extents(lens).reverse())[lens.len() - 1 - i] + lens[i].start,
    )
}

/// Maps n-dimensional indexes inside `lens` to compressed `usize`s and back.
pub struct NDimIndexer<const DIM: usize> {
    starts: [isize; DIM],
    steps: [usize; DIM],
    range_u: usize,
    lens: [Range<isize>; DIM],
}

impl<const DIM: usize> NDimIndexer<DIM> {
    /// The range of each dimension.
    pub closed spec fn lens_view(&self) -> Seq<Range<isize>> {
        self.lens@
    }

    /// The step of each dimension in the compressed index.
    pub closed spec fn steps_view(&self) -> Seq<int> {
        self.steps@.map_values(|x: usize| x as int)
    }

    /// The number of compressed indexes.
    pub closed spec fn length_view(&self) -> int {
        self.range_u as int
    }

    /// Ranges are non-empty or empty but never reversed, steps are the products of the
    /// lengths of the later dimensions, and the length is the product of all.
    pub closed spec fn wf(&self) -> bool {
        &&& forall|i: int|
            0 <= i < DIM ==> self.lens@[i].start <= self.lens@[i].end && #[trigger] self.lens@[i].end
                - self.lens@[i].start <= isize::MAX
        &&& forall|i: int| 0 <= i < DIM ==> #[trigger] self.starts@[i] == self.lens@[i].start
        &&& forall|i: int|
            0 <= i < DIM ==> #[trigger] self.steps@[i] == radix_prod(
                range_extents(self.lens@).skip(i + 1).reverse(),
            )
        &&& self.range_u == radix_prod(range_extents(self.lens@).reverse())
    }

    /// Builds the indexer for the given ranges.
    pub fn new_len(lens: [Range<isize>; DIM]) -> (res: Self)
        requires
            forall|i: int|
                0 <= i < DIM ==> lens@[i].start <= lens@[i].end && #[trigger] lens@[i].end
                    - lens@[i].start <= isize::MAX,
            forall|k: int|
                0 <= k <= DIM ==> #[trigger] radix_prod(range_extents(lens@).skip(k).reverse())
                    <= usize::MAX,
        ensures
            res.wf(),
            res.lens_view() == lens@,
    {
        let ghost e = range_extents(lens@);
        let mut starts = [0isize; DIM];
        let mut steps = [0usize; DIM];
        let mut total_len: usize = 1;
        let mut i: usize = DIM;
        assert(e.skip(DIM as int).reverse() =~= Seq::<int>::empty());
        while i > 0
            invariant
                0 <= i <= DIM,
                e == range_extents(lens@),
                forall|j: int|
                    0 <= j < DIM ==> lens@[j].start <= lens@[j].end && #[trigger] lens@[j].end
                        - lens@[j].start <= isize::MAX,
                forall|k: int|
                    0 <= k <= DIM ==> #[trigger] radix_prod(e.skip(k).reverse()) <= usize::MAX,
                total_len == radix_prod(e.skip(i as int).reverse()),
                forall|j: int| i <= j < DIM ==> #[trigger] starts@[j] == lens@[j].start,
                forall|j: int|
                    i <= j < DIM ==> #[trigger] steps@[j] == radix_prod(e.skip(j + 1).reverse()),
            decreases i,
        {
            i = i - 1;
            starts[i] = lens[i].start;
            steps[i] = total_len;
            let dim_len = (lens[i].end - lens[i].start) as usize;
            proof {
                assert(e.skip(i as int).reverse() =~= e.skip(i + 1).reverse().push(e[i as int]));
                lemma_prod_push(e.skip(i + 1).reverse(), e[i as int]);
                assert(e[i as int] == dim_len as int);
            }
            total_len = total_len * dim_len;
        }
        assert(e.skip(0) =~= e);
        NDimIndexer { starts, steps, range_u: total_len, lens }
    }

    /// The start of each dimension's range.
    pub fn starts(&self) -> (res: &[isize; DIM])
        requires
            self.wf(),
        ensures
            forall|i: int| 0 <= i < DIM ==> #[trigger] res@[i] == self.lens_view()[i].start,
    {
        &self.starts
    }

    /// The range of each dimension.
    pub fn lens(&self) -> (res: &[Range<isize>; DIM])
        ensures
            res@ == self.lens_view(),
    {
        &self.lens
    }

    /// The step of each dimension in the compressed index.
    pub fn steps(&self) -> (res: &[usize; DIM])
        ensures
            res@.map_values(|x: usize| x as int) == self.steps_view(),
    {
        &self.steps
    }

    /// The number of compressed indexes.
    pub fn length(&self) -> (res: usize)
        ensures
            res == self.length_view(),
    {
        self.range_u
    }

    /// Whether every coordinate lies in its dimension's range.
    pub fn contains(&self, indexes: &NDimIndex<DIM>) -> (res: bool)
        ensures
            res == ranges_contain(indexes@, self.lens_view()),
    {
        let mut i: usize = 0;
        while i < DIM
            invariant
                0 <= i <= DIM,
                forall|j: int|
                    0 <= j < i ==> self.lens@[j].start <= #[trigger] indexes@[j] < self.lens@[j].end,
            decreases DIM - i,
        {
            if !(self.lens[i].start <= indexes[i] && indexes[i] < self.lens[i].end) {
                return false;
            }
            i = i + 1;
        }
        true
    }

    /// Whether a compressed index is below the length.
    pub fn contains_compressed(&self, index: usize) -> (res: bool)
        ensures
            res == (index < self.length_view()),
    {
        index < self.range_u
    }

    /// The compressed index: the offsets from the starts as digits, the last dimension least
    /// significant.
    pub fn compress_index(&self, indexes: &NDimIndex<DIM>) -> (res: usize)
        requires
            self.wf(),
            forall|i: int|
                0 <= i < DIM ==> self.lens_view()[i].start <= #[trigger] indexes@[i]
                    && indexes@[i] - self.lens_view()[i].start <= isize::MAX,
            compress_spec(indexes@, self.lens_view()) <= usize::MAX,
        ensures
            res == compress_spec(indexes@, self.lens_view()),
    {
        let ghost d = rel_digits(indexes@, self.lens@);
        let ghost e = range_extents(self.lens@);
        let mut res: usize = 0;
        let mut i: usize = DIM;
        assert(d.skip(DIM as int).reverse() =~= Seq::<int>::empty());
        assert(d.skip(0) =~= d);
        assert(all_nonneg(d));
        assert(e.skip(0) =~= e);
        while i > 0
            invariant
                0 <= i <= DIM,
                self.wf(),
                d == rel_digits(indexes@, self.lens@),
                e == range_extents(self.lens@),
                all_nonneg(d),
                forall|j: int|
                    0 <= j < DIM ==> self.lens@[j].start <= #[trigger] indexes@[j]
                        && indexes@[j] - self.lens@[j].start <= isize::MAX,
                radix_value(d.skip(0).reverse(), e.skip(0).reverse()) <= usize::MAX,
                res == radix_value(d.skip(i as int).reverse(), e.skip(i as int).reverse()),
            decreases i,
        {
            i = i - 1;
            proof {
                assert(d.skip(i as int).reverse() =~= d.skip(i + 1).reverse().push(d[i as int]));
                assert(e.skip(i as int).reverse() =~= e.skip(i + 1).reverse().push(e[i as int]));
                lemma_value_push(d.skip(i + 1).reverse(), e.skip(i + 1).reverse(), d[i as int], e[i as int]);
                lemma_suffix_value_monotone(d, e, i as int);
                assert(self.steps@[i as int] == radix_prod(e.skip(i + 1).reverse()));
                assert(all_nonneg(e.skip(i + 1).reverse()));
                lemma_prod_nonneg(e.skip(i + 1).reverse());
                vstd::arithmetic::mul::lemma_mul_nonnegative(radix_prod(e.skip(i + 1).reverse()), d[i as int]);
                assert(d[i as int] == indexes@[i as int] - self.lens@[i as int].start);
            }
            let offset = (indexes[i] - self.lens[i].start) as usize;
            assert(offset as int == d[i as int]);
            assert(offset * self.steps[i as int] == radix_prod(e.skip(i + 1).reverse()) * d[i as int])
                by (nonlinear_arith)
                requires
                    offset as int == d[i as int],
                    self.steps[i as int] as int == radix_prod(e.skip(i + 1).reverse()),
            ;
            res = res + offset * self.steps[i];
        }
        res
    }

    /// The index whose compressed form is `compressed_index`.
    pub fn decompress_index(&self, compressed_index: usize) -> (res: NDimIndex<DIM>)
        requires
            self.wf(),
            all_positive(range_extents(self.lens_view())),
        ensures
            ints_of_isize(res@) == decompress_spec(compressed_index as int, self.lens_view()),
    {
        let ghost e = range_extents(self.lens@);
        let ghost r = e.reverse();
        let ghost ds = radix_digits(compressed_index as int, r);
        let mut res = [0isize; DIM];
        let mut cur = compressed_index;
        let mut i: usize = DIM;
        proof {
            lemma_digits_len(compressed_index as int, r);
        }
        assert(ds.skip(0) =~= ds);
        assert(r.skip(0) =~= r);
        while i > 0
            invariant
                0 <= i <= DIM,
                self.wf(),
                e == range_extents(self.lens@),
                r == e.reverse(),
                all_positive(e),
                ds == radix_digits(compressed_index as int, r),
                ds.len() == DIM,
                forall|j: int|
                    i <= j < DIM ==> #[trigger] (res@[j] as int) == ds[DIM - 1 - j]
                        + self.lens@[j].start,
                ds.skip(DIM - i) == radix_digits(cur as int, r.skip(DIM - i)),
            decreases i,
        {
            i = i - 1;
            let k: usize = DIM - 1 - i;
            let ext = (self.lens[i].end - self.lens[i].start) as usize;
            proof {
                assert(e[i as int] > 0);
                assert(r[k as int] == e[i as int]);
                assert(r.skip(k as int).drop_first() =~= r.skip(k + 1));
                assert(r.skip(k as int)[0] == ext as int);
                lemma_digits_len(cur as int, r.skip(k as int));
                assert(ds[k as int] == ds.skip(k as int)[0]);
                assert(ds.skip(k + 1) =~= ds.skip(k as int).drop_first());
                assert(ds[k as int] == (cur as int) % (ext as int));
                assert((cur as int) % (ext as int) < ext as int);
            }
            let digit = (cur % ext) as isize;
            res[i] = digit + self.lens[i].start;
            cur = cur / ext;
        }
        proof {
            assert(ints_of_isize(res@) =~= decompress_spec(compressed_index as int, self.lens@));
        }
        res
    }

    /// The coordinate at `dim` read from a compressed index.
    pub fn decompress_index_at_dim(&self, compressed_index: usize, dim: usize) -> (res: isize)
        requires
            self.wf(),
            dim < DIM,
            self.steps_view()[dim as int] > 0,
            dim > 0 ==> self.steps_view()[dim - 1] > 0,
            ({
                let c = if dim > 0 {
                    compressed_index as int % self.steps_view()[dim - 1]
                } else {
                    compressed_index as int
                };
                &&& c / self.steps_view()[dim as int] <= isize::MAX
                &&& c / self.steps_view()[dim as int] + self.lens_view()[dim as int].start
                    <= isize::MAX
            }),
        ensures
            ({
                let c = if dim > 0 {
                    compressed_index as int % self.steps_view()[dim - 1]
                } else {
                    compressed_index as int
                };
                res == c / self.steps_view()[dim as int] + self.lens_view()[dim as int].start
            }),
    {
        let mut c = compressed_index;
        let step = self.steps[dim];
        assert(self.steps_view()[dim as int] == step as int);
        if dim > 0 {
            let prev_step = self.steps[dim - 1];
            assert(self.steps_view()[dim - 1] == prev_step as int);
            c = c % prev_step;
        }
        ((c / step) as isize) + self.lens[dim].start
    }

    /// Adds `add_index` steps of dimension `dim` to a compressed index, wrapping around the length.
    pub fn add_index_at_dim(&self, compressed_index: usize, dim: usize, add_index: isize) -> (res:
        usize)
        requires
            self.wf(),
            dim < DIM,
            self.length_view() > 0,
            self.length_view() <= isize::MAX,
            compressed_index <= isize::MAX,
            self.steps_view()[dim as int] <= isize::MAX,
            isize::MIN <= self.steps_view()[dim as int] * add_index <= isize::MAX,
            isize::MIN <= compressed_index + self.steps_view()[dim as int] * add_index
                <= isize::MAX,
        ensures
            res == (compressed_index + self.steps_view()[dim as int] * add_index)
                % self.length_view(),
    {
        assert(self.steps_view()[dim as int] == self.steps@[dim as int] as int);
        wrap_add(compressed_index, self.steps[dim], add_index, self.range_u)
    }

    /// Iterates all indexes, the last dimension fastest.
    pub fn iter<'a>(&'a self) -> (res: NDimIndexIter<'a, DIM>)
        requires
            forall|i: int| 0 <= i < DIM ==> #[trigger] self.lens_view()[i].start < isize::MAX,
        ensures
            res.lens_view() == self.lens_view(),
            res.cur_view() == Seq::new(DIM as nat, |i: int| self.lens_view()[i].start as int),
            !res.ended_view(),
            res.wf(),
    {
        assert forall|i: int| 0 <= i < DIM implies #[trigger] self.lens@[i].start < isize::MAX by {
            assert(self.lens_view()[i].start < isize::MAX);
        }
        NDimIndexIter::new(&self.lens)
    }

    /// What well-formedness says of the ranges, the steps and the length.
    pub proof fn lemma_wf_facts(&self)
        requires
            self.wf(),
        ensures
            self.steps_view().len() == DIM,
            self.lens_view().len() == DIM,
            forall|i: int|
                0 <= i < DIM ==> self.lens_view()[i].start <= self.lens_view()[i].end
                    && #[trigger] self.lens_view()[i].end - self.lens_view()[i].start
                    <= isize::MAX,
            forall|i: int|
                0 <= i < DIM ==> #[trigger] self.steps_view()[i] == radix_prod(
                    range_extents(self.lens_view()).skip(i + 1).reverse(),
                ),
            self.length_view() == radix_prod(range_extents(self.lens_view()).reverse()),
            0 <= self.length_view() <= usize::MAX,
            all_nonneg(range_extents(self.lens_view())),
    {
        assert forall|i: int| 0 <= i < DIM implies #[trigger] self.steps_view()[i] == radix_prod(
            range_extents(self.lens_view()).skip(i + 1).reverse(),
        ) by {
            assert(self.steps_view()[i] == self.steps@[i] as int);
        }
    }

    /// A step is at most the length when every range is non-empty.
    pub proof fn lemma_step_le_length(&self, dim: int)
        requires
            self.wf(),
            0 <= dim < DIM,
            all_positive(range_extents(self.lens_view())),
        ensures
            1 <= self.steps_view()[dim] <= self.length_view(),
    {
        self.lemma_wf_facts();
        let r = range_extents(self.lens_view()).reverse();
        let k = DIM - 1 - dim;
        assert(range_extents(self.lens_view()).skip(dim + 1).reverse() =~= r.take(k));
        lemma_prod_take_le(r, k);
        assert(r.take(DIM as int) =~= r);
    }

    /// Compressing an index inside the ranges gives a compressed index below the length,
    /// and decompressing it gives the index back.
    pub proof fn lemma_index_roundtrip(&self, indexes: Seq<isize>)
        requires
            self.wf(),
            ranges_contain(indexes, self.lens_view()),
        ensures
            0 <= compress_spec(indexes, self.lens_view()) < self.length_view(),
            all_positive(range_extents(self.lens_view())),
            decompress_spec(compress_spec(indexes, self.lens_view()), self.lens_view())
                == ints_of_isize(indexes),
    {
        let d = rel_digits(indexes, self.lens@);
        let e = range_extents(self.lens@);
        assert(digits_in_range(d.reverse(), e.reverse())) by {
            assert forall|i: int| 0 <= i < d.len() implies 0 <= #[trigger] d.reverse()[i]
                < e.reverse()[i] by {
                let j = d.len() - 1 - i;
                assert(0 <= d[j] < e[j]);
            }
        }
        lemma_value_bound(d.reverse(), e.reverse());
        lemma_value_digits(d.reverse(), e.reverse());
        assert forall|i: int| 0 <= i < e.len() implies #[trigger] e[i] > 0 by {
            assert(self.lens@[i].start <= indexes[i] < self.lens@[i].end);
        }
        assert(decompress_spec(compress_spec(indexes, self.lens@), self.lens@) =~= ints_of_isize(
            indexes,
        ));
    }

    /// Decompressing a compressed index below the length gives an index inside the ranges
    /// that compresses back to it.
    pub proof fn lemma_compressed_roundtrip(&self, compressed_index: int)
        requires
            self.wf(),
            0 <= compressed_index < self.length_view(),
        ensures
            all_positive(range_extents(self.lens_view())),
            forall|i: int|
                0 <= i < DIM ==> self.lens_view()[i].start <= #[trigger] decompress_spec(
                    compressed_index,
                    self.lens_view(),
                )[i] < self.lens_view()[i].end,
            radix_value(
                Seq::new(
                    DIM as nat,
                    |i: int|
                        decompress_spec(compressed_index, self.lens_view())[i]
                            - self.lens_view()[i].start,
                ).reverse(),
                range_extents(self.lens_view()).reverse(),
            ) == compressed_index,
    {
        let e = range_extents(self.lens@);
        let r = e.reverse();
        assert(all_nonneg(r));
        lemma_positive_of_positive_prod(r);
        assert(all_positive(e)) by {
            assert forall|i: int| 0 <= i < e.len() implies #[trigger] e[i] > 0 by {
                assert(e[i] == r[e.len() - 1 - i]);
            }
        }
        lemma_digits_value(compressed_index, r);
        let ds = radix_digits(compressed_index, r);
        let dec = decompress_spec(compressed_index, self.lens@);
        let back = Seq::new(DIM as nat, |i: int| dec[i] - self.lens@[i].start);
        assert(back.reverse() =~= ds);
        assert forall|i: int| 0 <= i < DIM implies self.lens@[i].start <= #[trigger] dec[i]
            < self.lens@[i].end by {
            assert(0 <= ds[DIM - 1 - i] < r[DIM - 1 - i]);
        }
    }
}

/// Non-negative radices with a positive product are all positive.
pub proof fn lemma_positive_of_positive_prod(r: Seq<int>)
    requires
        all_nonneg(r),
        radix_prod(r) > 0,
    ensures
        all_positive(r),
    decreases r.len(),
{
    if r.len() > 0 {
        let r1 = r.drop_first();
        assert(all_nonneg(r1)) by {
            assert forall|i: int| 0 <= i < r1.len() implies #[trigger] r1[i] >= 0 by {
                assert(r1[i] == r[i + 1]);
            }
        }
        lemma_prod_nonneg(r1);
        assert(r[0] > 0 && radix_prod(r1) > 0) by (nonlinear_arith)
            requires
                r[0] >= 0,
                radix_prod(r1) >= 0,
                r[0] * radix_prod(r1) > 0,
        ;
        lemma_positive_of_positive_prod(r1);
        assert forall|i: int| 0 <= i < r.len() implies #[trigger] r[i] > 0 by {
            if i > 0 {
                assert(r[i] == r1[i - 1]);
            }
        }
    }
}

/// The product of a prefix of positive radices is positive and at most the product of all.
pub proof fn lemma_prod_take_le(r: Seq<int>, k: int)
    requires
        all_positive(r),
        0 <= k <= r.len(),
    ensures
        1 <= radix_prod(r.take(k)) <= radix_prod(r),
    decreases r.len() - k,
{
    if k == r.len() {
        assert(r.take(k) =~= r);
        assert(all_positive(r.take(k)));
        crate::structures::mixed_radix::lemma_prod_positive(r.take(k));
    } else {
        lemma_prod_take_le(r, k + 1);
        assert(r.take(k + 1) =~= r.take(k).push(r[k]));
        lemma_prod_push(r.take(k), r[k]);
        assert(all_positive(r.take(k)));
        crate::structures::mixed_radix::lemma_prod_positive(r.take(k));
        let p = radix_prod(r.take(k));
        assert(p <= p * r[k]) by (nonlinear_arith)
            requires
                p >= 1,
                r[k] >= 1,
        ;
    }
}

/// The value of a suffix of non-negative digits is at most the value of the whole.
proof fn lemma_suffix_value_monotone(d: Seq<int>, e: Seq<int>, i: int)
    requires
        d.len() == e.len(),
        0 <= i <= d.len(),
        all_nonneg(d),
        all_nonneg(e),
    ensures
        radix_value(d.skip(i).reverse(), e.skip(i).reverse()) <= radix_value(
            d.skip(0).reverse(),
            e.skip(0).reverse(),
        ),
    decreases i,
{
    if i > 0 {
        lemma_suffix_value_monotone(d, e, i - 1);
        assert(d.skip(i - 1).reverse() =~= d.skip(i).reverse().push(d[i - 1]));
        assert(e.skip(i - 1).reverse() =~= e.skip(i).reverse().push(e[i - 1]));
        lemma_value_push(d.skip(i).reverse(), e.skip(i).reverse(), d[i - 1], e[i - 1]);
        assert(all_nonneg(e.skip(i).reverse()));
        lemma_prod_nonneg(e.skip(i).reverse());
        vstd::arithmetic::mul::lemma_mul_nonnegative(radix_prod(e.skip(i).reverse()), d[i - 1]);
    }
}

/// `(base + step * n) mod length`, by repeated adding or subtracting of the length.
pub(crate) fn wrap_add(base: usize, step: usize, n: isize, length: usize) -> (res: usize)
    requires
        length > 0,
        length <= isize::MAX,
        base <= isize::MAX,
        step <= isize::MAX,
        isize::MIN <= step * n <= isize::MAX,
        isize::MIN <= base + step * n <= isize::MAX,
    ensures
        res == (base + step * n) % (length as int),
{
    let ghost target = base + step * n;
    let mut v: isize = (base as isize) + (step as isize) * n;
    let len = length as isize;
    let ghost mut k: int = 0;
    while v < 0
        invariant
            len == length,
            length > 0,
            length <= isize::MAX,
            v <= isize::MAX,
            v == target + k * length,
        decreases if v < 0 { -v } else { 0 },
    {
        v = v + len;
        proof {
            assert(target + (k + 1) * length == target + k * length + length) by (nonlinear_arith);
            k = k + 1;
        }
    }
    while v >= len
        invariant
            len == length,
            length > 0,
            v >= 0,
            v == target + k * length,
        decreases v,
    {
        v = v - len;
        proof {
            assert(target + (k - 1) * length == target + k * length - length) by (nonlinear_arith);
            k = k - 1;
        }
    }
    proof {
        assert(target == (-k) * length + v) by (nonlinear_arith)
            requires
                v == target + k * length,
        ;
        vstd::arithmetic::div_mod::lemma_fundamental_div_mod_converse(
            target,
            length as int,
            -k,
            v as int,
        );
    }
    v as usize
}

/// Iterates all indexes inside the ranges, the last dimension fastest.
pub struct NDimIndexIter<'a, const DIM: usize> {
    lens: &'a [Range<isize>; DIM],
    cur: [isize; DIM],
    ended: bool,
}

/// The coordinates after adding one to the last coordinate, with carry: a coordinate that
/// reaches its range's end goes back to its start and carries into the one before;
/// the flag tells whether the carry ran out of the first coordinate.
pub open spec fn carry_increment_back(c: Seq<int>, lens: Seq<Range<isize>>) -> (Seq<int>, bool)
    decreases c.len(),
{
    if c.len() == 0 || lens.len() == 0 {
        (c, true)
    } else if c.last() + 1 >= lens.last().end {
        let rest = carry_increment_back(c.drop_last(), lens.drop_last());
        (rest.0.push(lens.last().start as int), rest.1)
    } else {
        (c.drop_last().push(c.last() + 1), false)
    }
}

/// The coordinates as `isize`.
pub open spec fn as_isize_seq(p: Seq<int>) -> Seq<isize> {
    p.map_values(|x: int| x as isize)
}

/// Each range's start.
pub open spec fn range_starts(lens: Seq<Range<isize>>) -> Seq<int> {
    Seq::new(lens.len(), |i: int| lens[i].start as int)
}

/// Each coordinate's offset from its range's start, last coordinate first.
pub open spec fn rel_back(c: Seq<int>, lens: Seq<Range<isize>>) -> Seq<int> {
    Seq::new(c.len(), |i: int| c[c.len() - 1 - i] - lens[c.len() - 1 - i].start)
}

/// The coordinates whose offsets, last coordinate first, are `d`.
pub open spec fn unrel_back(d: Seq<int>, lens: Seq<Range<isize>>) -> Seq<int> {
    Seq::new(d.len(), |i: int| d[d.len() - 1 - i] + lens[i].start)
}

/// Where [NDimIndexIter] stands after `k` calls of `next` from its start, and whether it has
/// ended.
pub open spec fn index_walk(lens: Seq<Range<isize>>, k: nat) -> (Seq<int>, bool)
    decreases k,
{
    if k == 0 {
        (range_starts(lens), false)
    } else {
        let p = index_walk(lens, (k - 1) as nat);
        if p.1 {
            p
        } else {
            carry_increment_back(p.0, lens)
        }
    }
}

/// Stepping digits keeps their number.
proof fn lemma_carry_len(c: Seq<int>, l: Seq<int>)
    ensures
        crate::structures::n_dim_index_u::carry_increment(c, l).0.len() == c.len(),
    decreases c.len(),
{
    if c.len() > 0 && l.len() > 0 {
        lemma_carry_len(c.drop_first(), l.drop_first());
    }
}

/// Stepping an index back-first is stepping its offsets, last coordinate first, as digits.
proof fn lemma_carry_back_rel(c: Seq<int>, lens: Seq<Range<isize>>)
    requires
        c.len() == lens.len(),
    ensures
        carry_increment_back(c, lens).1 == crate::structures::n_dim_index_u::carry_increment(
            rel_back(c, lens),
            range_extents(lens).reverse(),
        ).1,
        carry_increment_back(c, lens).0 == unrel_back(
            crate::structures::n_dim_index_u::carry_increment(
                rel_back(c, lens),
                range_extents(lens).reverse(),
            ).0,
            lens,
        ),
    decreases c.len(),
{
    let r = rel_back(c, lens);
    let e = range_extents(lens).reverse();
    if c.len() == 0 {
        assert(unrel_back(r, lens) =~= c);
    } else {
        let c1 = c.drop_last();
        let l1 = lens.drop_last();
        lemma_carry_back_rel(c1, l1);
        assert(rel_back(c1, l1) =~= r.drop_first());
        assert(range_extents(l1).reverse() =~= e.drop_first());
        assert(r[0] == c.last() - lens.last().start);
        assert(e[0] == lens.last().end - lens.last().start);
        let rest = crate::structures::n_dim_index_u::carry_increment(r.drop_first(), e.drop_first());
        lemma_carry_len(r.drop_first(), e.drop_first());
        if c.last() + 1 >= lens.last().end {
            let out = seq![0int].add(rest.0);
            assert(unrel_back(rest.0, l1).push(lens.last().start as int) =~= unrel_back(out, lens));
        } else {
            let out = seq![r[0] + 1].add(r.drop_first());
            assert(unrel_back(r.drop_first(), l1) =~= c1);
            assert(c1.push(c.last() + 1) =~= unrel_back(out, lens));
        }
    }
}

/// One step of [NDimIndexIter] from the `k`-th index in compressed order goes to the next one, or
/// ends after the last, back at the start.
pub proof fn lemma_iter_step(lens: Seq<Range<isize>>, k: int)
    requires
        forall|i: int| 0 <= i < lens.len() ==> #[trigger] lens[i].start < lens[i].end,
        0 <= k < radix_prod(range_extents(lens).reverse()),
    ensures
        decompress_spec(0, lens) == range_starts(lens),
        ranges_contain(as_isize_seq(decompress_spec(k, lens)), lens),
        compress_spec(as_isize_seq(decompress_spec(k, lens)), lens) == k,
        k + 1 < radix_prod(range_extents(lens).reverse()) ==> carry_increment_back(
            decompress_spec(k, lens),
            lens,
        ) == (decompress_spec(k + 1, lens), false),
        k + 1 == radix_prod(range_extents(lens).reverse()) ==> carry_increment_back(
            decompress_spec(k, lens),
            lens,
        ) == (range_starts(lens), true),
{
    let e = range_extents(lens).reverse();
    assert(all_positive(e)) by {
        assert forall|i: int| 0 <= i < e.len() implies #[trigger] e[i] > 0 by {
            assert(e[i] == range_extents(lens)[lens.len() - 1 - i]);
        }
    }
    let p = decompress_spec(k, lens);
    lemma_digits_len(k, e);
    lemma_digits_len(0, e);
    lemma_digits_value(k, e);
    let dk = radix_digits(k, e);
    assert(rel_back(p, lens) =~= dk);
    let pi = as_isize_seq(p);
    assert forall|i: int| 0 <= i < lens.len() implies lens[i].start <= #[trigger] pi[i] < lens[i].end by {
        let j = lens.len() - 1 - i;
        assert(p[i] == dk[j] + lens[i].start);
        assert(0 <= dk[j] < e[j]);
        assert(e[j] == range_extents(lens)[i]);
    }
    assert(rel_digits(pi, lens).reverse() =~= dk);
    lemma_carry_back_rel(p, lens);
    crate::structures::n_dim_index_u::lemma_carry_increment(dk, e);
    let nx = crate::structures::n_dim_index_u::carry_increment(dk, e);
    crate::structures::mixed_radix::lemma_prod_positive(e);
    assert(radix_digits(0, e) =~= Seq::new(e.len(), |i: int| 0int)) by {
        lemma_digits_value(0, e);
        lemma_value_digits(Seq::new(e.len(), |i: int| 0int), e);
        lemma_zero_value(e);
    }
    assert(decompress_spec(0, lens) =~= range_starts(lens));
    if k + 1 < radix_prod(e) {
        lemma_value_digits(nx.0, e);
        lemma_digits_len(k + 1, e);
        assert(unrel_back(nx.0, lens) =~= decompress_spec(k + 1, lens));
    } else {
        assert(unrel_back(nx.0, lens) =~= range_starts(lens));
    }
}

/// The value of all-zero digits is 0.
proof fn lemma_zero_value(e: Seq<int>)
    ensures
        radix_value(Seq::new(e.len(), |i: int| 0int), e) == 0,
    decreases e.len(),
{
    if e.len() > 0 {
        assert(Seq::new(e.len(), |i: int| 0int).drop_first() =~= Seq::new(
            e.drop_first().len(),
            |i: int| 0int,
        ));
        lemma_zero_value(e.drop_first());
    }
}

/// A whole walk of [NDimIndexIter]: after `k` calls of `next` it stands at the `k`-th index in
/// compressed order (the one `next` returns on call `k + 1`): an index inside the ranges whose
/// compressed form is `k`. It ends after as many calls as there are indexes, back at the start.
pub proof fn lemma_index_walk(lens: Seq<Range<isize>>, k: nat)
    requires
        forall|i: int| 0 <= i < lens.len() ==> #[trigger] lens[i].start < lens[i].end,
        k <= radix_prod(range_extents(lens).reverse()),
    ensures
        k < radix_prod(range_extents(lens).reverse()) ==> index_walk(lens, k) == (
            decompress_spec(k as int, lens),
            false,
        ) && ranges_contain(as_isize_seq(index_walk(lens, k).0), lens) && compress_spec(
            as_isize_seq(index_walk(lens, k).0),
            lens,
        ) == k,
        k == radix_prod(range_extents(lens).reverse()) ==> index_walk(lens, k) == (
            range_starts(lens),
            true,
        ),
    decreases k,
{
    let n = radix_prod(range_extents(lens).reverse());
    if k == 0 {
        crate::structures::mixed_radix::lemma_prod_positive(range_extents(lens).reverse());
        lemma_iter_step(lens, 0);
    } else {
        lemma_index_walk(lens, (k - 1) as nat);
        lemma_iter_step(lens, k - 1);
        if k < n {
            lemma_iter_step(lens, k as int);
        }
    }
}

impl<'a, const DIM: usize> NDimIndexIter<'a, DIM> {
    /// The ranges iterated over.
    pub closed spec fn lens_view(&self) -> Seq<Range<isize>> {
        self.lens@
    }

    /// The index to be returned next.
    pub closed spec fn cur_view(&self) -> Seq<int> {
        ints_of_isize(self.cur@)
    }

    /// Whether the iteration is over.
    pub closed spec fn ended_view(&self) -> bool {
        self.ended
    }

    /// Every coordinate lies in its range or at its start, below `isize::MAX`.
    pub closed spec fn wf(&self) -> bool {
        forall|i: int|
            0 <= i < DIM ==> (#[trigger] self.cur@[i] < self.lens@[i].end || self.cur@[i]
                == self.lens@[i].start) && self.cur@[i] >= self.lens@[i].start && self.lens@[i].start
                < isize::MAX
    }

    /// Starts at the index made of every range's start.
    pub fn new(lens: &'a [Range<isize>; DIM]) -> (res: Self)
        requires
            forall|i: int| 0 <= i < DIM ==> #[trigger] lens@[i].start < isize::MAX,
        ensures
            res.lens_view() == lens@,
            res.cur_view() == Seq::new(DIM as nat, |i: int| lens@[i].start as int),
            !res.ended_view(),
            res.wf(),
    {
        let mut cur = [0isize; DIM];
        let mut i: usize = 0;
        while i < DIM
            invariant
                0 <= i <= DIM,
                forall|j: int| 0 <= j < i ==> #[trigger] cur@[j] == lens@[j].start,
            decreases DIM - i,
        {
            cur[i] = lens[i].start;
            i = i + 1;
        }
        let res = NDimIndexIter { lens, cur, ended: false };
        assert(res.cur_view() =~= Seq::new(DIM as nat, |i: int| lens@[i].start as int));
        res
    }

    /// Returns the current index and moves to the next one, the last dimension first;
    /// ends once every dimension has carried.
    pub fn next(&mut self) -> (res: Option<NDimIndex<DIM>>)
        requires
            old(self).wf(),
        ensures
            final(self).wf(),
            final(self).lens_view() == old(self).lens_view(),
            old(self).ended_view() ==> res.is_none() && final(self).ended_view()
                && final(self).cur_view() == old(self).cur_view(),
            !old(self).ended_view() ==> res.is_some() && ints_of_isize(res.unwrap()@) == old(
                self,
            ).cur_view() && final(self).cur_view() == carry_increment_back(
                old(self).cur_view(),
                old(self).lens_view(),
            ).0 && final(self).ended_view() == carry_increment_back(
                old(self).cur_view(),
                old(self).lens_view(),
            ).1,
    {
        if self.ended {
            return None;
        }
        let res = self.cur;
        let ghost c0 = self.cur_view();
        let ghost l = self.lens@;
        let mut i: usize = DIM;
        let mut carried = true;
        assert(c0.take(DIM as int) =~= c0);
        assert(l.take(DIM as int) =~= l);
        assert forall|j: int| 0 <= j < DIM implies #[trigger] l[j].start < isize::MAX by {
            assert(self.cur@[j] >= l[j].start);
        }
        while i > 0
            invariant_except_break
                0 <= i <= DIM,
                carried,
                l == self.lens@,
                c0 == ints_of_isize(res@),
                forall|j: int|
                    0 <= j < DIM ==> (#[trigger] res@[j] < l[j].end || res@[j] == l[j].start)
                        && res@[j] >= l[j].start && l[j].start < isize::MAX,
                forall|j: int| i <= j < DIM ==> #[trigger] self.cur@[j] == l[j].start,
                forall|j: int| 0 <= j < i ==> #[trigger] self.cur@[j] == res@[j],
                forall|j: int| 0 <= j < DIM ==> #[trigger] l[j].start < isize::MAX,
                carry_increment_back(c0, l) == (
                    carry_increment_back(c0.take(i as int), l.take(i as int)).0.add(
                        Seq::new((DIM - i) as nat, |j: int| l[i + j].start as int),
                    ),
                    carry_increment_back(c0.take(i as int), l.take(i as int)).1,
                ),
            ensures
                l == self.lens@,
                c0 == ints_of_isize(res@),
                carry_increment_back(c0, l) == (self.cur_view(), i == 0 && carried),
                forall|j: int|
                    0 <= j < DIM ==> (#[trigger] self.cur@[j] < l[j].end || self.cur@[j]
                        == l[j].start) && self.cur@[j] >= l[j].start && l[j].start < isize::MAX,
            decreases i,
        {
            i = i - 1;
            let c = self.cur[i] + 1;
            proof {
                assert(c0.take(i + 1).drop_last() =~= c0.take(i as int));
                assert(l.take(i + 1).drop_last() =~= l.take(i as int));
                assert(c0.take(i + 1).last() == c0[i as int]);
                assert(l.take(i + 1).last() == l[i as int]);
            }
            if c >= self.lens[i].end {
                self.cur[i] = self.lens[i].start;
                proof {
                    let rest = carry_increment_back(c0.take(i as int), l.take(i as int));
                    assert(rest.0.push(l[i as int].start as int).add(
                        Seq::new((DIM - i - 1) as nat, |j: int| l[i + 1 + j].start as int),
                    ) =~= rest.0.add(Seq::new((DIM - i) as nat, |j: int| l[i + j].start as int)));
                    if i == 0 {
                        assert(c0.take(0) =~= Seq::<int>::empty());
                        assert(Seq::new((DIM - i) as nat, |j: int| l[i + j].start as int) =~= Seq::new(
                            DIM as nat,
                            |j: int| l[j].start as int,
                        ));
                        assert(self.cur_view() =~= Seq::<int>::empty().add(
                            Seq::new(DIM as nat, |j: int| l[j].start as int),
                        ));
                    }
                }
            } else {
                self.cur[i] = c;
                carried = false;
                proof {
                    assert forall|j: int| 0 <= j < DIM implies (#[trigger] self.cur@[j] < l[j].end
                        || self.cur@[j] == l[j].start) && self.cur@[j] >= l[j].start && l[j].start
                        < isize::MAX by {
                        assert(res@[j] >= l[j].start);
                        if j < i {
                            assert(self.cur@[j] == res@[j]);
                        }
                    }
                    let head = carry_increment_back(c0.take(i + 1), l.take(i + 1));
                    assert(head.0 =~= c0.take(i as int).push(c0[i as int] + 1));
                    assert(self.cur_view() =~= head.0.add(
                        Seq::new((DIM - i - 1) as nat, |j: int| l[i + 1 + j].start as int),
                    ));
                }
                break;
            }
        }
        self.ended = i == 0 && carried;
        Some(res)
    }
}

/// An indexer: a bijection between the n-dimensional indexes inside its ranges and the
/// compressed indexes below its length.
pub trait TNDimIndexer<const DIM: usize> {
    /// The indexer's own invariant.
    spec fn ndim_wf(&self) -> bool;

    /// The range of each dimension.
    spec fn ndim_lens(&self) -> Seq<Range<isize>>;

    /// The number of compressed indexes.
    spec fn ndim_length(&self) -> int;

    /// The compressed index of an index inside the ranges.
    spec fn ndim_compress(&self, indexes: Seq<isize>) -> int;

    /// The index of a compressed index below the length.
    spec fn ndim_decompress(&self, compressed: int) -> Seq<int>;

    /// The number of compressed indexes.
    fn length(&self) -> (res: usize)
        ensures
            res == self.ndim_length(),
    ;

    /// Whether every coordinate lies in its dimension's range.
    fn contains(&self, indexes: &NDimIndex<DIM>) -> (res: bool)
        requires
            self.ndim_wf(),
        ensures
            res == ranges_contain(indexes@, self.ndim_lens()),
    ;

    /// Whether a compressed index lies below the length.
    fn contains_compressed(&self, index: usize) -> (res: bool)
        ensures
            res == (index < self.ndim_length()),
    ;

    /// Converts an index inside the ranges to its compressed index.
    fn compress_index(&self, indexes: &NDimIndex<DIM>) -> (res: usize)
        requires
            self.ndim_wf(),
            ranges_contain(indexes@, self.ndim_lens()),
        ensures
            res == self.ndim_compress(indexes@),
            res < self.ndim_length(),
    ;

    /// Converts a compressed index below the length to its index.
    fn decompress_index(&self, compressed_index: usize) -> (res: NDimIndex<DIM>)
        requires
            self.ndim_wf(),
            compressed_index < self.ndim_length(),
        ensures
            ints_of_isize(res@) == self.ndim_decompress(compressed_index as int),
            ranges_contain(res@, self.ndim_lens()),
            self.ndim_compress(res@) == compressed_index,
    ;

    /// Compressing an index inside the ranges and decompressing it gives it back.
    proof fn lemma_ndim_roundtrip(&self, indexes: Seq<isize>)
        requires
            self.ndim_wf(),
            ranges_contain(indexes, self.ndim_lens()),
        ensures
            0 <= self.ndim_compress(indexes) < self.ndim_length(),
            self.ndim_decompress(self.ndim_compress(indexes)) == ints_of_isize(indexes),
    ;

    /// Decompressing a compressed index below the length gives an index inside the ranges
    /// that compresses back to it; the length fits in `usize`.
    proof fn lemma_ndim_compressed_roundtrip(&self, compressed: int)
        requires
            self.ndim_wf(),
            0 <= compressed < self.ndim_length(),
        ensures
            self.ndim_length() <= usize::MAX,
            self.ndim_lens().len() == DIM,
            self.ndim_decompress(compressed).len() == DIM,
            forall|i: int|
                0 <= i < DIM ==> self.ndim_lens()[i].start <= #[trigger] self.ndim_decompress(
                    compressed,
                )[i] < self.ndim_lens()[i].end,
            self.ndim_compress(
                Seq::new(DIM as nat, |i: int| self.ndim_decompress(compressed)[i] as isize),
            ) == compressed,
    ;
}

impl<const DIM: usize> TNDimIndexer<DIM> for NDimIndexer<DIM> {
    open spec fn ndim_wf(&self) -> bool {
        self.wf()
    }

    open spec fn ndim_lens(&self) -> Seq<Range<isize>> {
        self.lens_view()
    }

    open spec fn ndim_length(&self) -> int {
        self.length_view()
    }

    open spec fn ndim_compress(&self, indexes: Seq<isize>) -> int {
        compress_spec(indexes, self.lens_view())
    }

    open spec fn ndim_decompress(&self, compressed: int) -> Seq<int> {
        decompress_spec(compressed, self.lens_view())
    }

    fn length(&self) -> (res: usize) {
        NDimIndexer::length(self)
    }

    fn contains(&self, indexes: &NDimIndex<DIM>) -> (res: bool) {
        NDimIndexer::contains(self, indexes)
    }

    fn contains_compressed(&self, index: usize) -> (res: bool) {
        NDimIndexer::contains_compressed(self, index)
    }

    fn compress_index(&self, indexes: &NDimIndex<DIM>) -> (res: usize) {
        proof {
            self.lemma_index_roundtrip(indexes@);
            self.lemma_wf_facts();
            assert forall|i: int| 0 <= i < DIM implies self.lens_view()[i].start
                <= #[trigger] indexes@[i] && indexes@[i] - self.lens_view()[i].start
                <= isize::MAX by {
                assert(self.lens_view()[i].end - self.lens_view()[i].start <= isize::MAX);
            }
        }
        NDimIndexer::compress_index(self, indexes)
    }

    fn decompress_index(&self, compressed_index: usize) -> (res: NDimIndex<DIM>) {
        proof {
            self.lemma_compressed_roundtrip(compressed_index as int);
        }
        let res = NDimIndexer::decompress_index(self, compressed_index);
        proof {
            let l = self.lens_view();
            let dec = decompress_spec(compressed_index as int, l);
            assert(rel_digits(res@, l) =~= Seq::new(DIM as nat, |i: int| dec[i] - l[i].start));
            assert forall|i: int| 0 <= i < DIM implies l[i].start <= #[trigger] res@[i]
                < l[i].end by {
                assert(res@[i] as int == ints_of_isize(res@)[i]);
            }
        }
        res
    }

    proof fn lemma_ndim_roundtrip(&self, indexes: Seq<isize>) {
        self.lemma_index_roundtrip(indexes);
    }

    proof fn lemma_ndim_compressed_roundtrip(&self, compressed: int) {
        self.lemma_wf_facts();
        self.lemma_compressed_roundtrip(compressed);
        let l = self.lens_view();
        let dec = decompress_spec(compressed, l);
        let q = Seq::new(DIM as nat, |i: int| dec[i] as isize);
        assert(rel_digits(q, l) =~= Seq::new(DIM as nat, |i: int| dec[i] - l[i].start));
    }
}

} // verus!
