//! [NDimIndexerU]: n-dimensional indexes over `0..len` in each dimension,
//! mapped to and from one compressed `usize` with dimension 0 the fastest-varying.
use vstd::prelude::*;
use core::ops::Range;
use crate::structures::n_dim_index::{
    lemma_positive_of_positive_prod, ranges_contain, NDimIndex, TNDimIndexer,
};
use crate::structures::mixed_radix::{
    all_nonneg, ints_of_isize,
    all_positive, digits_in_range, ints_of_usize, lemma_digits_value, lemma_prod_nonneg, lemma_prod_push,
    lemma_value_bound, lemma_value_digits, lemma_value_prefix_monotone, lemma_value_push, radix_digits,
    radix_prod, radix_value,
};

verus! {

/// An n-dimensional index of `usize`s.
pub type NDimIndexU<const DIM: usize> = [usize; DIM];

/// Maps `NDimIndexU` to a compressed `usize` and back; dimension 0 is the least significant.
#[derive(Clone, Copy)]
pub struct NDimIndexerU<const DIM: usize> {
    steps: [usize; DIM],
    length: usize,
    lens: [usize; DIM],
}

/// Iterates all indexes of an [NDimIndexerU] in compressed order.
pub struct NDimIndexUIter<'a, const DIM: usize> {
    lens: &'a [usize; DIM],
    cur: [usize; DIM],
    ended: bool,
}

/// The digits after adding one to the least significant digit, with carry;
/// the flag tells whether the carry ran out of the most significant digit.
pub open spec fn carry_increment(c: Seq<int>, l: Seq<int>) -> (Seq<int>, bool)
    decreases c.len(),
{
    if c.len() == 0 || l.len() == 0 {
        (c, true)
    } else if c[0] + 1 >= l[0] {
        let rest = carry_increment(c.drop_first(), l.drop_first());
        (seq![0int].add(rest.0), rest.1)
    } else {
        (seq![c[0] + 1].add(c.drop_first()), false)
    }
}

/// Incrementing in-range digits gives the digits of the next number, or carries out at the end.
pub proof fn lemma_carry_increment(c: Seq<int>, l: Seq<int>)
    requires
        digits_in_range(c, l),
    ensures
        carry_increment(c, l).1 <==> radix_value(c, l) + 1 == radix_prod(l),
        !carry_increment(c, l).1 ==> digits_in_range(carry_increment(c, l).0, l)
            && radix_value(carry_increment(c, l).0, l) == radix_value(c, l) + 1,
        carry_increment(c, l).1 ==> carry_increment(c, l).0 == Seq::new(c.len(), |i: int| 0int),
    decreases c.len(),
{
    if c.len() == 0 {
        assert(c =~= Seq::new(c.len(), |i: int| 0int));
    } else {
        let c1 = c.drop_first();
        let l1 = l.drop_first();
        assert(digits_in_range(c1, l1)) by {
            assert forall|i: int| 0 <= i < c1.len() implies 0 <= #[trigger] c1[i] < l1[i] by {
                assert(c1[i] == c[i + 1] && l1[i] == l[i + 1]);
            }
        }
        lemma_value_bound(c1, l1);
        let v1 = radix_value(c1, l1);
        let p1 = radix_prod(l1);
        if c[0] + 1 >= l[0] {
            lemma_carry_increment(c1, l1);
            let r = carry_increment(c, l);
            let r1 = carry_increment(c1, l1);
            assert(r.0.drop_first() =~= r1.0);
            assert(c[0] + 1 == l[0]);
            if r1.1 {
                assert(v1 + 1 == p1);
                assert(radix_value(c, l) + 1 == l[0] * p1) by (nonlinear_arith)
                    requires
                        radix_value(c, l) == c[0] + l[0] * v1,
                        c[0] + 1 == l[0],
                        v1 + 1 == p1,
                ;
                assert(r.0 =~= Seq::new(c.len(), |i: int| 0int));
            } else {
                assert(v1 + 1 < p1);
                assert(radix_value(r.0, l) == 0 + l[0] * (v1 + 1));
                assert(radix_value(c, l) + 1 == l[0] * (v1 + 1)) by (nonlinear_arith)
                    requires
                        radix_value(c, l) == c[0] + l[0] * v1,
                        c[0] + 1 == l[0],
                ;
                assert(l[0] * (v1 + 1) < l[0] * p1) by (nonlinear_arith)
                    requires
                        v1 + 1 < p1,
                        l[0] > 0,
                ;
                assert(digits_in_range(r.0, l)) by {
                    assert forall|i: int| 0 <= i < r.0.len() implies 0 <= #[trigger] r.0[i]
                        < l[i] by {
                        if i > 0 {
                            assert(r.0[i] == r1.0[i - 1] && l[i] == l1[i - 1]);
                        }
                    }
                }
            }
        } else {
            let r = carry_increment(c, l);
            assert(r.0.drop_first() =~= c1);
            assert(radix_value(c, l) + 1 < radix_prod(l)) by (nonlinear_arith)
                requires
                    radix_value(c, l) == c[0] + l[0] * v1,
                    c[0] + 1 < l[0],
                    0 <= c[0],
                    0 <= v1 < p1,
                    radix_prod(l) == l[0] * p1,
            ;
            assert(digits_in_range(r.0, l)) by {
                assert forall|i: int| 0 <= i < r.0.len() implies 0 <= #[trigger] r.0[i] < l[i] by {
                    if i > 0 {
                        assert(r.0[i] == c[i]);
                    }
                }
            }
        }
    }
}

impl<const DIM: usize> NDimIndexerU<DIM> {
    /// The length of each dimension.
    pub closed spec fn lens_view(&self) -> Seq<int> {
        ints_of_usize(self.lens@)
    }

    /// The step of each dimension in the compressed index.
    pub closed spec fn steps_view(&self) -> Seq<int> {
        ints_of_usize(self.steps@)
    }

    /// The number of compressed indexes.
    pub closed spec fn length_view(&self) -> int {
        self.length as int
    }

    /// Steps are the products of the lower dimensions' lengths; the length is the product of all.
    pub closed spec fn wf(&self) -> bool {
        &&& forall|i: int|
            0 <= i < DIM ==> #[trigger] self.steps@[i] == radix_prod(self.lens_view().take(i))
        &&& self.length == radix_prod(self.lens_view())
    }

    /// Builds the indexer for dimensions of the given lengths.
    pub fn new_len(lens: [usize; DIM]) -> (res: Self)
        requires
            forall|k: int|
                0 <= k <= DIM ==> #[trigger] radix_prod(ints_of_usize(lens@).take(k))
                    <= usize::MAX,
        ensures
            res.wf(),
            res.lens_view() == ints_of_usize(lens@),
    {
        let ghost l = ints_of_usize(lens@);
        let mut steps = [0usize; DIM];
        let mut cur_length: usize = 1;
        let mut i: usize = 0;
        assert(l.take(0) =~= Seq::<int>::empty());
        while i < DIM
            invariant
                0 <= i <= DIM,
                l == ints_of_usize(lens@),
                forall|k: int|
                    0 <= k <= DIM ==> #[trigger] radix_prod(l.take(k)) <= usize::MAX,
                cur_length == radix_prod(l.take(i as int)),
                forall|j: int| 0 <= j < i ==> #[trigger] steps@[j] == radix_prod(l.take(j)),
            decreases DIM - i,
        {
            steps[i] = cur_length;
            proof {
                assert(l.take(i + 1) =~= l.take(i as int).push(l[i as int]));
                lemma_prod_push(l.take(i as int), l[i as int]);
                assert(radix_prod(l.take(i + 1)) <= usize::MAX);
            }
            cur_length = cur_length * lens[i];
            i = i + 1;
        }
        assert(l.take(DIM as int) =~= l);
        let res = NDimIndexerU { steps, length: cur_length, lens };
        assert(res.lens_view() == l);
        res
    }

    /// The length of each dimension.
    pub fn lens(&self) -> (res: &[usize; DIM])
        ensures
            ints_of_usize(res@) == self.lens_view(),
    {
        &self.lens
    }

    /// The step of each dimension in the compressed index.
    pub fn bases(&self) -> (res: &[usize; DIM])
        ensures
            ints_of_usize(res@) == self.steps_view(),
    {
        &self.steps
    }

    /// The number of compressed indexes.
    pub fn length(&self) -> (res: usize)
        ensures
            res == self.length_view(),
    {
        self.length
    }

    /// Whether every coordinate lies below its dimension's length.
    pub fn contains_u(&self, indexes: NDimIndexU<DIM>) -> (res: bool)
        ensures
            res == digits_in_range(ints_of_usize(indexes@), self.lens_view()),
    {
        let ghost d = ints_of_usize(indexes@);
        let ghost l = self.lens_view();
        let mut i: usize = 0;
        while i < DIM
            invariant
                0 <= i <= DIM,
                d == ints_of_usize(indexes@),
                l == self.lens_view(),
                forall|j: int| 0 <= j < i ==> 0 <= #[trigger] d[j] < l[j],
            decreases DIM - i,
        {
            assert(d[i as int] == indexes[i as int] as int && l[i as int] == self.lens[i as int] as int);
            if !(indexes[i] < self.lens[i]) {
                return false;
            }
            i = i + 1;
        }
        assert(d.len() == l.len());
        true
    }

    /// The compressed index: `indexes[0] + lens[0] * (indexes[1] + lens[1] * (...))`.
    pub fn compress_index_u(&self, indexes: NDimIndexU<DIM>) -> (res: usize)
        requires
            self.wf(),
            radix_value(ints_of_usize(indexes@), self.lens_view()) <= usize::MAX,
        ensures
            res == radix_value(ints_of_usize(indexes@), self.lens_view()),
    {
        let ghost d = ints_of_usize(indexes@);
        let ghost l = self.lens_view();
        let mut res: usize = 0;
        let mut i: usize = 0;
        assert(d.take(0) =~= Seq::<int>::empty());
        assert(d.take(DIM as int) =~= d);
        assert(l.take(DIM as int) =~= l);
        while i < DIM
            invariant
                0 <= i <= DIM,
                self.wf(),
                d == ints_of_usize(indexes@),
                l == self.lens_view(),
                radix_value(d.take(DIM as int), l.take(DIM as int)) <= usize::MAX,
                res == radix_value(d.take(i as int), l.take(i as int)),
            decreases DIM - i,
        {
            proof {
                assert(d.take(i + 1) =~= d.take(i as int).push(d[i as int]));
                assert(l.take(i + 1) =~= l.take(i as int).push(l[i as int]));
                lemma_value_push(d.take(i as int), l.take(i as int), d[i as int], l[i as int]);
                lemma_value_prefix_monotone(d, l, i + 1, DIM as int);
                assert(self.steps@[i as int] == radix_prod(l.take(i as int)));
                lemma_prod_nonneg(l.take(i as int));
                vstd::arithmetic::mul::lemma_mul_nonnegative(radix_prod(l.take(i as int)), d[i as int]);
            }
            res = res + indexes[i] * self.steps[i];
            i = i + 1;
        }
        res
    }

    /// The index whose compressed form is `compressed_index`, digit by digit.
    pub fn decompress_index_u(&self, compressed_index: usize) -> (res: NDimIndexU<DIM>)
        requires
            all_positive(self.lens_view()),
        ensures
            ints_of_usize(res@) == radix_digits(compressed_index as int, self.lens_view()),
    {
        let ghost l = self.lens_view();
        let mut res = [0usize; DIM];
        let mut cur = compressed_index;
        let mut i: usize = 0;
        assert(l.skip(0) =~= l);
        while i < DIM
            invariant
                0 <= i <= DIM,
                l == self.lens_view(),
                all_positive(l),
                forall|j: int|
                    0 <= j < i ==> #[trigger] (res@[j] as int) == radix_digits(
                        compressed_index as int,
                        l,
                    )[j],
                radix_digits(compressed_index as int, l).skip(i as int) == radix_digits(
                    cur as int,
                    l.skip(i as int),
                ),
            decreases DIM - i,
        {
            let step = self.lens[i];
            assert(l[i as int] > 0);
            proof {
                let ds = radix_digits(cur as int, l.skip(i as int));
                lemma_digits_len(compressed_index as int, l);
                lemma_digits_len(cur as int, l.skip(i as int));
                assert(l.skip(i as int).drop_first() =~= l.skip(i + 1));
                assert(l.skip(i as int)[0] == step as int);
                assert(l[i as int] == step as int);
                assert(ds[0] == (cur as int) % (step as int));
                assert(radix_digits(compressed_index as int, l)[i as int] == radix_digits(
                    compressed_index as int,
                    l,
                ).skip(i as int)[0]);
                assert(radix_digits(compressed_index as int, l).skip(i + 1) =~= ds.drop_first());
            }
            res[i] = cur % step;
            cur = cur / step;
            i = i + 1;
        }
        proof {
            let a = ints_of_usize(res@);
            let b = radix_digits(compressed_index as int, l);
            assert(b.len() == l.len()) by {
                lemma_digits_len(compressed_index as int, l);
            }
            assert(a =~= b);
        }
        res
    }

    /// Iterates all indexes in compressed order.
    pub fn iter_u<'a>(&'a self) -> (res: NDimIndexUIter<'a, DIM>)
        ensures
            res.lens_view() == self.lens_view(),
            res.cur_view() == Seq::new(DIM as nat, |i: int| 0int),
            !res.ended_view(),
            res.wf(),
    {
        NDimIndexUIter::new(&self.lens)
    }

    /// The coordinate at `dim` read from a compressed index: the index taken modulo the step of
    /// dimension `dim - 1` (when there is one), divided by the step of `dim`.
    pub fn decompress_index_at_dim(&self, compressed_index: usize, dim: usize) -> (res: isize)
        requires
            self.wf(),
            dim < DIM,
            self.steps_view()[dim as int] > 0,
            dim > 0 ==> self.steps_view()[dim - 1] > 0,
            ({
                let c = if dim > 0 {
                    compressed_index as int % self.steps_view()[dim - 1]
                } else {
                    compressed_index as int
                };
                c / self.steps_view()[dim as int] <= isize::MAX
            }),
        ensures
            ({
                let c = if dim > 0 {
                    compressed_index as int % self.steps_view()[dim - 1]
                } else {
                    compressed_index as int
                };
                res == c / self.steps_view()[dim as int]
            }),
    {
        let mut c = compressed_index;
        let step = self.steps[dim];
        if dim > 0 {
            let prev_step = self.steps[dim - 1];
            c = c % prev_step;
        }
        (c / step) as isize
    }

    /// Adds `add_index` steps of dimension `dim` to a compressed index, wrapping around the length.
    pub fn add_index_at_dim(&self, compressed_index: usize, dim: usize, add_index: isize) -> (res:
        usize)
        requires
            self.wf(),
            dim < DIM,
            self.length_view() > 0,
            self.length_view() <= isize::MAX,
            compressed_index <= isize::MAX,
            self.steps_view()[dim as int] <= isize::MAX,
            isize::MIN <= self.steps_view()[dim as int] * add_index <= isize::MAX,
            isize::MIN <= compressed_index + self.steps_view()[dim as int] * add_index
                <= isize::MAX,
        ensures
            res == (compressed_index + self.steps_view()[dim as int] * add_index)
                % self.length_view(),
    {
        crate::structures::n_dim_index::wrap_add(compressed_index, self.steps[dim], add_index, self.length)
    }

    /// The length is the product of the dimensions' lengths, which are non-negative.
    pub proof fn lemma_length(&self)
        requires
            self.wf(),
        ensures
            self.length_view() == radix_prod(self.lens_view()),
            all_nonneg(self.lens_view()),
            self.lens_view().len() == DIM,
            self.length_view() <= usize::MAX,
    {
    }

    /// Compressing an in-range index gives a compressed index below the length,
    /// and decompressing it gives the index back.
    pub proof fn lemma_index_roundtrip(&self, indexes: Seq<int>)
        requires
            self.wf(),
            digits_in_range(indexes, self.lens_view()),
        ensures
            0 <= radix_value(indexes, self.lens_view()) < self.length_view(),
            all_positive(self.lens_view()),
            radix_digits(radix_value(indexes, self.lens_view()), self.lens_view()) == indexes,
    {
        lemma_value_bound(indexes, self.lens_view());
        lemma_value_digits(indexes, self.lens_view());
        assert forall|i: int| 0 <= i < self.lens_view().len() implies #[trigger] self.lens_view()[i]
            > 0 by {
            assert(0 <= indexes[i] < self.lens_view()[i]);
        }
    }

    /// Decompressing a compressed index below the length gives an in-range index
    /// that compresses back to it.
    pub proof fn lemma_compressed_roundtrip(&self, compressed_index: int)
        requires
            self.wf(),
            all_positive(self.lens_view()),
            0 <= compressed_index < self.length_view(),
        ensures
            digits_in_range(radix_digits(compressed_index, self.lens_view()), self.lens_view()),
            radix_value(radix_digits(compressed_index, self.lens_view()), self.lens_view())
                == compressed_index,
    {
        lemma_digits_value(compressed_index, self.lens_view());
    }
}

/// The digits of a number have one digit per radix.
pub proof fn lemma_digits_len(c: int, r: Seq<int>)
    ensures
        radix_digits(c, r).len() == r.len(),
    decreases r.len(),
{
    if r.len() > 0 {
        lemma_digits_len(c / r[0], r.drop_first());
    }
}

impl<'a, const DIM: usize> NDimIndexUIter<'a, DIM> {
    /// The lengths iterated over.
    pub closed spec fn lens_view(&self) -> Seq<int> {
        ints_of_usize(self.lens@)
    }

    /// The index to be returned next.
    pub closed spec fn cur_view(&self) -> Seq<int> {
        ints_of_usize(self.cur@)
    }

    /// Whether the iteration is over.
    pub closed spec fn ended_view(&self) -> bool {
        self.ended
    }

    /// Starts at the all-zero index.
    pub fn new(lens: &'a [usize; DIM]) -> (res: Self)
        ensures
            res.lens_view() == ints_of_usize(lens@),
            res.cur_view() == Seq::new(DIM as nat, |i: int| 0int),
            !res.ended_view(),
            res.wf(),
    {
        let res = NDimIndexUIter { lens, cur: [0usize; DIM], ended: false };
        assert(res.cur_view() =~= Seq::new(DIM as nat, |i: int| 0int));
        res
    }

    /// Every coordinate is below its length, or zero.
    pub closed spec fn wf(&self) -> bool {
        forall|i: int| 0 <= i < DIM ==> #[trigger] self.cur@[i] < self.lens@[i] || self.cur@[i] == 0
    }

    /// Returns the current index and moves to the next one, dimension 0 first;
    /// ends once every dimension has carried.
    pub fn next(&mut self) -> (res: Option<NDimIndexU<DIM>>)
        requires
            old(self).wf(),
        ensures
            final(self).wf(),
            final(self).lens_view() == old(self).lens_view(),
            old(self).ended_view() ==> res.is_none() && final(self).ended_view()
                && final(self).cur_view() == old(self).cur_view(),
            !old(self).ended_view() ==> res.is_some() && ints_of_usize(res.unwrap()@) == old(
                self,
            ).cur_view() && final(self).cur_view() == carry_increment(
                old(self).cur_view(),
                old(self).lens_view(),
            ).0 && final(self).ended_view() == carry_increment(
                old(self).cur_view(),
                old(self).lens_view(),
            ).1,
    {
        if self.ended {
            return None;
        }
        let res = self.cur;
        let ghost c0 = self.cur_view();
        let ghost l = self.lens_view();
        let mut i: usize = 0;
        let mut carried = true;
        assert(c0.skip(0) =~= c0);
        assert(l.skip(0) =~= l);
        while i < DIM
            invariant_except_break
                0 <= i <= DIM,
                carried,
                l == self.lens_view(),
                c0 == ints_of_usize(res@),
                forall|j: int| 0 <= j < DIM ==> #[trigger] res@[j] < self.lens@[j] || res@[j] == 0,
                forall|j: int| 0 <= j < i ==> #[trigger] self.cur@[j] == 0,
                forall|j: int| i <= j < DIM ==> #[trigger] self.cur@[j] == res@[j],
                carry_increment(c0, l) == (
                    Seq::new(i as nat, |j: int| 0int).add(carry_increment(c0.skip(i as int), l.skip(i as int)).0),
                    carry_increment(c0.skip(i as int), l.skip(i as int)).1,
                ),
            ensures
                l == self.lens_view(),
                c0 == ints_of_usize(res@),
                carry_increment(c0, l) == (self.cur_view(), !(i < DIM) && carried),
                forall|j: int| 0 <= j < DIM ==> #[trigger] self.cur@[j] < self.lens@[j] || self.cur@[j] == 0,
            decreases DIM - i,
        {
            let c = self.cur[i] + 1;
            proof {
                assert(c0.skip(i as int).drop_first() =~= c0.skip(i + 1));
                assert(l.skip(i as int).drop_first() =~= l.skip(i + 1));
                assert(c0.skip(i as int)[0] == c0[i as int]);
                assert(l.skip(i as int)[0] == l[i as int]);
            }
            if c >= self.lens[i] {
                self.cur[i] = 0;
                proof {
                    let rest = carry_increment(c0.skip(i + 1), l.skip(i + 1));
                    assert(Seq::new(i as nat, |j: int| 0int).add(seq![0int].add(rest.0)) =~= Seq::new(
                        (i + 1) as nat,
                        |j: int| 0int,
                    ).add(rest.0));
                }
                i = i + 1;
                if i == DIM {
                    proof {
                        assert(c0.skip(DIM as int) =~= Seq::<int>::empty());
                        assert(self.cur_view() =~= Seq::new(DIM as nat, |j: int| 0int).add(
                            Seq::<int>::empty(),
                        ));
                    }
                }
            } else {
                self.cur[i] = c;
                carried = false;
                proof {
                    let tail = carry_increment(c0.skip(i as int), l.skip(i as int));
                    assert(tail.0 =~= seq![c0[i as int] + 1].add(c0.skip(i + 1)));
                    assert(self.cur_view() =~= Seq::new(i as nat, |j: int| 0int).add(tail.0));
                }
                break;
            }
        }
        self.ended = !(i < DIM) && carried;
        Some(res)
    }

    /// The lengths with every zero raised to one: the iteration visits the indexes of these.
    pub open spec fn visited_lens(&self) -> Seq<int> {
        positive_lens(self.lens_view())
    }

    /// The number of indexes still to be returned.
    pub open spec fn remaining(&self) -> int {
        if self.ended_view() {
            0
        } else {
            radix_prod(self.visited_lens()) - radix_value(self.cur_view(), self.visited_lens())
        }
    }

    /// All indexes that remain, in order: those whose compressed values, over the
    /// lengths with zeros raised to one, run from the current index's up to the end.
    pub fn collect_all(self) -> (res: Vec<NDimIndexU<DIM>>)
        requires
            self.wf(),
        ensures
            res.len() == self.remaining(),
            forall|k: int|
                0 <= k < res.len() ==> ints_of_usize(#[trigger] res@[k]@) == radix_digits(
                    radix_value(self.cur_view(), self.visited_lens()) + k,
                    self.visited_lens(),
                ),
    {
        let ghost pl = self.visited_lens();
        let ghost v0 = radix_value(self.cur_view(), pl);
        let ghost p = radix_prod(pl);
        let ghost m0 = self.remaining();
        let mut it = self;
        let mut res: Vec<NDimIndexU<DIM>> = Vec::new();
        proof {
            lemma_positive_lens(it.cur_view(), it.lens_view());
            if !it.ended_view() {
                lemma_value_bound(it.cur_view(), pl);
            }
        }
        loop
            invariant_except_break
                it.wf(),
                it.lens_view() == self.lens_view(),
                pl == it.visited_lens(),
                p == radix_prod(pl),
                0 <= res.len() <= m0,
                m0 == self.remaining(),
                !it.ended_view() ==> radix_value(it.cur_view(), pl) == v0 + res.len()
                    && digits_in_range(it.cur_view(), pl),
                it.ended_view() ==> res.len() == m0,
                !it.ended_view() ==> m0 == p - v0,
                forall|k: int|
                    0 <= k < res.len() ==> ints_of_usize(#[trigger] res@[k]@) == radix_digits(
                        v0 + k,
                        pl,
                    ),
            ensures
                res.len() == m0,
                forall|k: int|
                    0 <= k < res.len() ==> ints_of_usize(#[trigger] res@[k]@) == radix_digits(
                        v0 + k,
                        pl,
                    ),
            decreases it.remaining(),
        {
            let ghost before = it;
            proof {
                lemma_positive_lens(it.cur_view(), it.lens_view());
                if !it.ended_view() {
                    lemma_carry_increment(it.cur_view(), pl);
                    lemma_value_digits(it.cur_view(), pl);
                    lemma_value_bound(it.cur_view(), pl);
                }
            }
            match it.next() {
                Some(v) => {
                    res.push(v);
                    proof {
                        let k = res.len() - 1;
                        assert(ints_of_usize(res@[k]@) == before.cur_view());
                        assert(!before.ended_view());
                        assert(radix_value(before.cur_view(), pl) == v0 + k);
                        assert(m0 == p - v0);
                        let ci = carry_increment(before.cur_view(), pl);
                        assert(digits_in_range(before.cur_view(), pl));
                        lemma_carry_increment(before.cur_view(), pl);
                        assert(ci.1 <==> radix_value(before.cur_view(), pl) + 1 == radix_prod(pl));
                        assert(p == radix_prod(pl));
                        assert(it.cur_view() == ci.0 && it.ended_view() == ci.1);
                        if ci.1 {
                            assert(v0 + k + 1 == p);
                            assert(res.len() == m0);
                        } else {
                            assert(radix_value(it.cur_view(), pl) == v0 + k + 1);
                            assert(v0 + k + 1 < p) by {
                                lemma_value_bound(it.cur_view(), pl);
                            }
                        }
                        if !it.ended_view() {
                            lemma_positive_lens(it.cur_view(), it.lens_view());
                        }
                        assert forall|j: int| 0 <= j < res.len() implies ints_of_usize(
                            #[trigger] res@[j]@,
                        ) == radix_digits(v0 + j, pl) by {
                            if j == k {
                                assert(res@[j] == v);
                            }
                        }
                    }
                },
                None => break,
            }
        }
        res
    }
}

/// Each zero raised to one.
pub open spec fn positive_lens(l: Seq<int>) -> Seq<int> {
    l.map_values(|x: int| if x > 0 { x } else { 1 })
}

/// Coordinates below their lengths or zero lie in range of the raised lengths,
/// and incrementing over either gives the same.
pub proof fn lemma_positive_lens(c: Seq<int>, l: Seq<int>)
    requires
        c.len() == l.len(),
        forall|i: int| 0 <= i < c.len() ==> 0 <= #[trigger] c[i] && (c[i] < l[i] || c[i] == 0),
    ensures
        digits_in_range(c, positive_lens(l)),
        carry_increment(c, l) == carry_increment(c, positive_lens(l)),
    decreases c.len(),
{
    if c.len() > 0 {
        let c1 = c.drop_first();
        let l1 = l.drop_first();
        assert(positive_lens(l).drop_first() =~= positive_lens(l1));
        assert forall|i: int| 0 <= i < c1.len() implies 0 <= #[trigger] c1[i] && (c1[i] < l1[i]
            || c1[i] == 0) by {
            assert(c1[i] == c[i + 1] && l1[i] == l[i + 1]);
        }
        lemma_positive_lens(c1, l1);
        let pl = positive_lens(l);
        assert(digits_in_range(c, pl)) by {
            assert forall|i: int| 0 <= i < c.len() implies 0 <= #[trigger] c[i] < pl[i] by {
                if i > 0 {
                    assert(c[i] == c1[i - 1]);
                    assert(pl[i] == positive_lens(l1)[i - 1]);
                }
            }
        }
    }
}

impl<const DIM: usize> TNDimIndexer<DIM> for NDimIndexerU<DIM> {
    open spec fn ndim_wf(&self) -> bool {
        &&& self.wf()
        &&& forall|i: int| 0 <= i < DIM ==> #[trigger] self.lens_view()[i] <= isize::MAX
    }

    open spec fn ndim_lens(&self) -> Seq<Range<isize>> {
        Seq::new(
            DIM as nat,
            |i: int| Range { start: 0isize, end: self.lens_view()[i] as isize },
        )
    }

    open spec fn ndim_length(&self) -> int {
        self.length_view()
    }

    open spec fn ndim_compress(&self, indexes: Seq<isize>) -> int {
        radix_value(ints_of_isize(indexes), self.lens_view())
    }

    open spec fn ndim_decompress(&self, compressed: int) -> Seq<int> {
        radix_digits(compressed, self.lens_view())
    }

    fn length(&self) -> (res: usize) {
        self.length
    }

    fn contains(&self, indexes: &NDimIndex<DIM>) -> (res: bool) {
        let mut i: usize = 0;
        while i < DIM
            invariant
                0 <= i <= DIM,
                forall|j: int|
                    0 <= j < i ==> 0 <= #[trigger] indexes@[j] && indexes@[j] < self.lens@[j],
                self.ndim_wf(),
            decreases DIM - i,
        {
            assert(self.lens_view()[i as int] <= isize::MAX);
            if !(0 <= indexes[i] && (indexes[i] as usize) < self.lens[i]) {
                proof {
                    let lr = self.ndim_lens();
                    assert(lr[i as int].end == self.lens@[i as int] as isize);
                    if 0 <= indexes[i as int] && indexes[i as int] < lr[i as int].end {
                        assert(self.lens@[i as int] as isize > indexes[i as int]);
                        assert(self.lens@[i as int] > indexes[i as int] as usize);
                    }
                }
                return false;
            }
            i = i + 1;
        }
        proof {
            let lr = self.ndim_lens();
            assert forall|j: int| 0 <= j < indexes@.len() implies lr[j].start
                <= #[trigger] indexes@[j] < lr[j].end by {
                assert(0 <= indexes@[j] && indexes@[j] < self.lens@[j]);
                assert(self.lens_view()[j] <= isize::MAX);
            }
        }
        true
    }

    fn contains_compressed(&self, index: usize) -> (res: bool) {
        index < self.length
    }

    fn compress_index(&self, indexes: &NDimIndex<DIM>) -> (res: usize) {
        let mut u = [0usize; DIM];
        let mut i: usize = 0;
        while i < DIM
            invariant
                0 <= i <= DIM,
                ranges_contain(indexes@, self.ndim_lens()),
                forall|j: int| 0 <= j < i ==> #[trigger] (u@[j] as int) == indexes@[j] as int,
            decreases DIM - i,
        {
            assert(0 <= indexes@[i as int]);
            u[i] = indexes[i] as usize;
            i = i + 1;
        }
        proof {
            assert(ints_of_usize(u@) =~= ints_of_isize(indexes@));
            assert(digits_in_range(ints_of_usize(u@), self.lens_view())) by {
                assert forall|j: int| 0 <= j < DIM implies 0 <= #[trigger] ints_of_usize(u@)[j]
                    < self.lens_view()[j] by {
                    assert(0 <= indexes@[j] < self.ndim_lens()[j].end);
                }
            }
            self.lemma_index_roundtrip(ints_of_usize(u@));
        }
        self.compress_index_u(u)
    }

    fn decompress_index(&self, compressed_index: usize) -> (res: NDimIndex<DIM>) {
        let ghost l = self.lens_view();
        proof {
            assert(all_nonneg(l));
            lemma_positive_of_positive_prod(l);
            self.lemma_compressed_roundtrip(compressed_index as int);
        }
        let u = self.decompress_index_u(compressed_index);
        let mut res = [0isize; DIM];
        let mut i: usize = 0;
        while i < DIM
            invariant
                0 <= i <= DIM,
                self.ndim_wf(),
                digits_in_range(ints_of_usize(u@), self.lens_view()),
                forall|j: int| 0 <= j < i ==> #[trigger] (res@[j] as int) == u@[j] as int,
            decreases DIM - i,
        {
            assert(ints_of_usize(u@)[i as int] < self.lens_view()[i as int]);
            res[i] = u[i] as isize;
            i = i + 1;
        }
        proof {
            assert(ints_of_isize(res@) =~= ints_of_usize(u@));
            let lr = self.ndim_lens();
            assert forall|j: int| 0 <= j < DIM implies lr[j].start <= #[trigger] res@[j]
                < lr[j].end by {
                assert(ints_of_usize(u@)[j] < self.lens_view()[j]);
            }
        }
        res
    }

    proof fn lemma_ndim_roundtrip(&self, indexes: Seq<isize>) {
        let d = ints_of_isize(indexes);
        assert(digits_in_range(d, self.lens_view())) by {
            assert forall|j: int| 0 <= j < DIM implies 0 <= #[trigger] d[j] < self.lens_view()[j] by {
                assert(self.ndim_lens()[j].start <= indexes[j] < self.ndim_lens()[j].end);
            }
        }
        self.lemma_index_roundtrip(d);
    }

    proof fn lemma_ndim_compressed_roundtrip(&self, compressed: int) {
        let l = self.lens_view();
        assert(all_nonneg(l));
        lemma_positive_of_positive_prod(l);
        self.lemma_compressed_roundtrip(compressed);
        let dec = radix_digits(compressed, l);
        let q = Seq::new(DIM as nat, |i: int| dec[i] as isize);
        assert forall|i: int| 0 <= i < DIM implies self.ndim_lens()[i].start <= #[trigger] dec[i]
            < self.ndim_lens()[i].end by {
            assert(0 <= dec[i] < l[i]);
        }
        assert(ints_of_isize(q) =~= dec);
    }
}

} // verus!
