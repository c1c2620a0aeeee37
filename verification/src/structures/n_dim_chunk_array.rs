//! [NDimChunkArray]: an n-dimensional array over `0..lens[i]` stored in cubic chunks of
//! `dim_elem_count` elements per side; chunks at the far edges are cut to fit.
use vstd::prelude::*;
use crate::structures::mixed_radix::{
    digits_in_range, ints_of_isize, ints_of_usize, radix_digits, radix_prod, radix_value,
    all_positive,
    lemma_prod_nonneg, all_nonneg, lemma_value_bound, lemma_value_digits, lemma_digits_value,
};
use crate::structures::dim_dir::DimDir;
use crate::structures::n_dim_array::{NDimArray, lemma_index_eq, phase_pairs};
use crate::structures::n_dim_index::{NDimIndex, TNDimIndexer};
use crate::structures::n_dim_index_u::NDimIndexerU;

verus! {

broadcast use vstd::array::group_array_axioms;

/// The number of chunks along a dimension of length `len`.
pub open spec fn chunk_count(len: int, d: int) -> int {
    len / d + if len % d > 0 { 1int } else { 0int }
}

/// The length along one dimension of the chunk at chunk coordinate `t`.
pub open spec fn chunk_len(len: int, d: int, t: int) -> int {
    if t == len / d {
        len % d
    } else {
        d
    }
}

/// The number of chunks along each dimension.
pub open spec fn chunk_counts(lens: Seq<int>, d: int) -> Seq<int> {
    Seq::new(lens.len(), |i: int| chunk_count(lens[i], d))
}

/// The lengths of the chunk at chunk index `t`.
pub open spec fn chunk_lens(lens: Seq<int>, d: int, t: Seq<int>) -> Seq<int> {
    Seq::new(lens.len(), |i: int| chunk_len(lens[i], d, t[i]))
}

/// The lengths of a chunk that no edge cuts (or of the whole array where it is smaller).
pub open spec fn full_chunk_lens(lens: Seq<int>, d: int) -> Seq<int> {
    Seq::new(lens.len(), |i: int| if lens[i] < d { lens[i] } else { d })
}

/// The index made of a chunk index and an index inside the chunk.
pub open spec fn merge_index(t: Seq<int>, c: Seq<int>, d: int) -> Seq<int> {
    Seq::new(t.len(), |i: int| t[i] * d + c[i])
}

/// A coordinate lies inside its dimension exactly when its chunk coordinate lies among the
/// chunks and its offset lies inside that chunk.
pub proof fn lemma_split_coordinate(a: int, len: int, d: int)
    requires
        0 <= a,
        0 <= len,
        d > 0,
    ensures
        (a < len) <==> (a / d < chunk_count(len, d) && a % d < chunk_len(len, d, a / d)),
        0 <= a % d < d,
        a == (a / d) * d + a % d,
        0 <= a / d,
{
    let q = a / d;
    let r = a % d;
    let lq = len / d;
    let lr = len % d;
    vstd::arithmetic::div_mod::lemma_fundamental_div_mod(a, d);
    vstd::arithmetic::div_mod::lemma_fundamental_div_mod(len, d);
    vstd::arithmetic::div_mod::lemma_mod_pos_bound(a, d);
    vstd::arithmetic::div_mod::lemma_mod_pos_bound(len, d);
    vstd::arithmetic::div_mod::lemma_div_pos_is_pos(a, d);
    vstd::arithmetic::div_mod::lemma_div_pos_is_pos(len, d);
    assert(a == q * d + r) by (nonlinear_arith)
        requires
            a == d * q + r,
    ;
    assert(len == lq * d + lr) by (nonlinear_arith)
        requires
            len == d * lq + lr,
    ;
    if q < lq {
        assert(q * d + r < lq * d) by (nonlinear_arith)
            requires
                q < lq,
                r < d,
                d > 0,
        ;
    } else if q == lq {
    } else {
        assert(q * d >= (lq + 1) * d) by (nonlinear_arith)
            requires
                q >= lq + 1,
                d > 0,
        ;
        assert((lq + 1) * d == lq * d + d) by (nonlinear_arith);
    }
}

/// A product of non-negative factors is at most the product of factors that bound them.
pub proof fn lemma_prod_le(a: Seq<int>, b: Seq<int>)
    requires
        a.len() == b.len(),
        forall|i: int| 0 <= i < a.len() ==> 0 <= #[trigger] a[i] <= b[i],
    ensures
        0 <= radix_prod(a) <= radix_prod(b),
    decreases a.len(),
{
    if a.len() > 0 {
        let a1 = a.drop_first();
        let b1 = b.drop_first();
        assert forall|i: int| 0 <= i < a1.len() implies 0 <= #[trigger] a1[i] <= b1[i] by {
            assert(a1[i] == a[i + 1] && b1[i] == b[i + 1]);
        }
        lemma_prod_le(a1, b1);
        let pa = radix_prod(a1);
        let pb = radix_prod(b1);
        assert(0 <= a[0] * pa <= b[0] * pb) by (nonlinear_arith)
            requires
                0 <= a[0] <= b[0],
                0 <= pa <= pb,
        ;
    }
}

/// An n-dimensional array stored in chunks.
pub struct NDimChunkArray<const DIM: usize, T> {
    values: NDimArray<NDimIndexerU<DIM>, DIM, NDimArray<NDimIndexerU<DIM>, DIM, T>>,
    lens: [usize; DIM],
    dim_elem_count: usize,
}

impl<const DIM: usize, T> NDimChunkArray<DIM, T> {
    /// The length of each dimension.
    pub closed spec fn lens_view(&self) -> Seq<int> {
        ints_of_usize(self.lens@)
    }

    /// The side length of a full chunk.
    pub closed spec fn dim_elem_count_view(&self) -> int {
        self.dim_elem_count as int
    }

    /// The chunks, in compressed order of their chunk indexes.
    pub closed spec fn chunks_view(&self) -> Seq<NDimArray<NDimIndexerU<DIM>, DIM, T>> {
        self.values.values_view()
    }

    /// The chunk at chunk index `t`.
    pub closed spec fn chunk_at(&self, t: Seq<int>) -> NDimArray<NDimIndexerU<DIM>, DIM, T> {
        self.values.values_view()[radix_value(t, self.values.indexer_view().lens_view())]
    }

    /// Whether every coordinate lies in `0..lens[i]`.
    pub open spec fn in_bounds(&self, a: Seq<int>) -> bool {
        digits_in_range(a, self.lens_view())
    }

    /// The value at an index inside the bounds.
    pub closed spec fn value_at(&self, a: Seq<int>) -> T {
        let d = self.dim_elem_count as int;
        let t = Seq::new(DIM as nat, |i: int| a[i] / d);
        let c = Seq::new(DIM as nat, |i: int| a[i] % d);
        let ch = self.chunk_at(t);
        ch.values_view()[radix_value(c, ch.indexer_view().lens_view())]
    }

    /// The chunk grid has one chunk per chunk index, each cut to fit the edges.
    pub closed spec fn wf(&self) -> bool {
        let d = self.dim_elem_count as int;
        let outer = self.values.indexer_view();
        &&& d > 0
        &&& self.values.wf()
        &&& forall|i: int| 0 <= i < DIM ==> #[trigger] self.lens@[i] <= isize::MAX
        &&& outer.lens_view() == chunk_counts(self.lens_view(), d)
        &&& forall|k: int|
            0 <= k < outer.length_view() ==> {
                let ch = #[trigger] self.values.values_view()[k];
                &&& ch.wf()
                &&& ch.indexer_view().lens_view() == chunk_lens(
                    self.lens_view(),
                    d,
                    radix_digits(k, outer.lens_view()),
                )
            }
    }

    /// Builds the array by calling `func` on every index inside the bounds, chunk by chunk.
    pub fn from_fn<F: Fn(&NDimIndex<DIM>) -> T>(lens: [usize; DIM], dim_elem_count: usize, func: F)
        -> (res: Self)
        requires
            dim_elem_count > 0,
            forall|i: int| 0 <= i < DIM ==> #[trigger] lens@[i] <= isize::MAX,
            forall|k: int|
                0 <= k <= DIM ==> #[trigger] radix_prod(
                    chunk_counts(ints_of_usize(lens@), dim_elem_count as int).take(k),
                ) <= usize::MAX,
            forall|k: int|
                0 <= k <= DIM ==> #[trigger] radix_prod(
                    full_chunk_lens(ints_of_usize(lens@), dim_elem_count as int).take(k),
                ) <= usize::MAX,
            forall|a: NDimIndex<DIM>|
                digits_in_range(ints_of_isize(a@), ints_of_usize(lens@)) ==> call_requires(
                    func,
                    (&a,),
                ),
        ensures
            res.wf(),
            res.lens_view() == ints_of_usize(lens@),
            res.dim_elem_count_view() == dim_elem_count,
            forall|a: NDimIndex<DIM>|
                digits_in_range(ints_of_isize(a@), ints_of_usize(lens@)) ==> call_ensures(
                    func,
                    (&a,),
                    #[trigger] res.value_at(ints_of_isize(a@)),
                ),
    {
        let ghost l = ints_of_usize(lens@);
        let ghost d = dim_elem_count as int;
        let mut counts = [0usize; DIM];
        let mut i: usize = 0;
        while i < DIM
            invariant
                0 <= i <= DIM,
                l == ints_of_usize(lens@),
                d == dim_elem_count,
                dim_elem_count > 0,
                forall|j: int| 0 <= j < DIM ==> #[trigger] lens@[j] <= isize::MAX,
                forall|j: int| 0 <= j < i ==> #[trigger] counts@[j] as int == chunk_count(l[j], d),
            decreases DIM - i,
        {
            let q = lens[i] / dim_elem_count;
            let r = lens[i] % dim_elem_count;
            assert(q <= lens[i as int]) by {
                vstd::arithmetic::div_mod::lemma_div_is_ordered_by_denominator(
                    lens[i as int] as int,
                    1,
                    dim_elem_count as int,
                );
            }
            counts[i] = if r > 0 { q + 1 } else { q };
            i = i + 1;
        }
        assert(ints_of_usize(counts@) =~= chunk_counts(l, d));
        let outer = NDimIndexerU::new_len(counts);
        let n = outer.length();
        proof {
            assert forall|jj: int| 0 <= jj < DIM implies #[trigger] outer.lens_view()[jj]
                <= isize::MAX by {
                assert(lens@[jj] <= isize::MAX);
                vstd::arithmetic::div_mod::lemma_fundamental_div_mod(l[jj], d);
                vstd::arithmetic::div_mod::lemma_mod_pos_bound(l[jj], d);
                vstd::arithmetic::div_mod::lemma_div_pos_is_pos(l[jj], d);
                if l[jj] % d > 0 {
                    assert(l[jj] / d + 1 <= l[jj]) by (nonlinear_arith)
                        requires
                            l[jj] == d * (l[jj] / d) + l[jj] % d,
                            l[jj] % d > 0,
                            d >= 1,
                            l[jj] / d >= 0,
                    ;
                } else {
                    assert(l[jj] / d <= l[jj]) by (nonlinear_arith)
                        requires
                            l[jj] == d * (l[jj] / d) + l[jj] % d,
                            l[jj] % d >= 0,
                            d >= 1,
                            l[jj] / d >= 0,
                    ;
                }
            }
            assert(outer.ndim_wf());
        }
        let mut chunks: Vec<NDimArray<NDimIndexerU<DIM>, DIM, T>> = Vec::new();
        let mut k: usize = 0;
        while k < n
            invariant
                0 <= k <= n,
                l == ints_of_usize(lens@),
                d == dim_elem_count,
                dim_elem_count > 0,
                forall|j: int| 0 <= j < DIM ==> #[trigger] lens@[j] <= isize::MAX,
                forall|kk: int|
                    0 <= kk <= DIM ==> #[trigger] radix_prod(full_chunk_lens(l, d).take(kk))
                        <= usize::MAX,
                forall|a: NDimIndex<DIM>|
                    digits_in_range(ints_of_isize(a@), l) ==> call_requires(func, (&a,)),
                outer.wf(),
                outer.ndim_wf(),
                outer.lens_view() == chunk_counts(l, d),
                n == outer.length_view(),
                chunks@.len() == k,
                forall|kk: int|
                    0 <= kk < k ==> {
                        let ch = #[trigger] chunks@[kk];
                        &&& ch.wf()
                        &&& ch.indexer_view().lens_view() == chunk_lens(
                            l,
                            d,
                            radix_digits(kk, outer.lens_view()),
                        )
                    },
                forall|kk: int, jj: int, full: NDimIndex<DIM>|
                    #![trigger chunks@[kk].values_view()[jj], ints_of_isize(full@)]
                    0 <= kk < k && 0 <= jj < chunks@[kk].values_view().len() && ints_of_isize(
                        full@,
                    ) == merge_index(
                        radix_digits(kk, outer.lens_view()),
                        radix_digits(jj, chunks@[kk].indexer_view().lens_view()),
                        d,
                    ) ==> call_ensures(func, (&full,), chunks@[kk].values_view()[jj]),
            decreases n - k,
        {
            proof {
                outer.lemma_length();
                crate::structures::n_dim_index::lemma_positive_of_positive_prod(outer.lens_view());
                outer.lemma_compressed_roundtrip(k as int);
            }
            let t = outer.decompress_index_u(k);
            let ghost tv = ints_of_usize(t@);
            let mut cl = [0usize; DIM];
            let mut i: usize = 0;
            while i < DIM
                invariant
                    0 <= i <= DIM,
                    l == ints_of_usize(lens@),
                    d == dim_elem_count,
                    dim_elem_count > 0,
                    tv == ints_of_usize(t@),
                    forall|j: int|
                        0 <= j < i ==> #[trigger] cl@[j] as int == chunk_len(l[j], d, tv[j]),
                decreases DIM - i,
            {
                cl[i] = if t[i] == lens[i] / dim_elem_count {
                    lens[i] % dim_elem_count
                } else {
                    dim_elem_count
                };
                i = i + 1;
            }
            let ghost clv = ints_of_usize(cl@);
            proof {
                assert(clv =~= chunk_lens(l, d, tv));
                assert forall|j: int| 0 <= j < DIM implies 0 <= #[trigger] clv[j] <= full_chunk_lens(
                    l,
                    d,
                )[j] by {
                    assert(0 <= tv[j] < chunk_count(l[j], d));
                    lemma_chunk_len_le_full(l[j], d, tv[j]);
                }
                assert forall|kk: int| 0 <= kk <= DIM implies #[trigger] radix_prod(clv.take(kk))
                    <= usize::MAX by {
                    lemma_prod_le(clv.take(kk), full_chunk_lens(l, d).take(kk));
                }
            }
            let inner = NDimIndexerU::new_len(cl);
            let m = inner.length();
            proof {
                assert forall|jj: int| 0 <= jj < DIM implies #[trigger] inner.lens_view()[jj]
                    <= isize::MAX by {
                    assert(clv[jj] <= full_chunk_lens(l, d)[jj]);
                    assert(lens@[jj] <= isize::MAX);
                }
                assert(inner.ndim_wf());
            }
            let mut vals: Vec<T> = Vec::new();
            let mut j: usize = 0;
            while j < m
                invariant
                    0 <= j <= m,
                    l == ints_of_usize(lens@),
                    d == dim_elem_count,
                    dim_elem_count > 0,
                    forall|jj: int| 0 <= jj < DIM ==> #[trigger] lens@[jj] <= isize::MAX,
                    forall|a: NDimIndex<DIM>|
                        digits_in_range(ints_of_isize(a@), l) ==> call_requires(func, (&a,)),
                    tv == ints_of_usize(t@),
                    digits_in_range(tv, chunk_counts(l, d)),
                    inner.wf(),
                    inner.ndim_wf(),
                    inner.lens_view() == chunk_lens(l, d, tv),
                    m == inner.length_view(),
                    vals@.len() == j,
                    forall|jj: int, full: NDimIndex<DIM>|
                        #![trigger vals@[jj], ints_of_isize(full@)]
                        0 <= jj < j && ints_of_isize(full@) == merge_index(
                            tv,
                            radix_digits(jj, inner.lens_view()),
                            d,
                        ) ==> call_ensures(func, (&full,), vals@[jj]),
                decreases m - j,
            {
                proof {
                    inner.lemma_length();
                    crate::structures::n_dim_index::lemma_positive_of_positive_prod(
                        inner.lens_view(),
                    );
                    inner.lemma_compressed_roundtrip(j as int);
                }
                let c = inner.decompress_index_u(j);
                let ghost cv = ints_of_usize(c@);
                let mut full = [0isize; DIM];
                let mut i: usize = 0;
                while i < DIM
                    invariant
                        0 <= i <= DIM,
                        l == ints_of_usize(lens@),
                        d == dim_elem_count,
                        dim_elem_count > 0,
                        forall|jj: int| 0 <= jj < DIM ==> #[trigger] lens@[jj] <= isize::MAX,
                        tv == ints_of_usize(t@),
                        cv == ints_of_usize(c@),
                        digits_in_range(tv, chunk_counts(l, d)),
                        digits_in_range(cv, chunk_lens(l, d, tv)),
                        forall|jj: int|
                            0 <= jj < i ==> #[trigger] full@[jj] as int == tv[jj] * d + cv[jj]
                                && full@[jj] < lens@[jj],
                    decreases DIM - i,
                {
                    proof {
                        let a = tv[i as int] * d + cv[i as int];
                        assert(0 <= tv[i as int] < chunk_count(l[i as int], d));
                        assert(0 <= cv[i as int] < chunk_len(l[i as int], d, tv[i as int]));
                        assert(cv[i as int] < d) by {
                            lemma_chunk_len_le_d(l[i as int], d, tv[i as int]);
                        }
                        vstd::arithmetic::div_mod::lemma_fundamental_div_mod_converse(
                            a,
                            d,
                            tv[i as int],
                            cv[i as int],
                        );
                        assert(a >= 0) by (nonlinear_arith)
                            requires
                                tv[i as int] >= 0,
                                cv[i as int] >= 0,
                                d > 0,
                                a == tv[i as int] * d + cv[i as int],
                        ;
                        lemma_split_coordinate(a, l[i as int], d);
                        assert(t@[i as int] as int == tv[i as int]);
                        assert(c@[i as int] as int == cv[i as int]);
                        assert(t@[i as int] * dim_elem_count == tv[i as int] * d);
                    }
                    full[i] = (t[i] * dim_elem_count + c[i]) as isize;
                    i = i + 1;
                }
                proof {
                    assert(ints_of_isize(full@) =~= merge_index(tv, cv, d));
                    assert(digits_in_range(ints_of_isize(full@), l)) by {
                        assert forall|jj: int| 0 <= jj < DIM implies 0 <= #[trigger] ints_of_isize(
                            full@,
                        )[jj] < l[jj] by {
                            assert(full@[jj] < lens@[jj]);
                            assert(tv[jj] >= 0 && cv[jj] >= 0);
                            assert(tv[jj] * d >= 0) by (nonlinear_arith)
                                requires
                                    tv[jj] >= 0,
                                    d > 0,
                            ;
                        }
                    }
                }
                let v = func(&full);
                vals.push(v);
                proof {
                    assert forall|jj: int, f2: NDimIndex<DIM>|
                        #![trigger vals@[jj], ints_of_isize(f2@)]
                        0 <= jj < j + 1 && ints_of_isize(f2@) == merge_index(
                            tv,
                            radix_digits(jj, inner.lens_view()),
                            d,
                        ) implies call_ensures(func, (&f2,), vals@[jj]) by {
                        if jj == j {
                            crate::structures::n_dim_array::lemma_index_eq(f2, full);
                        }
                    }
                }
                j = j + 1;
            }
            let chunk = NDimArray::new(inner, vals);
            chunks.push(chunk);
            proof {
                assert forall|kk: int|
                    0 <= kk < k + 1 implies {
                        let ch = #[trigger] chunks@[kk];
                        &&& ch.wf()
                        &&& ch.indexer_view().lens_view() == chunk_lens(
                            l,
                            d,
                            radix_digits(kk, outer.lens_view()),
                        )
                    } by {
                    if kk == k {
                        assert(tv == radix_digits(k as int, outer.lens_view()));
                    }
                }
                assert forall|kk: int, jj: int, full: NDimIndex<DIM>|
                    #![trigger chunks@[kk].values_view()[jj], ints_of_isize(full@)]
                    0 <= kk < k + 1 && 0 <= jj < chunks@[kk].values_view().len() && ints_of_isize(
                        full@,
                    ) == merge_index(
                        radix_digits(kk, outer.lens_view()),
                        radix_digits(jj, chunks@[kk].indexer_view().lens_view()),
                        d,
                    ) implies call_ensures(func, (&full,), chunks@[kk].values_view()[jj]) by {
                    if kk == k {
                        assert(tv == radix_digits(k as int, outer.lens_view()));
                        assert(chunks@[kk].values_view() == vals@);
                    }
                }
            }
            k = k + 1;
        }
        let values = NDimArray::new(outer, chunks);
        let res = NDimChunkArray { values, lens, dim_elem_count };
        proof {
            assert forall|a: NDimIndex<DIM>|
                digits_in_range(ints_of_isize(a@), ints_of_usize(lens@)) implies call_ensures(
                func,
                (&a,),
                #[trigger] res.value_at(ints_of_isize(a@)),
            ) by {
                let av = ints_of_isize(a@);
                let tq = Seq::new(DIM as nat, |i: int| av[i] / d);
                let cr = Seq::new(DIM as nat, |i: int| av[i] % d);
                assert forall|i: int| 0 <= i < DIM implies 0 <= #[trigger] tq[i] < chunk_counts(
                    l,
                    d,
                )[i] && 0 <= cr[i] < chunk_lens(l, d, tq)[i] && av[i] == tq[i] * d + cr[i] by {
                    lemma_split_coordinate(av[i], l[i], d);
                }
                assert(digits_in_range(tq, chunk_counts(l, d)));
                outer.lemma_index_roundtrip(tq);
                let kk = radix_value(tq, outer.lens_view());
                let ch = chunks@[kk];
                assert(ch.indexer_view().lens_view() == chunk_lens(l, d, tq));
                assert(digits_in_range(cr, chunk_lens(l, d, tq)));
                ch.indexer_view().lemma_index_roundtrip(cr);
                let jj = radix_value(cr, ch.indexer_view().lens_view());
                assert(merge_index(tq, cr, d) =~= av);
                assert(res.value_at(av) == ch.values_view()[jj]);
            }
        }
        res
    }

    /// The value at an index, or `None` where it lies outside the bounds.
    pub fn get(&self, indexes: &NDimIndex<DIM>) -> (res: Option<&T>)
        requires
            self.wf(),
        ensures
            res.is_some() == self.in_bounds(ints_of_isize(indexes@)),
            res matches Some(v) ==> *v == self.value_at(ints_of_isize(indexes@)),
    {
        let d = self.dim_elem_count;
        let ghost dd = d as int;
        let ghost l = self.lens_view();
        let ghost av = ints_of_isize(indexes@);
        let mut t = [0isize; DIM];
        let mut c = [0isize; DIM];
        let mut i: usize = 0;
        while i < DIM
            invariant
                0 <= i <= DIM,
                self.wf(),
                d == self.dim_elem_count,
                dd == d,
                l == self.lens_view(),
                av == ints_of_isize(indexes@),
                forall|j: int|
                    0 <= j < i ==> 0 <= #[trigger] av[j] && t@[j] as int == av[j] / dd && c@[j]
                        as int == av[j] % dd,
            decreases DIM - i,
        {
            if indexes[i] < 0 {
                proof {
                    assert(av[i as int] == indexes@[i as int] as int);
                    assert(!(0 <= av[i as int]));
                }
                return None;
            }
            let a = indexes[i] as usize;
            proof {
                let q = (a as int) / dd;
                let r = (a as int) % dd;
                vstd::arithmetic::div_mod::lemma_fundamental_div_mod(a as int, dd);
                vstd::arithmetic::div_mod::lemma_div_pos_is_pos(a as int, dd);
                assert(r <= a) by (nonlinear_arith)
                    requires
                        a as int == dd * q + r,
                        q >= 0,
                        dd > 0,
                ;
                vstd::arithmetic::div_mod::lemma_div_is_ordered_by_denominator(a as int, 1, dd);
                vstd::arithmetic::div_mod::lemma_mod_pos_bound(a as int, dd);
                assert(av[i as int] == a as int);
            }
            t[i] = (a / d) as isize;
            c[i] = (a % d) as isize;
            i = i + 1;
        }
        let ghost tq = ints_of_isize(t@);
        let ghost cr = ints_of_isize(c@);
        let ghost outer = self.values.indexer_view();
        proof {
            assert forall|j: int| 0 <= j < DIM implies #[trigger] outer.lens_view()[j] <= isize::MAX by {
                assert(outer.ndim_wf());
            }
            assert forall|j: int|
                0 <= j < DIM implies (0 <= #[trigger] av[j] < l[j]) <==> (0 <= tq[j] < outer.lens_view()[j]
                && 0 <= cr[j] < chunk_lens(l, dd, tq)[j]) by {
                lemma_split_coordinate(av[j], l[j], dd);
            }
        }
        match self.values.get(&t) {
            None => {
                proof {
                    if self.in_bounds(av) {
                        assert forall|j: int| 0 <= j < DIM implies outer.ndim_lens()[j].start
                            <= #[trigger] t@[j] < outer.ndim_lens()[j].end by {
                            assert(0 <= av[j] < l[j]);
                            assert(tq[j] == t@[j] as int);
                        }
                    }
                }
                None
            },
            Some(ch) => {
                proof {
                    outer.lemma_ndim_roundtrip(t@);
                    let k = outer.ndim_compress(t@);
                    assert(radix_digits(k, outer.lens_view()) == tq);
                    assert(*ch == self.values.values_view()[k]);
                    assert(ch.indexer_view().lens_view() == chunk_lens(l, dd, tq));
                    assert(digits_in_range(tq, outer.lens_view())) by {
                        assert forall|j: int| 0 <= j < DIM implies 0 <= #[trigger] tq[j]
                            < outer.lens_view()[j] by {
                            assert(outer.ndim_lens()[j].start <= t@[j] < outer.ndim_lens()[j].end);
                        }
                    }
                    assert(Seq::new(DIM as nat, |j: int| av[j] / dd) =~= tq);
                    assert(Seq::new(DIM as nat, |j: int| av[j] % dd) =~= cr);
                    assert(self.chunk_at(tq) == *ch);
                    let cl = ch.indexer_view().ndim_lens();
                    assert(ranges_contain_iff(c@, cl, cr, chunk_lens(l, dd, tq))) by {
                        assert forall|j: int| 0 <= j < DIM implies #[trigger] cl[j].start == 0
                            && cl[j].end == chunk_lens(l, dd, tq)[j] by {
                            assert(ch.indexer_view().ndim_wf());
                            assert(ch.indexer_view().lens_view()[j] <= isize::MAX);
                        }
                    }
                }
                ch.get(&c)
            },
        }
    }

    /// The value at an index mutably, or `None` where it lies outside the bounds. Whatever it
    /// becomes, afterwards the array holds it at that index and elsewhere what it held before.
    pub fn get_mut(&mut self, indexes: &NDimIndex<DIM>) -> (res: Option<&mut T>)
        requires
            old(self).wf(),
        ensures
            res.is_some() == old(self).in_bounds(ints_of_isize(indexes@)),
            final(self).lens_view() == old(self).lens_view(),
            final(self).dim_elem_count_view() == old(self).dim_elem_count_view(),
            res matches Some(v) ==> {
                &&& *v == old(self).value_at(ints_of_isize(indexes@))
                &&& final(self).wf()
                &&& forall|b: Seq<int>|
                    #[trigger] old(self).in_bounds(b) ==> final(self).value_at(b) == if b
                        == ints_of_isize(indexes@) {
                        *final(v)
                    } else {
                        old(self).value_at(b)
                    }
            },
            res is None ==> final(self).wf() && forall|b: Seq<int>|
                #[trigger] old(self).in_bounds(b) ==> final(self).value_at(b) == old(self).value_at(b),
    {
        let d = self.dim_elem_count;
        let ghost dd = d as int;
        let ghost l = self.lens_view();
        let ghost av = ints_of_isize(indexes@);
        let mut t = [0isize; DIM];
        let mut c = [0isize; DIM];
        let mut i: usize = 0;
        while i < DIM
            invariant
                0 <= i <= DIM,
                self.wf(),
                d == self.dim_elem_count,
                dd == d,
                l == self.lens_view(),
                av == ints_of_isize(indexes@),
                forall|j: int|
                    0 <= j < i ==> 0 <= #[trigger] av[j] && t@[j] as int == av[j] / dd && c@[j]
                        as int == av[j] % dd,
            decreases DIM - i,
        {
            if indexes[i] < 0 {
                proof {
                    assert(av[i as int] == indexes@[i as int] as int);
                    assert(!(0 <= av[i as int]));
                }
                return None;
            }
            let a = indexes[i] as usize;
            proof {
                let q = (a as int) / dd;
                let r = (a as int) % dd;
                vstd::arithmetic::div_mod::lemma_fundamental_div_mod(a as int, dd);
                vstd::arithmetic::div_mod::lemma_div_pos_is_pos(a as int, dd);
                assert(r <= a) by (nonlinear_arith)
                    requires
                        a as int == dd * q + r,
                        q >= 0,
                        dd > 0,
                ;
                vstd::arithmetic::div_mod::lemma_div_is_ordered_by_denominator(a as int, 1, dd);
                vstd::arithmetic::div_mod::lemma_mod_pos_bound(a as int, dd);
                assert(av[i as int] == a as int);
            }
            t[i] = (a / d) as isize;
            c[i] = (a % d) as isize;
            i = i + 1;
        }
        let ghost tq = ints_of_isize(t@);
        let ghost cr = ints_of_isize(c@);
        let ghost outer = self.values.indexer_view();
        let ghost old_chunks = self.values.values_view();
        proof {
            assert forall|j: int| 0 <= j < DIM implies #[trigger] outer.lens_view()[j] <= isize::MAX by {
                assert(outer.ndim_wf());
            }
            assert forall|j: int|
                0 <= j < DIM implies (0 <= #[trigger] av[j] < l[j]) <==> (0 <= tq[j] < outer.lens_view()[j]
                && 0 <= cr[j] < chunk_lens(l, dd, tq)[j]) by {
                lemma_split_coordinate(av[j], l[j], dd);
            }
            assert(Seq::new(DIM as nat, |j: int| av[j] / dd) =~= tq);
            assert(Seq::new(DIM as nat, |j: int| av[j] % dd) =~= cr);
        }
        let ghost selfg = self;
        match self.values.get_mut(&t) {
            None => {
                proof {
                    if old(self).in_bounds(av) {
                        assert forall|j: int| 0 <= j < DIM implies outer.ndim_lens()[j].start
                            <= #[trigger] t@[j] < outer.ndim_lens()[j].end by {
                            assert(0 <= av[j] < l[j]);
                            assert(tq[j] == t@[j] as int);
                        }
                    }
                    assert(final(selfg).values.values_view() == old_chunks);
                    assert(final(selfg).values.indexer_view() == outer);
                }
                None
            },
            Some(ch) => {
                let ghost chg = ch;
                let ghost k = outer.ndim_compress(t@);
                proof {
                    outer.lemma_ndim_roundtrip(t@);
                    assert(radix_digits(k, outer.lens_view()) == tq);
                    assert(*ch == old_chunks[k]);
                    assert(ch.indexer_view().lens_view() == chunk_lens(l, dd, tq));
                    assert(digits_in_range(tq, outer.lens_view())) by {
                        assert forall|j: int| 0 <= j < DIM implies 0 <= #[trigger] tq[j]
                            < outer.lens_view()[j] by {
                            assert(outer.ndim_lens()[j].start <= t@[j] < outer.ndim_lens()[j].end);
                        }
                    }
                    assert(old(self).chunk_at(tq) == *ch);
                    let cl = ch.indexer_view().ndim_lens();
                    assert(ranges_contain_iff(c@, cl, cr, chunk_lens(l, dd, tq))) by {
                        assert forall|j: int| 0 <= j < DIM implies #[trigger] cl[j].start == 0
                            && cl[j].end == chunk_lens(l, dd, tq)[j] by {
                            assert(ch.indexer_view().ndim_wf());
                            assert(ch.indexer_view().lens_view()[j] <= isize::MAX);
                        }
                    }
                }
                let r = ch.get_mut(&c);
                proof {
                    let fch = *final(chg);
                    assert(final(selfg).values.values_view() == old_chunks.update(k, fch));
                    assert(final(selfg).values.indexer_view() == outer);
                    assert(ints_of_isize(c@) == cr);
                    if r is Some {
                        let v = r->0;
                        Self::lemma_chunk_update_facts(*old(self), *final(selfg), av, tq, cr, fch, true, *final(v));
                    } else {
                        Self::lemma_chunk_update_facts(*old(self), *final(selfg), av, tq, cr, fch, false, fch.values_view()[0]);
                    }
                }
                r
            },
        }
    }

    /// Calls `func` on every value mutably with its index, chunk after chunk: each value becomes
    /// what `func` may leave of it when called on it with its index.
    pub fn for_each_mut<F: Fn(&mut T, NDimIndex<DIM>)>(&mut self, func: &F)
        requires
            old(self).wf(),
            forall|v: &mut T, a: NDimIndex<DIM>|
                old(self).in_bounds(ints_of_isize(a@)) ==> call_requires(*func, (v, a)),
        ensures
            final(self).wf(),
            final(self).lens_view() == old(self).lens_view(),
            final(self).dim_elem_count_view() == old(self).dim_elem_count_view(),
            forall|a: NDimIndex<DIM>|
                #[trigger] old(self).in_bounds(ints_of_isize(a@)) ==> exists|v: &mut T|
                    *v == old(self).value_at(ints_of_isize(a@)) && *final(v) == final(self).value_at(
                        ints_of_isize(a@),
                    ) && call_ensures(*func, (v, a), ()),
    {
        let d = self.dim_elem_count;
        let ghost dd = d as int;
        let ghost l = self.lens_view();
        let ghost s0 = *self;
        let outer: NDimIndexerU<DIM> = *self.values.n_dim_index();
        let ghost ol = outer.lens_view();
        let n = outer.length();
        proof {
            assert(outer.ndim_wf());
            outer.lemma_length();
            assert(ol == chunk_counts(l, dd));
            assert forall|a: NDimIndex<DIM>| #[trigger] s0.in_bounds(ints_of_isize(a@)) implies !visited_before(
                l,
                dd,
                ol,
                ints_of_isize(a@),
                0,
                0,
            ) by {
                lemma_chunk_order_facts(l, dd, ints_of_isize(a@));
            }
        }
        let mut k: usize = 0;
        while k < n
            invariant
                0 <= k <= n,
                self.wf(),
                d == self.dim_elem_count,
                dd == d,
                l == self.lens_view(),
                s0 == *old(self),
                self.lens_view() == s0.lens_view(),
                self.dim_elem_count == s0.dim_elem_count,
                self.values.indexer_view().lens_view() == ol,
                ol == outer.lens_view(),
                ol == chunk_counts(l, dd),
                n == outer.length_view(),
                n == radix_prod(ol),
                outer.wf(),
                forall|v: &mut T, a: NDimIndex<DIM>|
                    s0.in_bounds(ints_of_isize(a@)) ==> call_requires(*func, (v, a)),
                forall|a: NDimIndex<DIM>|
                    #[trigger] s0.in_bounds(ints_of_isize(a@)) ==> if visited_before(
                        l,
                        dd,
                        ol,
                        ints_of_isize(a@),
                        k as int,
                        0,
                    ) {
                        exists|v: &mut T|
                            *v == s0.value_at(ints_of_isize(a@)) && *final(v) == self.value_at(
                                ints_of_isize(a@),
                            ) && call_ensures(*func, (v, a), ())
                    } else {
                        self.value_at(ints_of_isize(a@)) == s0.value_at(ints_of_isize(a@))
                    },
            decreases n - k,
        {
            proof {
                crate::structures::n_dim_index::lemma_positive_of_positive_prod(ol);
                outer.lemma_compressed_roundtrip(k as int);
            }
            let t = outer.decompress_index_u(k);
            let ghost tv = ints_of_usize(t@);
            proof {
                self.values.indexer_view().lemma_length();
                assert(self.values.indexer_view().ndim_wf());
            }
            let inner: NDimIndexerU<DIM> = *self.values.values()[k].n_dim_index();
            let m = inner.length();
            proof {
                assert(self.values.values_view()[k as int].wf());
                inner.lemma_length();
                assert(inner.lens_view() == chunk_lens(l, dd, tv));
                lemma_digits_value(k as int, ol);
            }
            let mut j: usize = 0;
            while j < m
                invariant
                    0 <= j <= m,
                    0 <= k < n,
                    self.wf(),
                    d == self.dim_elem_count,
                    dd == d,
                    l == self.lens_view(),
                    s0 == *old(self),
                    self.lens_view() == s0.lens_view(),
                    self.dim_elem_count == s0.dim_elem_count,
                    self.values.indexer_view().lens_view() == ol,
                    ol == outer.lens_view(),
                    ol == chunk_counts(l, dd),
                    n == outer.length_view(),
                    n == radix_prod(ol),
                    tv == ints_of_usize(t@),
                    tv == radix_digits(k as int, ol),
                    radix_value(tv, ol) == k,
                    digits_in_range(tv, ol),
                    inner.wf(),
                    inner.lens_view() == chunk_lens(l, dd, tv),
                    m == inner.length_view(),
                    m == radix_prod(chunk_lens(l, dd, tv)),
                    forall|v: &mut T, a: NDimIndex<DIM>|
                        s0.in_bounds(ints_of_isize(a@)) ==> call_requires(*func, (v, a)),
                    forall|a: NDimIndex<DIM>|
                        #[trigger] s0.in_bounds(ints_of_isize(a@)) ==> if visited_before(
                            l,
                            dd,
                            ol,
                            ints_of_isize(a@),
                            k as int,
                            j as int,
                        ) {
                            exists|v: &mut T|
                                *v == s0.value_at(ints_of_isize(a@)) && *final(v) == self.value_at(
                                    ints_of_isize(a@),
                                ) && call_ensures(*func, (v, a), ())
                        } else {
                            self.value_at(ints_of_isize(a@)) == s0.value_at(ints_of_isize(a@))
                        },
                decreases m - j,
            {
                proof {
                    crate::structures::n_dim_index::lemma_positive_of_positive_prod(
                        inner.lens_view(),
                    );
                    inner.lemma_compressed_roundtrip(j as int);
                    lemma_digits_value(j as int, inner.lens_view());
                }
                let c = inner.decompress_index_u(j);
                let ghost cv = ints_of_usize(c@);
                let mut full = [0isize; DIM];
                let mut i: usize = 0;
                while i < DIM
                    invariant
                        0 <= i <= DIM,
                        self.wf(),
                        l == self.lens_view(),
                        d == self.dim_elem_count,
                        dd == d,
                        tv == ints_of_usize(t@),
                        cv == ints_of_usize(c@),
                        digits_in_range(tv, chunk_counts(l, dd)),
                        digits_in_range(cv, chunk_lens(l, dd, tv)),
                        forall|jj: int|
                            0 <= jj < i ==> 0 <= #[trigger] full@[jj] < l[jj] && full@[jj] as int
                                == tv[jj] * dd + cv[jj],
                    decreases DIM - i,
                {
                    proof {
                        let a = tv[i as int] * dd + cv[i as int];
                        assert(cv[i as int] < dd) by {
                            lemma_chunk_len_le_d(l[i as int], dd, tv[i as int]);
                        }
                        vstd::arithmetic::div_mod::lemma_fundamental_div_mod_converse(
                            a,
                            dd,
                            tv[i as int],
                            cv[i as int],
                        );
                        assert(a >= 0) by (nonlinear_arith)
                            requires
                                tv[i as int] >= 0,
                                cv[i as int] >= 0,
                                dd > 0,
                                a == tv[i as int] * dd + cv[i as int],
                        ;
                        lemma_split_coordinate(a, l[i as int], dd);
                        assert(t@[i as int] * d == tv[i as int] * dd);
                        assert(self.lens@[i as int] <= isize::MAX);
                    }
                    full[i] = (t[i] * d + c[i]) as isize;
                    i = i + 1;
                }
                let ghost fv = ints_of_isize(full@);
                proof {
                    assert(self.in_bounds(fv));
                    lemma_chunk_order_of_parts(l, dd, ol, tv, cv, fv);
                    assert(radix_value(cv, chunk_lens(l, dd, tv)) == j);
                }
                let ghost prev = *self;
                let r = self.get_mut(&full);
                match r {
                    Some(v) => {
                        let ghost vg = v;
                        func(v, full);
                        proof {
                            let cur = *self;
                            assert forall|a: NDimIndex<DIM>|
                                #[trigger] s0.in_bounds(ints_of_isize(a@)) implies if visited_before(
                                    l,
                                    dd,
                                    ol,
                                    ints_of_isize(a@),
                                    k as int,
                                    j + 1,
                                ) {
                                    exists|v: &mut T|
                                        *v == s0.value_at(ints_of_isize(a@)) && *final(v) == cur.value_at(
                                            ints_of_isize(a@),
                                        ) && call_ensures(*func, (v, a), ())
                                } else {
                                    cur.value_at(ints_of_isize(a@)) == s0.value_at(ints_of_isize(a@))
                                } by {
                                let av = ints_of_isize(a@);
                                assert(prev.in_bounds(av));
                                lemma_chunk_order_facts(l, dd, av);
                                if av == fv {
                                    lemma_index_eq(a, full);
                                    assert(!visited_before(l, dd, ol, fv, k as int, j as int));
                                } else {
                                    let o = chunk_order(l, dd, ol, av);
                                    if o.0 == k && o.1 == j {
                                        let tb = Seq::new(av.len(), |ii: int| av[ii] / dd);
                                        let cb = Seq::new(av.len(), |ii: int| av[ii] % dd);
                                        assert(tb == tv);
                                        assert(cb == cv);
                                        assert(av =~= fv);
                                    }
                                }
                            }
                        }
                    },
                    None => {
                        proof {
                            assert(false);
                        }
                    },
                }
                j = j + 1;
            }
            proof {
                assert forall|a: NDimIndex<DIM>| #[trigger] s0.in_bounds(ints_of_isize(a@)) implies visited_before(
                    l,
                    dd,
                    ol,
                    ints_of_isize(a@),
                    k as int,
                    m as int,
                ) == visited_before(l, dd, ol, ints_of_isize(a@), k + 1, 0) by {
                    let av = ints_of_isize(a@);
                    lemma_chunk_order_facts(l, dd, av);
                    let o = chunk_order(l, dd, ol, av);
                    if o.0 == k {
                        let tb = Seq::new(av.len(), |ii: int| av[ii] / dd);
                        assert(tb == tv);
                    }
                }
            }
            k = k + 1;
        }
        proof {
            assert forall|a: NDimIndex<DIM>| #[trigger] s0.in_bounds(ints_of_isize(a@)) implies visited_before(
                l,
                dd,
                ol,
                ints_of_isize(a@),
                n as int,
                0,
            ) by {
                lemma_chunk_order_facts(l, dd, ints_of_isize(a@));
            }
        }
    }

    /// The index made of chunk index `t` and position `c` inside that chunk lies inside the bounds,
    /// and the value there is the chunk's value at `c`.
    proof fn lemma_value_at_parts(self, t: Seq<int>, c: Seq<int>, a: Seq<int>)
        requires
            self.wf(),
            digits_in_range(t, chunk_counts(self.lens_view(), self.dim_elem_count as int)),
            digits_in_range(c, chunk_lens(self.lens_view(), self.dim_elem_count as int, t)),
            a.len() == DIM,
            forall|i: int| 0 <= i < DIM ==> #[trigger] a[i] == t[i] * (self.dim_elem_count as int) + c[i],
        ensures
            self.in_bounds(a),
            self.value_at(a) == self.chunks_view()[radix_value(
                t,
                chunk_counts(self.lens_view(), self.dim_elem_count as int),
            )].values_view()[radix_value(c, chunk_lens(self.lens_view(), self.dim_elem_count as int, t))],
    {
        let d = self.dim_elem_count as int;
        let l = self.lens_view();
        let ol = self.values.indexer_view().lens_view();
        assert forall|i: int| 0 <= i < DIM implies 0 <= #[trigger] a[i] < l[i] && a[i] / d == t[i]
            && a[i] % d == c[i] by {
            lemma_chunk_len_le_d(l[i], d, t[i]);
            assert(0 <= c[i] < chunk_lens(l, d, t)[i]);
            vstd::arithmetic::div_mod::lemma_fundamental_div_mod_converse(a[i], d, t[i], c[i]);
            assert(a[i] >= 0) by (nonlinear_arith)
                requires
                    t[i] >= 0,
                    c[i] >= 0,
                    d > 0,
                    a[i] == t[i] * d + c[i],
            ;
            lemma_split_coordinate(a[i], l[i], d);
        }
        assert(self.in_bounds(a));
        lemma_chunk_order_of_parts(l, d, ol, t, c, a);
        let ta = Seq::new(DIM as nat, |i: int| a[i] / d);
        let ca = Seq::new(DIM as nat, |i: int| a[i] % d);
        assert(ta =~= Seq::new(a.len(), |i: int| a[i] / d));
        assert(ca =~= Seq::new(a.len(), |i: int| a[i] % d));
        assert(ta =~= t);
        assert(ca =~= c);
        let k = radix_value(t, ol);
        lemma_value_bound(t, ol);
        self.values.indexer_view().lemma_length();
        assert(self.values.indexer_view().ndim_wf());
        lemma_value_digits(t, ol);
        assert(self.values.values_view()[k].indexer_view().lens_view() == chunk_lens(l, d, t));
    }

    /// Calls `func` on every pair of neighbouring values, the value at an index and the value one
    /// step up along a dimension, with that dimension: the calls of [pair_calls], first the pairs
    /// inside each chunk, chunk after chunk, then the pairs across the faces of neighbouring
    /// chunks. Once it returns, `func` has been called on each of them.
    pub fn iter_pair<F: Fn(&T, &T, usize)>(&self, func: &F)
        requires
            self.wf(),
            forall|a: Seq<int>, dim: int|
                0 <= dim < DIM && self.in_bounds(a) && self.in_bounds(#[trigger] step_up_int(a, dim))
                    ==> call_requires(
                    *func,
                    (&self.value_at(a), &self.value_at(step_up_int(a, dim)), dim as usize),
                ),
    ensures
        forall|x: int|
            0 <= x < pair_calls(
                self.chunks_view(),
                chunk_counts(self.lens_view(), self.dim_elem_count_view()),
            ).len() ==> called_on(
                *func,
                self.chunks_view(),
                #[trigger] pair_calls(
                    self.chunks_view(),
                    chunk_counts(self.lens_view(), self.dim_elem_count_view()),
                )[x],
            ),
        forall|a: Seq<int>, dim: int|
            0 <= dim < DIM && self.in_bounds(a) && self.in_bounds(#[trigger] step_up_int(a, dim))
                ==> call_ensures(
                *func,
                (&self.value_at(a), &self.value_at(step_up_int(a, dim)), dim as usize),
                (),
            ),
    {
        let ghost cs = self.chunks_view();
        let ghost mut calls: Seq<(int, int, int, int, int)> = Seq::empty();
        proof {
            assert(Seq::new(0, inner_calls_in_fn(cs)) =~= Seq::<Seq<(int, int, int, int, int)>>::empty());
        }
        let d = self.dim_elem_count;
        let ghost dd = d as int;
        let ghost l = self.lens_view();
        let outer = self.values.n_dim_index();
        let ghost ol = outer.lens_view();
        let n = outer.length();
        let counts = outer.lens();
        let chunks = self.values.values();
        proof {
            assert(outer.ndim_wf());
            outer.lemma_length();
        }
        let mut k: usize = 0;
        while k < n
            invariant
                0 <= k <= n,
                self.wf(),
                d == self.dim_elem_count,
                dd == d,
                l == self.lens_view(),
                *outer == self.values.indexer_view(),
                ol == outer.lens_view(),
                ol == chunk_counts(l, dd),
                outer.wf(),
                chunks@ == self.chunks_view(),
                n == outer.length_view(),
                n == radix_prod(ol),
                forall|a: Seq<int>, dim: int|
                    0 <= dim < DIM && self.in_bounds(a) && self.in_bounds(#[trigger] step_up_int(a, dim))
                        ==> call_requires(
                        *func,
                        (&self.value_at(a), &self.value_at(step_up_int(a, dim)), dim as usize),
                    ),
                forall|x: int| 0 <= x < calls.len() ==> called_on(*func, cs, #[trigger] calls[x]),
                cs == self.chunks_view(),
                calls == Seq::new(k as nat, inner_calls_in_fn(cs)).flatten(),
            decreases n - k,
        {
            proof {
                crate::structures::n_dim_index::lemma_positive_of_positive_prod(ol);
                outer.lemma_compressed_roundtrip(k as int);
                lemma_digits_value(k as int, ol);
            }
            let t = outer.decompress_index_u(k);
            let ghost tv = ints_of_usize(t@);
            let ch = &chunks[k];
            let inner = ch.n_dim_index();
            let vals = ch.values();
            let m = inner.length();
            let ilens = inner.lens();
            proof {
                assert(ch.wf());
                inner.lemma_length();
                assert(inner.lens_view() == chunk_lens(l, dd, tv));
            }
            let mut j: usize = 0;
            while j < m
                invariant
                    0 <= j <= m,
                    0 <= k < n,
                    self.wf(),
                    d == self.dim_elem_count,
                    dd == d,
                    l == self.lens_view(),
                    ol == chunk_counts(l, dd),
                    tv == ints_of_usize(t@),
                    radix_value(tv, ol) == k,
                    digits_in_range(tv, ol),
                    *ch == self.chunks_view()[k as int],
                    *inner == ch.indexer_view(),
                    vals@ == ch.values_view(),
                    inner.wf(),
                    inner.lens_view() == chunk_lens(l, dd, tv),
                    ints_of_usize(ilens@) == inner.lens_view(),
                    m == inner.length_view(),
                    m == radix_prod(inner.lens_view()),
                    vals@.len() == m,
                    forall|a: Seq<int>, dim: int|
                        0 <= dim < DIM && self.in_bounds(a) && self.in_bounds(
                            #[trigger] step_up_int(a, dim),
                        ) ==> call_requires(
                            *func,
                            (&self.value_at(a), &self.value_at(step_up_int(a, dim)), dim as usize),
                        ),
                    forall|x: int| 0 <= x < calls.len() ==> called_on(*func, cs, #[trigger] calls[x]),
                    cs == self.chunks_view(),
                    calls == Seq::new(k as nat, inner_calls_in_fn(cs)).flatten() + Seq::new(j as nat, inner_calls_at_fn(cs, k as int)).flatten(),
                decreases m - j,
            {
                proof {
                    crate::structures::n_dim_index::lemma_positive_of_positive_prod(
                        inner.lens_view(),
                    );
                    inner.lemma_compressed_roundtrip(j as int);
                    lemma_digits_value(j as int, inner.lens_view());
                }
                let c = inner.decompress_index_u(j);
                let ghost cv = ints_of_usize(c@);
                let mut dim: usize = 0;
                while dim < DIM
                    invariant
                        0 <= dim <= DIM,
                        0 <= k < n,
                        0 <= j < m,
                        self.wf(),
                        d == self.dim_elem_count,
                        dd == d,
                        l == self.lens_view(),
                        ol == chunk_counts(l, dd),
                        tv == ints_of_usize(t@),
                        radix_value(tv, ol) == k,
                        digits_in_range(tv, ol),
                        cv == ints_of_usize(c@),
                        digits_in_range(cv, inner.lens_view()),
                        radix_value(cv, inner.lens_view()) == j,
                        *ch == self.chunks_view()[k as int],
                        *inner == ch.indexer_view(),
                        vals@ == ch.values_view(),
                        inner.wf(),
                        inner.lens_view() == chunk_lens(l, dd, tv),
                        ints_of_usize(ilens@) == inner.lens_view(),
                        m == inner.length_view(),
                        m == radix_prod(inner.lens_view()),
                        vals@.len() == m,
                        forall|a: Seq<int>, dim: int|
                            0 <= dim < DIM && self.in_bounds(a) && self.in_bounds(
                                #[trigger] step_up_int(a, dim),
                            ) ==> call_requires(
                                *func,
                                (&self.value_at(a), &self.value_at(step_up_int(a, dim)), dim as usize),
                            ),
                        forall|x: int| 0 <= x < calls.len() ==> called_on(*func, cs, #[trigger] calls[x]),
                        cs == self.chunks_view(),
                        calls == Seq::new(k as nat, inner_calls_in_fn(cs)).flatten() + Seq::new(j as nat, inner_calls_at_fn(cs, k as int)).flatten() + Seq::new(dim as nat, inner_call_fn(cs, k as int, j as int)).flatten(),
                    decreases DIM - dim,
                {
                    assert(ilens@[dim as int] as int == inner.lens_view()[dim as int]);
                    assert(cv[dim as int] < inner.lens_view()[dim as int]);
                    if c[dim] + 1 < ilens[dim] {
                        let mut c2 = c;
                        c2[dim] = c[dim] + 1;
                        let ghost cv2 = ints_of_usize(c2@);
                        proof {
                            assert(cv2 =~= cv.update(dim as int, cv[dim as int] + 1));
                            assert(digits_in_range(cv2, inner.lens_view()));
                            lemma_value_bound(cv2, inner.lens_view());
                        }
                        let j2 = inner.compress_index_u(c2);
                        proof {
                            let a = Seq::new(DIM as nat, |i: int| tv[i] * dd + cv[i]);
                            let a2 = Seq::new(DIM as nat, |i: int| tv[i] * dd + cv2[i]);
                            self.lemma_value_at_parts(tv, cv, a);
                            self.lemma_value_at_parts(tv, cv2, a2);
                            assert(a2 =~= step_up_int(a, dim as int));
                            assert(self.value_at(a) == vals@[j as int]);
                            assert(self.value_at(a2) == vals@[j2 as int]);
                        }
                        func(&vals[j], &vals[j2], dim);
                        proof {
                            let cl = (k as int, j as int, k as int, j2 as int, dim as int);
                            lemma_value_digits(cv, inner.lens_view());
                            crate::structures::n_dim_index_operator::lemma_value_update(
                                cv,
                                inner.lens_view(),
                                dim as int,
                                cv[dim as int] + 1,
                            );
                            let pp = radix_prod(inner.lens_view().take(dim as int));
                            assert(pp * (cv[dim as int] + 1 - cv[dim as int]) == pp) by (nonlinear_arith);
                            assert(j2 == j + pp);
                            lemma_flatten_new_step(dim as nat, inner_call_fn(cs, k as int, j as int));
                            assert(inner_call(cs, k as int, j as int, dim as int) == seq![cl]);
                            calls = calls.push(cl);
                        }
                    } else {
                        proof {
                            lemma_value_digits(cv, inner.lens_view());
                            lemma_flatten_new_step(dim as nat, inner_call_fn(cs, k as int, j as int));
                            assert(inner_call(cs, k as int, j as int, dim as int) =~= Seq::empty());
                        }
                    }
                    dim = dim + 1;
                }
                proof {
                    lemma_flatten_new_step(j as nat, inner_calls_at_fn(cs, k as int));
                    assert(inner_calls_at(cs, k as int, j as int) == Seq::new(
                        DIM as nat,
                        inner_call_fn(cs, k as int, j as int),
                    ).flatten());
                }
                j = j + 1;
            }
            proof {
                lemma_flatten_new_step(k as nat, inner_calls_in_fn(cs));
                assert(inner_calls_in(cs, k as int) == Seq::new(m as nat, inner_calls_at_fn(cs, k as int)).flatten());
            }
            k = k + 1;
        }
        proof {
            assert(Seq::new(0, cross_calls_at_fn(cs, ol)) =~= Seq::<Seq<(int, int, int, int, int)>>::empty());
        }
        let mut ka: usize = 0;
        while ka < n
            invariant
                0 <= ka <= n,
                self.wf(),
                d == self.dim_elem_count,
                dd == d,
                l == self.lens_view(),
                *outer == self.values.indexer_view(),
                ol == outer.lens_view(),
                ol == chunk_counts(l, dd),
                ints_of_usize(counts@) == ol,
                outer.wf(),
                chunks@ == self.chunks_view(),
                n == outer.length_view(),
                n == radix_prod(ol),
                forall|a: Seq<int>, dim: int|
                    0 <= dim < DIM && self.in_bounds(a) && self.in_bounds(#[trigger] step_up_int(a, dim))
                        ==> call_requires(
                        *func,
                        (&self.value_at(a), &self.value_at(step_up_int(a, dim)), dim as usize),
                    ),
                forall|x: int| 0 <= x < calls.len() ==> called_on(*func, cs, #[trigger] calls[x]),
                cs == self.chunks_view(),
                calls == Seq::new(n as nat, inner_calls_in_fn(cs)).flatten() + Seq::new(ka as nat, cross_calls_at_fn(cs, ol)).flatten(),
            decreases n - ka,
        {
            proof {
                crate::structures::n_dim_index::lemma_positive_of_positive_prod(ol);
                outer.lemma_compressed_roundtrip(ka as int);
                lemma_digits_value(ka as int, ol);
            }
            let ta = outer.decompress_index_u(ka);
            let ghost tav = ints_of_usize(ta@);
            let mut dim: usize = 0;
            while dim < DIM
                invariant
                    0 <= dim <= DIM,
                    0 <= ka < n,
                    self.wf(),
                    d == self.dim_elem_count,
                    dd == d,
                    l == self.lens_view(),
                    *outer == self.values.indexer_view(),
                    ol == outer.lens_view(),
                    ol == chunk_counts(l, dd),
                    ints_of_usize(counts@) == ol,
                    outer.wf(),
                    chunks@ == self.chunks_view(),
                    n == outer.length_view(),
                    n == radix_prod(ol),
                    tav == ints_of_usize(ta@),
                    digits_in_range(tav, ol),
                    radix_value(tav, ol) == ka,
                    forall|a: Seq<int>, dim: int|
                        0 <= dim < DIM && self.in_bounds(a) && self.in_bounds(
                            #[trigger] step_up_int(a, dim),
                        ) ==> call_requires(
                            *func,
                            (&self.value_at(a), &self.value_at(step_up_int(a, dim)), dim as usize),
                        ),
                    forall|x: int| 0 <= x < calls.len() ==> called_on(*func, cs, #[trigger] calls[x]),
                    cs == self.chunks_view(),
                    calls == Seq::new(n as nat, inner_calls_in_fn(cs)).flatten() + Seq::new(ka as nat, cross_calls_at_fn(cs, ol)).flatten() + Seq::new(dim as nat, cross_calls_dim_fn(cs, ol, ka as int)).flatten(),
                decreases DIM - dim,
            {
                assert(counts@[dim as int] as int == ol[dim as int]);
                assert(tav[dim as int] < ol[dim as int]);
                if ta[dim] + 1 < counts[dim] {
                    let mut tb = ta;
                    tb[dim] = ta[dim] + 1;
                    let ghost tbv = ints_of_usize(tb@);
                    proof {
                        assert(tbv =~= tav.update(dim as int, tav[dim as int] + 1));
                        assert(digits_in_range(tbv, ol));
                        lemma_value_bound(tbv, ol);
                    }
                    let kb = outer.compress_index_u(tb);
                    proof {
                        lemma_value_bound(tav, ol);
                        lemma_value_digits(tav, ol);
                        lemma_value_digits(tbv, ol);
                    }
                    let cha = &chunks[ka];
                    let chb = &chunks[kb];
                    let ia = cha.n_dim_index();
                    let ib = chb.n_dim_index();
                    let va = cha.values();
                    let vb = chb.values();
                    let mb = ib.length();
                    let la = ia.length();
                    proof {
                        assert(cha.wf());
                        assert(chb.wf());
                        ia.lemma_length();
                        ib.lemma_length();
                        assert(ia.lens_view() == chunk_lens(l, dd, tav));
                        assert(ib.lens_view() == chunk_lens(l, dd, tbv));
                        assert(tav[dim as int] != l[dim as int] / dd) by {
                            vstd::arithmetic::div_mod::lemma_div_pos_is_pos(l[dim as int], dd);
                        }
                        assert(chunk_lens(l, dd, tav)[dim as int] == dd);
                    }
                    let mut j: usize = 0;
                    while j < mb
                        invariant
                            0 <= j <= mb,
                            0 <= ka < n,
                            0 <= dim < DIM,
                            self.wf(),
                            d == self.dim_elem_count,
                            dd == d,
                            d > 0,
                            l == self.lens_view(),
                            ol == chunk_counts(l, dd),
                            tav == ints_of_usize(ta@),
                            tbv == tav.update(dim as int, tav[dim as int] + 1),
                            digits_in_range(tav, ol),
                            digits_in_range(tbv, ol),
                            radix_value(tav, ol) == ka,
                            radix_value(tbv, ol) == kb,
                            *cha == self.chunks_view()[ka as int],
                            *chb == self.chunks_view()[kb as int],
                            *ia == cha.indexer_view(),
                            *ib == chb.indexer_view(),
                            va@ == cha.values_view(),
                            vb@ == chb.values_view(),
                            ia.wf(),
                            ib.wf(),
                            ia.lens_view() == chunk_lens(l, dd, tav),
                            ib.lens_view() == chunk_lens(l, dd, tbv),
                            chunk_lens(l, dd, tav)[dim as int] == dd,
                            la == ia.length_view(),
                            mb == ib.length_view(),
                            mb == radix_prod(ib.lens_view()),
                            ia.length_view() == radix_prod(ia.lens_view()),
                            va@.len() == ia.length_view(),
                            vb@.len() == mb,
                            forall|a: Seq<int>, dim: int|
                                0 <= dim < DIM && self.in_bounds(a) && self.in_bounds(
                                    #[trigger] step_up_int(a, dim),
                                ) ==> call_requires(
                                    *func,
                                    (&self.value_at(a), &self.value_at(step_up_int(a, dim)), dim as usize),
                                ),
                            forall|x: int| 0 <= x < calls.len() ==> called_on(*func, cs, #[trigger] calls[x]),
                            cs == self.chunks_view(),
                            calls == Seq::new(n as nat, inner_calls_in_fn(cs)).flatten() + Seq::new(ka as nat, cross_calls_at_fn(cs, ol)).flatten() + Seq::new(dim as nat, cross_calls_dim_fn(cs, ol, ka as int)).flatten() + Seq::new(j as nat, cross_call_fn(cs, ka as int, kb as int, dim as int)).flatten(),
                        decreases mb - j,
                    {
                        proof {
                            crate::structures::n_dim_index::lemma_positive_of_positive_prod(
                                ib.lens_view(),
                            );
                            ib.lemma_compressed_roundtrip(j as int);
                            lemma_digits_value(j as int, ib.lens_view());
                        }
                        let cb = ib.decompress_index_u(j);
                        if cb[dim] == 0 {
                            let ghost cbv = ints_of_usize(cb@);
                            let mut ca = cb;
                            ca[dim] = d - 1;
                            let ghost cav = ints_of_usize(ca@);
                            proof {
                                assert(cav =~= cbv.update(dim as int, dd - 1));
                                assert forall|i: int| 0 <= i < DIM implies 0 <= #[trigger] cav[i]
                                    < ia.lens_view()[i] by {
                                    if i != dim {
                                        assert(tav[i] == tbv[i]);
                                        assert(cbv[i] < ib.lens_view()[i]);
                                    }
                                }
                                assert(digits_in_range(cav, ia.lens_view()));
                                lemma_value_bound(cav, ia.lens_view());
                            }
                            let ja = ia.compress_index_u(ca);
                            proof {
                                let a = Seq::new(DIM as nat, |i: int| tav[i] * dd + cav[i]);
                                let b = Seq::new(DIM as nat, |i: int| tbv[i] * dd + cbv[i]);
                                self.lemma_value_at_parts(tav, cav, a);
                                self.lemma_value_at_parts(tbv, cbv, b);
                                assert forall|i: int| 0 <= i < DIM implies #[trigger] b[i]
                                    == step_up_int(a, dim as int)[i] by {
                                    if i == dim {
                                        assert(tbv[i] * dd + 0 == (tav[i] + 1) * dd) by (
                                            nonlinear_arith)
                                            requires
                                                tbv[i] == tav[i] + 1,
                                        ;
                                        assert((tav[i] + 1) * dd == tav[i] * dd + (dd - 1) + 1)
                                            by (nonlinear_arith);
                                    }
                                }
                                assert(b =~= step_up_int(a, dim as int));
                                assert(self.value_at(a) == va@[ja as int]);
                                assert(self.value_at(b) == vb@[j as int]);
                            }
                            func(&va[ja], &vb[j], dim);
                            proof {
                                let cl = (ka as int, ja as int, kb as int, j as int, dim as int);
                                lemma_flatten_new_step(
                                    j as nat,
                                    cross_call_fn(cs, ka as int, kb as int, dim as int),
                                );
                                assert(cross_call(cs, ka as int, kb as int, dim as int, j as int) == seq![cl]);
                                calls = calls.push(cl);
                            }
                        } else {
                            proof {
                                lemma_flatten_new_step(
                                    j as nat,
                                    cross_call_fn(cs, ka as int, kb as int, dim as int),
                                );
                                assert(cross_call(cs, ka as int, kb as int, dim as int, j as int)
                                    =~= Seq::empty());
                            }
                        }
                        j = j + 1;
                    }
                    proof {
                        lemma_flatten_new_step(dim as nat, cross_calls_dim_fn(cs, ol, ka as int));
                        assert(tbv == radix_digits(ka as int, ol).update(dim as int, radix_digits(ka as int, ol)[dim as int] + 1));
                        assert(cross_calls_dim(cs, ol, ka as int, dim as int) == Seq::new(
                            mb as nat,
                            cross_call_fn(cs, ka as int, kb as int, dim as int),
                        ).flatten());
                    }
                } else {
                    proof {
                        lemma_value_digits(tav, ol);
                        lemma_flatten_new_step(dim as nat, cross_calls_dim_fn(cs, ol, ka as int));
                        assert(cross_calls_dim(cs, ol, ka as int, dim as int) =~= Seq::empty());
                    }
                }
                dim = dim + 1;
            }
            proof {
                lemma_flatten_new_step(ka as nat, cross_calls_at_fn(cs, ol));
            }
            ka = ka + 1;
        }
        proof {
            assert(calls == pair_calls(cs, ol));
            self.lemma_called_on_neighbours(*func);
        }
    }

    /// Calls `func` on every pair of neighbouring values in both orders, as [Self::iter_pair]
    /// visits them: first the value at an index with the value one step up and the positive
    /// direction of the dimension, then the two the other way round with the negative direction.
    pub fn iter_pair_2_side<F: Fn(&T, &T, DimDir)>(&self, func: &F)
        requires
            self.wf(),
            forall|a: Seq<int>, dim: int|
                0 <= dim < DIM && self.in_bounds(a) && self.in_bounds(#[trigger] step_up_int(a, dim))
                    ==> {
                    &&& call_requires(
                        *func,
                        (
                            &self.value_at(a),
                            &self.value_at(step_up_int(a, dim)),
                            DimDir { dim: dim as usize, dir_positive: true },
                        ),
                    )
                    &&& call_requires(
                        *func,
                        (
                            &self.value_at(step_up_int(a, dim)),
                            &self.value_at(a),
                            DimDir { dim: dim as usize, dir_positive: false },
                        ),
                    )
                },
        ensures
            forall|a: Seq<int>, dim: int|
                0 <= dim < DIM && self.in_bounds(a) && self.in_bounds(#[trigger] step_up_int(a, dim))
                    ==> {
                    &&& call_ensures(
                        *func,
                        (
                            &self.value_at(a),
                            &self.value_at(step_up_int(a, dim)),
                            DimDir { dim: dim as usize, dir_positive: true },
                        ),
                        (),
                    )
                    &&& call_ensures(
                        *func,
                        (
                            &self.value_at(step_up_int(a, dim)),
                            &self.value_at(a),
                            DimDir { dim: dim as usize, dir_positive: false },
                        ),
                        (),
                    )
                },
    {
        let both = |a: &T, b: &T, dim: usize|
            requires
                call_requires(func, (a, b, DimDir { dim, dir_positive: true })),
                call_requires(func, (b, a, DimDir { dim, dir_positive: false })),
            ensures
                call_ensures(func, (a, b, DimDir { dim, dir_positive: true }), ()),
                call_ensures(func, (b, a, DimDir { dim, dir_positive: false }), ()),
            {
                func(a, b, DimDir { dim, dir_positive: true });
                func(b, a, DimDir { dim, dir_positive: false });
            };
        self.iter_pair(&both);
    }

    /// Hands `func` the value at position `ja` of chunk `ka` and the value at position `jb` of
    /// chunk `kb`, both mutably, with `dim`; the shape of every chunk stays as it was.
    fn call_on_pair_mut<F: Fn(&mut T, &mut T, usize)>(
        &mut self,
        ka: usize,
        ja: usize,
        kb: usize,
        jb: usize,
        dim: usize,
        func: &F,
    )
        requires
            old(self).wf(),
            ka <= kb < old(self).chunks_view().len(),
            ja < old(self).chunks_view()[ka as int].values_view().len(),
            jb < old(self).chunks_view()[kb as int].values_view().len(),
            ka == kb ==> ja < jb,
            forall|a: &mut T, b: &mut T| call_requires(*func, (a, b, dim)),
        ensures
            final(self).lens == old(self).lens,
            final(self).dim_elem_count == old(self).dim_elem_count,
            final(self).values.indexer_view() == old(self).values.indexer_view(),
            final(self).chunks_view().len() == old(self).chunks_view().len(),
            forall|k: int|
                0 <= k < old(self).chunks_view().len() ==> {
                    &&& (#[trigger] final(self).chunks_view()[k]).indexer_view() == old(
                        self,
                    ).chunks_view()[k].indexer_view()
                    &&& final(self).chunks_view()[k].values_view().len() == old(
                        self,
                    ).chunks_view()[k].values_view().len()
                },
            exists|a: &mut T, b: &mut T|
                #![trigger call_ensures(*func, (a, b, dim), ())]
                pair_call_result(
                    old(self).chunks_view(),
                    final(self).chunks_view(),
                    ka as int,
                    ja as int,
                    kb as int,
                    jb as int,
                    *a,
                    *final(a),
                    *b,
                    *final(b),
                ) && call_ensures(*func, (a, b, dim), ()),
    {
        let ghost old_chunks = self.chunks_view();
        if ka == kb {
            let ch = self.values.get_mut_with_compressed(ka).unwrap();
            let v = ch.values_mut();
            let sl = v.as_mut_slice();
            let (lo, hi) = sl.split_at_mut(jb);
            let (_l0, mid) = lo.split_at_mut(ja);
            let a = mid.first_mut().unwrap();
            let b = hi.first_mut().unwrap();
            let ghost ag = a;
            let ghost bg = b;
            func(a, b, dim);
            proof {
                assert(self.chunks_view()[ka as int].values_view() =~= old_chunks[ka as int].values_view().update(
                    ja as int,
                    *final(ag),
                ).update(jb as int, *final(bg)));
                assert(pair_call_result(
                    old_chunks,
                    self.chunks_view(),
                    ka as int,
                    ja as int,
                    kb as int,
                    jb as int,
                    *ag,
                    *final(ag),
                    *bg,
                    *final(bg),
                ));
            }
        } else {
            let vs = self.values.values_mut();
            let sl = vs.as_mut_slice();
            let (lo, hi) = sl.split_at_mut(kb);
            let (_l0, mid) = lo.split_at_mut(ka);
            let cha = mid.first_mut().unwrap();
            let chb = hi.first_mut().unwrap();
            let va = cha.values_mut();
            let vb = chb.values_mut();
            let a = &mut va[ja];
            let b = &mut vb[jb];
            let ghost ag = a;
            let ghost bg = b;
            func(a, b, dim);
            proof {
                assert(pair_call_result(
                    old_chunks,
                    self.chunks_view(),
                    ka as int,
                    ja as int,
                    kb as int,
                    jb as int,
                    *ag,
                    *final(ag),
                    *bg,
                    *final(bg),
                ));
            }
        }
    }

    /// An array with the same lengths, chunk grid and chunk shapes as a well formed one is well
    /// formed.
    proof fn lemma_same_shape_wf(s0: Self, s1: Self)
        requires
            s0.wf(),
            s1.lens == s0.lens,
            s1.dim_elem_count == s0.dim_elem_count,
            s1.values.indexer_view() == s0.values.indexer_view(),
            s1.chunks_view().len() == s0.chunks_view().len(),
            forall|k: int|
                0 <= k < s0.chunks_view().len() ==> {
                    &&& (#[trigger] s1.chunks_view()[k]).indexer_view()
                        == s0.chunks_view()[k].indexer_view()
                    &&& s1.chunks_view()[k].values_view().len()
                        == s0.chunks_view()[k].values_view().len()
                },
        ensures
            s1.wf(),
    {
        assert forall|k: int| 0 <= k < s1.values.indexer_view().length_view() implies {
            let ch = #[trigger] s1.values.values_view()[k];
            &&& ch.wf()
            &&& ch.indexer_view().lens_view() == chunk_lens(
                s1.lens_view(),
                s1.dim_elem_count as int,
                radix_digits(k, s1.values.indexer_view().lens_view()),
            )
        } by {
            assert(s0.values.values_view()[k].wf());
        }
    }

    /// A trace of calls extended by one more call that takes its last state to `next`.
    proof fn lemma_trace_push<F: Fn(&mut T, &mut T, usize)>(
        func: F,
        states: Seq<Seq<NDimArray<NDimIndexerU<DIM>, DIM, T>>>,
        calls: Seq<(int, int, int, int, int)>,
        next: Seq<NDimArray<NDimIndexerU<DIM>, DIM, T>>,
        call: (int, int, int, int, int),
    )
        requires
            states.len() == calls.len() + 1,
            call.4 < DIM,
            forall|i: int|
                0 <= i < calls.len() ==> #[trigger] calls[i].4 < DIM && exists|a: &mut T, b: &mut T|
                    pair_call_result(
                        states[i],
                        states[i + 1],
                        calls[i].0,
                        calls[i].1,
                        calls[i].2,
                        calls[i].3,
                        *a,
                        *final(a),
                        *b,
                        *final(b),
                    ) && call_ensures(func, (a, b, calls[i].4 as usize), ()),
            exists|a: &mut T, b: &mut T|
                pair_call_result(
                    states.last(),
                    next,
                    call.0,
                    call.1,
                    call.2,
                    call.3,
                    *a,
                    *final(a),
                    *b,
                    *final(b),
                ) && call_ensures(func, (a, b, call.4 as usize), ()),
        ensures
            forall|i: int|
                0 <= i < calls.len() + 1 ==> #[trigger] calls.push(call)[i].4 < DIM && exists|a: &mut T, b: &mut T|
                    pair_call_result(
                        states.push(next)[i],
                        states.push(next)[i + 1],
                        calls.push(call)[i].0,
                        calls.push(call)[i].1,
                        calls.push(call)[i].2,
                        calls.push(call)[i].3,
                        *a,
                        *final(a),
                        *b,
                        *final(b),
                    ) && call_ensures(func, (a, b, calls.push(call)[i].4 as usize), ()),
    {
        let s1 = states.push(next);
        let c1 = calls.push(call);
        assert forall|i: int| 0 <= i < calls.len() + 1 implies #[trigger] c1[i].4 < DIM && exists|a: &mut T, b: &mut T|
            pair_call_result(
                s1[i],
                s1[i + 1],
                c1[i].0,
                c1[i].1,
                c1[i].2,
                c1[i].3,
                *a,
                *final(a),
                *b,
                *final(b),
            ) && call_ensures(func, (a, b, c1[i].4 as usize), ()) by {
            if i < calls.len() {
                assert(c1[i] == calls[i]);
                assert(s1[i] == states[i]);
                assert(s1[i + 1] == states[i + 1]);
            } else {
                assert(c1[i] == call);
                assert(s1[i] == states.last());
                assert(s1[i + 1] == next);
            }
        }
    }

    /// Calls `func` on every pair of neighbouring values, both mutably, the value at an index and
    /// the value one step up along a dimension, with that dimension, in the order of
    /// [Self::iter_pair]: the calls of [pair_calls]. The chunks go through one state per call,
    /// each the one before with the two values the call was handed set to what the call left in
    /// them; the lengths and the chunk shapes stay.
    pub fn iter_pair_mut<F: Fn(&mut T, &mut T, usize)>(&mut self, func: &F)
        requires
            old(self).wf(),
            forall|a: &mut T, b: &mut T, dim: usize| dim < DIM ==> call_requires(*func, (a, b, dim)),
        ensures
            final(self).wf(),
            final(self).lens_view() == old(self).lens_view(),
            final(self).dim_elem_count_view() == old(self).dim_elem_count_view(),
            exists|states: Seq<Seq<NDimArray<NDimIndexerU<DIM>, DIM, T>>>|
                #![trigger states.last()]
                {
                    let calls = pair_calls(
                        old(self).chunks_view(),
                        chunk_counts(old(self).lens_view(), old(self).dim_elem_count_view()),
                    );
                    &&& states.len() == calls.len() + 1
                    &&& states[0] == old(self).chunks_view()
                    &&& states.last() == final(self).chunks_view()
                    &&& forall|i: int|
                        0 <= i < calls.len() ==> #[trigger] calls[i].4 < DIM && exists|a: &mut T, b: &mut T|
                            pair_call_result(
                                states[i],
                                states[i + 1],
                                calls[i].0,
                                calls[i].1,
                                calls[i].2,
                                calls[i].3,
                                *a,
                                *final(a),
                                *b,
                                *final(b),
                            ) && call_ensures(*func, (a, b, calls[i].4 as usize), ())
                },
    {
        let ghost s0 = *self;
        let d = self.dim_elem_count;
        let ghost dd = d as int;
        let ghost l = self.lens_view();
        let outer: NDimIndexerU<DIM> = *self.values.n_dim_index();
        let ghost ol = outer.lens_view();
        let n = outer.length();
        let counts: [usize; DIM] = *outer.lens();
        proof {
            assert(outer.ndim_wf());
            outer.lemma_length();
            assert(s0.values.wf());
        }
        let ghost mut states: Seq<Seq<NDimArray<NDimIndexerU<DIM>, DIM, T>>> = seq![s0.chunks_view()];
        let ghost mut calls: Seq<(int, int, int, int, int)> = Seq::empty();
        proof {
            assert(Seq::new(0, inner_calls_in_fn(s0.chunks_view())) =~= Seq::<Seq<(int, int, int, int, int)>>::empty());
        }
        let mut k: usize = 0;
        while k < n
            invariant
                0 <= k <= n,
                s0 == *old(self),
                s0.wf(),
                s0.chunks_view().len() == n,
                self.wf(),
                self.lens == s0.lens,
                self.dim_elem_count == s0.dim_elem_count,
                self.values.indexer_view() == s0.values.indexer_view(),
                self.chunks_view().len() == s0.chunks_view().len(),
                forall|kk: int|
                    0 <= kk < s0.chunks_view().len() ==> {
                        &&& (#[trigger] self.chunks_view()[kk]).indexer_view()
                            == s0.chunks_view()[kk].indexer_view()
                        &&& self.chunks_view()[kk].values_view().len()
                            == s0.chunks_view()[kk].values_view().len()
                    },
                d == self.dim_elem_count,
                dd == d,
                l == self.lens_view(),
                outer == s0.values.indexer_view(),
                ol == outer.lens_view(),
                ol == chunk_counts(l, dd),
                outer.wf(),
                n == outer.length_view(),
                n == radix_prod(ol),
                forall|a: &mut T, b: &mut T, dim: usize|
                    dim < DIM ==> call_requires(*func, (a, b, dim)),
                states.len() == calls.len() + 1,
                states[0] == s0.chunks_view(),
                states.last() == self.chunks_view(),
                forall|i: int|
                    0 <= i < calls.len() ==> #[trigger] calls[i].4 < DIM && exists|a: &mut T, b: &mut T|
                        pair_call_result(
                            states[i],
                            states[i + 1],
                            calls[i].0,
                            calls[i].1,
                            calls[i].2,
                            calls[i].3,
                            *a,
                            *final(a),
                            *b,
                            *final(b),
                        ) && call_ensures(*func, (a, b, calls[i].4 as usize), ()),
                calls == Seq::new(k as nat, inner_calls_in_fn(s0.chunks_view())).flatten(),
            decreases n - k,
        {
            proof {
                crate::structures::n_dim_index::lemma_positive_of_positive_prod(ol);
            }
            let inner: NDimIndexerU<DIM> = *self.values.values()[k].n_dim_index();
            let m = inner.length();
            let ilens: [usize; DIM] = *inner.lens();
            proof {
                assert(self.values.values_view()[k as int].wf());
                inner.lemma_length();
            }
            let mut j: usize = 0;
            while j < m
                invariant
                    0 <= j <= m,
                    0 <= k < n,
                    s0 == *old(self),
                    s0.wf(),
                    s0.chunks_view().len() == n,
                s0.chunks_view().len() == n,
                    self.wf(),
                    self.lens == s0.lens,
                    self.dim_elem_count == s0.dim_elem_count,
                    self.values.indexer_view() == s0.values.indexer_view(),
                    self.chunks_view().len() == s0.chunks_view().len(),
                    forall|kk: int|
                        0 <= kk < s0.chunks_view().len() ==> {
                            &&& (#[trigger] self.chunks_view()[kk]).indexer_view()
                                == s0.chunks_view()[kk].indexer_view()
                            &&& self.chunks_view()[kk].values_view().len()
                                == s0.chunks_view()[kk].values_view().len()
                        },
                    n == outer.length_view(),
                    outer == s0.values.indexer_view(),
                    inner == s0.chunks_view()[k as int].indexer_view(),
                    inner.wf(),
                    ints_of_usize(ilens@) == inner.lens_view(),
                    m == inner.length_view(),
                    m == radix_prod(inner.lens_view()),
                    m == s0.chunks_view()[k as int].values_view().len(),
                    forall|a: &mut T, b: &mut T, dim: usize|
                        dim < DIM ==> call_requires(*func, (a, b, dim)),
                    states.len() == calls.len() + 1,
                    states[0] == s0.chunks_view(),
                    states.last() == self.chunks_view(),
                    forall|i: int|
                        0 <= i < calls.len() ==> #[trigger] calls[i].4 < DIM && exists|a: &mut T, b: &mut T|
                            pair_call_result(
                                states[i],
                                states[i + 1],
                                calls[i].0,
                                calls[i].1,
                                calls[i].2,
                                calls[i].3,
                                *a,
                                *final(a),
                                *b,
                                *final(b),
                            ) && call_ensures(*func, (a, b, calls[i].4 as usize), ()),
                    calls == Seq::new(k as nat, inner_calls_in_fn(s0.chunks_view())).flatten() + Seq::new(j as nat, inner_calls_at_fn(s0.chunks_view(), k as int)).flatten(),
                decreases m - j,
            {
                proof {
                    crate::structures::n_dim_index::lemma_positive_of_positive_prod(
                        inner.lens_view(),
                    );
                    inner.lemma_compressed_roundtrip(j as int);
                    lemma_digits_value(j as int, inner.lens_view());
                }
                let c = inner.decompress_index_u(j);
                let ghost cv = ints_of_usize(c@);
                let mut dim: usize = 0;
                while dim < DIM
                    invariant
                        0 <= dim <= DIM,
                        0 <= k < n,
                        0 <= j < m,
                        s0 == *old(self),
                        s0.wf(),
                        s0.chunks_view().len() == n,
                    s0.chunks_view().len() == n,
                s0.chunks_view().len() == n,
                        self.wf(),
                        self.lens == s0.lens,
                        self.dim_elem_count == s0.dim_elem_count,
                        self.values.indexer_view() == s0.values.indexer_view(),
                        self.chunks_view().len() == s0.chunks_view().len(),
                        forall|kk: int|
                            0 <= kk < s0.chunks_view().len() ==> {
                                &&& (#[trigger] self.chunks_view()[kk]).indexer_view()
                                    == s0.chunks_view()[kk].indexer_view()
                                &&& self.chunks_view()[kk].values_view().len()
                                    == s0.chunks_view()[kk].values_view().len()
                            },
                        n == outer.length_view(),
                        outer == s0.values.indexer_view(),
                        inner == s0.chunks_view()[k as int].indexer_view(),
                        inner.wf(),
                        all_positive(inner.lens_view()),
                        ints_of_usize(ilens@) == inner.lens_view(),
                        m == inner.length_view(),
                        m == radix_prod(inner.lens_view()),
                        m == s0.chunks_view()[k as int].values_view().len(),
                        cv == ints_of_usize(c@),
                        digits_in_range(cv, inner.lens_view()),
                        radix_value(cv, inner.lens_view()) == j,
                        forall|a: &mut T, b: &mut T, dim: usize|
                            dim < DIM ==> call_requires(*func, (a, b, dim)),
                        states.len() == calls.len() + 1,
                        states[0] == s0.chunks_view(),
                        states.last() == self.chunks_view(),
                        forall|i: int|
                            0 <= i < calls.len() ==> #[trigger] calls[i].4 < DIM && exists|a: &mut T, b: &mut T|
                                pair_call_result(
                                    states[i],
                                    states[i + 1],
                                    calls[i].0,
                                    calls[i].1,
                                    calls[i].2,
                                    calls[i].3,
                                    *a,
                                    *final(a),
                                    *b,
                                    *final(b),
                                ) && call_ensures(*func, (a, b, calls[i].4 as usize), ()),
                        calls == Seq::new(k as nat, inner_calls_in_fn(s0.chunks_view())).flatten() + Seq::new(j as nat, inner_calls_at_fn(s0.chunks_view(), k as int)).flatten() + Seq::new(dim as nat, inner_call_fn(s0.chunks_view(), k as int, j as int)).flatten(),
                        cv == radix_digits(j as int, inner.lens_view()),
                    decreases DIM - dim,
                {
                    assert(ilens@[dim as int] as int == inner.lens_view()[dim as int]);
                    assert(cv[dim as int] < inner.lens_view()[dim as int]);
                    if c[dim] + 1 < ilens[dim] {
                        let mut c2 = c;
                        c2[dim] = c[dim] + 1;
                        let ghost cv2 = ints_of_usize(c2@);
                        proof {
                            assert(cv2 =~= cv.update(dim as int, cv[dim as int] + 1));
                            assert(digits_in_range(cv2, inner.lens_view()));
                            lemma_value_bound(cv2, inner.lens_view());
                            crate::structures::n_dim_index_operator::lemma_value_update(
                                cv,
                                inner.lens_view(),
                                dim as int,
                                cv[dim as int] + 1,
                            );
                            assert(all_positive(inner.lens_view().take(dim as int)));
                            crate::structures::mixed_radix::lemma_prod_positive(
                                inner.lens_view().take(dim as int),
                            );
                        }
                        let j2 = inner.compress_index_u(c2);
                        proof {
                            assert(j2 == radix_value(cv2, inner.lens_view()));
                            assert(cv2 == cv.update(dim as int, cv[dim as int] + 1));
                            let pp = radix_prod(inner.lens_view().take(dim as int));
                            let x1 = cv[dim as int] + 1 - cv[dim as int];
                            assert(x1 == 1);
                            assert(pp * x1 == pp) by (nonlinear_arith)
                                requires
                                    x1 == 1,
                            ;
                            assert(j2 == j + pp);
                        }
                        let ghost before = *self;
                        self.call_on_pair_mut(k, j, k, j2, dim, func);
                        proof {
                            Self::lemma_same_shape_wf(before, *self);
                            let cl = (k as int, j as int, k as int, j2 as int, dim as int);
                            assert(cl.4 as usize == dim);
                            let (wa, wb) = choose|a: &mut T, b: &mut T|
                                pair_call_result(
                                    before.chunks_view(),
                                    self.chunks_view(),
                                    k as int,
                                    j as int,
                                    k as int,
                                    j2 as int,
                                    *a,
                                    *final(a),
                                    *b,
                                    *final(b),
                                ) && call_ensures(*func, (a, b, dim), ());
                            assert(states.last() == before.chunks_view());
                            assert(pair_call_result(states.last(), self.chunks_view(), cl.0, cl.1, cl.2, cl.3, *wa, *final(wa), *wb, *final(wb)));
                            assert(call_ensures(*func, (wa, wb, cl.4 as usize), ()));
                            Self::lemma_trace_push(*func, states, calls, self.chunks_view(), cl);
                            lemma_flatten_new_step(dim as nat, inner_call_fn(s0.chunks_view(), k as int, j as int));
                            assert(inner_call(s0.chunks_view(), k as int, j as int, dim as int) == seq![cl]);
                            states = states.push(self.chunks_view());
                            calls = calls.push(cl);
                        }
                    } else {
                        proof {
                            lemma_flatten_new_step(dim as nat, inner_call_fn(s0.chunks_view(), k as int, j as int));
                            assert(inner_call(s0.chunks_view(), k as int, j as int, dim as int) =~= Seq::empty());
                        }
                    }
                    dim = dim + 1;
                }
                proof {
                    lemma_flatten_new_step(j as nat, inner_calls_at_fn(s0.chunks_view(), k as int));
                }
                j = j + 1;
            }
            proof {
                lemma_flatten_new_step(k as nat, inner_calls_in_fn(s0.chunks_view()));
            }
            k = k + 1;
        }
        proof {
            assert(Seq::new(0, cross_calls_at_fn(s0.chunks_view(), ol)) =~= Seq::<Seq<(int, int, int, int, int)>>::empty());
        }
        let mut ka: usize = 0;
        while ka < n
            invariant
                0 <= ka <= n,
                s0 == *old(self),
                s0.wf(),
                s0.chunks_view().len() == n,
                self.wf(),
                self.lens == s0.lens,
                self.dim_elem_count == s0.dim_elem_count,
                self.values.indexer_view() == s0.values.indexer_view(),
                self.chunks_view().len() == s0.chunks_view().len(),
                forall|kk: int|
                    0 <= kk < s0.chunks_view().len() ==> {
                        &&& (#[trigger] self.chunks_view()[kk]).indexer_view()
                            == s0.chunks_view()[kk].indexer_view()
                        &&& self.chunks_view()[kk].values_view().len()
                            == s0.chunks_view()[kk].values_view().len()
                    },
                d == self.dim_elem_count,
                dd == d,
                l == self.lens_view(),
                outer == s0.values.indexer_view(),
                ol == outer.lens_view(),
                ol == chunk_counts(l, dd),
                ints_of_usize(counts@) == ol,
                outer.wf(),
                n == outer.length_view(),
                n == radix_prod(ol),
                forall|a: &mut T, b: &mut T, dim: usize|
                    dim < DIM ==> call_requires(*func, (a, b, dim)),
                states.len() == calls.len() + 1,
                states[0] == s0.chunks_view(),
                states.last() == self.chunks_view(),
                forall|i: int|
                    0 <= i < calls.len() ==> #[trigger] calls[i].4 < DIM && exists|a: &mut T, b: &mut T|
                        pair_call_result(
                            states[i],
                            states[i + 1],
                            calls[i].0,
                            calls[i].1,
                            calls[i].2,
                            calls[i].3,
                            *a,
                            *final(a),
                            *b,
                            *final(b),
                        ) && call_ensures(*func, (a, b, calls[i].4 as usize), ()),
                calls == Seq::new(n as nat, inner_calls_in_fn(s0.chunks_view())).flatten() + Seq::new(ka as nat, cross_calls_at_fn(s0.chunks_view(), ol)).flatten(),
            decreases n - ka,
        {
            proof {
                crate::structures::n_dim_index::lemma_positive_of_positive_prod(ol);
                outer.lemma_compressed_roundtrip(ka as int);
                lemma_digits_value(ka as int, ol);
            }
            let ta = outer.decompress_index_u(ka);
            let ghost tav = ints_of_usize(ta@);
            let mut dim: usize = 0;
            while dim < DIM
                invariant
                    0 <= dim <= DIM,
                    0 <= ka < n,
                    s0 == *old(self),
                    s0.wf(),
                    s0.chunks_view().len() == n,
                s0.chunks_view().len() == n,
                    self.wf(),
                    self.lens == s0.lens,
                    self.dim_elem_count == s0.dim_elem_count,
                    self.values.indexer_view() == s0.values.indexer_view(),
                    self.chunks_view().len() == s0.chunks_view().len(),
                    forall|kk: int|
                        0 <= kk < s0.chunks_view().len() ==> {
                            &&& (#[trigger] self.chunks_view()[kk]).indexer_view()
                                == s0.chunks_view()[kk].indexer_view()
                            &&& self.chunks_view()[kk].values_view().len()
                                == s0.chunks_view()[kk].values_view().len()
                        },
                    d == self.dim_elem_count,
                    dd == d,
                    l == self.lens_view(),
                    outer == s0.values.indexer_view(),
                    ol == outer.lens_view(),
                    ol == chunk_counts(l, dd),
                    ints_of_usize(counts@) == ol,
                    outer.wf(),
                    all_positive(ol),
                    n == outer.length_view(),
                    n == radix_prod(ol),
                    tav == ints_of_usize(ta@),
                    digits_in_range(tav, ol),
                    radix_value(tav, ol) == ka,
                    forall|a: &mut T, b: &mut T, dim: usize|
                        dim < DIM ==> call_requires(*func, (a, b, dim)),
                    states.len() == calls.len() + 1,
                    states[0] == s0.chunks_view(),
                    states.last() == self.chunks_view(),
                    forall|i: int|
                        0 <= i < calls.len() ==> #[trigger] calls[i].4 < DIM && exists|a: &mut T, b: &mut T|
                            pair_call_result(
                                states[i],
                                states[i + 1],
                                calls[i].0,
                                calls[i].1,
                                calls[i].2,
                                calls[i].3,
                                *a,
                                *final(a),
                                *b,
                                *final(b),
                            ) && call_ensures(*func, (a, b, calls[i].4 as usize), ()),
                    calls == Seq::new(n as nat, inner_calls_in_fn(s0.chunks_view())).flatten() + Seq::new(ka as nat, cross_calls_at_fn(s0.chunks_view(), ol)).flatten() + Seq::new(dim as nat, cross_calls_dim_fn(s0.chunks_view(), ol, ka as int)).flatten(),
                    tav == radix_digits(ka as int, ol),
                decreases DIM - dim,
            {
                assert(counts@[dim as int] as int == ol[dim as int]);
                assert(tav[dim as int] < ol[dim as int]);
                if ta[dim] + 1 < counts[dim] {
                    let mut tb = ta;
                    tb[dim] = ta[dim] + 1;
                    let ghost tbv = ints_of_usize(tb@);
                    proof {
                        assert(tbv =~= tav.update(dim as int, tav[dim as int] + 1));
                        assert(digits_in_range(tbv, ol));
                        lemma_value_bound(tbv, ol);
                        crate::structures::n_dim_index_operator::lemma_value_update(
                            tav,
                            ol,
                            dim as int,
                            tav[dim as int] + 1,
                        );
                        assert(all_positive(ol.take(dim as int)));
                        crate::structures::mixed_radix::lemma_prod_positive(ol.take(dim as int));
                    }
                    let kb = outer.compress_index_u(tb);
                    proof {
                        lemma_value_digits(tav, ol);
                        lemma_value_digits(tbv, ol);
                        assert(s0.values.values_view()[ka as int].wf());
                        assert(s0.values.values_view()[kb as int].wf());
                    }
                    let ia: NDimIndexerU<DIM> = *self.values.values()[ka].n_dim_index();
                    let ib: NDimIndexerU<DIM> = *self.values.values()[kb].n_dim_index();
                    let mb = ib.length();
                    let la = ia.length();
                    proof {
                        ia.lemma_length();
                        ib.lemma_length();
                        assert(ia.lens_view() == chunk_lens(l, dd, tav));
                        assert(ib.lens_view() == chunk_lens(l, dd, tbv));
                        assert(tav[dim as int] != l[dim as int] / dd) by {
                            vstd::arithmetic::div_mod::lemma_div_pos_is_pos(l[dim as int], dd);
                        }
                        assert(chunk_lens(l, dd, tav)[dim as int] == dd);
                    }
                    let mut j: usize = 0;
                    while j < mb
                        invariant
                            0 <= j <= mb,
                            0 <= ka < kb < n,
                            0 <= dim < DIM,
                            s0 == *old(self),
                            s0.wf(),
                            s0.chunks_view().len() == n,
                        s0.chunks_view().len() == n,
                    s0.chunks_view().len() == n,
                s0.chunks_view().len() == n,
                            self.wf(),
                            self.lens == s0.lens,
                            self.dim_elem_count == s0.dim_elem_count,
                            self.values.indexer_view() == s0.values.indexer_view(),
                            self.chunks_view().len() == s0.chunks_view().len(),
                            forall|kk: int|
                                0 <= kk < s0.chunks_view().len() ==> {
                                    &&& (#[trigger] self.chunks_view()[kk]).indexer_view()
                                        == s0.chunks_view()[kk].indexer_view()
                                    &&& self.chunks_view()[kk].values_view().len()
                                        == s0.chunks_view()[kk].values_view().len()
                                },
                            d == self.dim_elem_count,
                            dd == d,
                            d > 0,
                            l == self.lens_view(),
                            n == outer.length_view(),
                            tav == ints_of_usize(ta@),
                            tbv == tav.update(dim as int, tav[dim as int] + 1),
                            ia == s0.chunks_view()[ka as int].indexer_view(),
                            ib == s0.chunks_view()[kb as int].indexer_view(),
                            ia.wf(),
                            ib.wf(),
                            ia.lens_view() == chunk_lens(l, dd, tav),
                            ib.lens_view() == chunk_lens(l, dd, tbv),
                            chunk_lens(l, dd, tav)[dim as int] == dd,
                            la == ia.length_view(),
                            la == s0.chunks_view()[ka as int].values_view().len(),
                            mb == ib.length_view(),
                            mb == radix_prod(ib.lens_view()),
                            mb == s0.chunks_view()[kb as int].values_view().len(),
                            ia.length_view() == radix_prod(ia.lens_view()),
                            forall|a: &mut T, b: &mut T, dim: usize|
                                dim < DIM ==> call_requires(*func, (a, b, dim)),
                            states.len() == calls.len() + 1,
                            states[0] == s0.chunks_view(),
                            states.last() == self.chunks_view(),
                            forall|i: int|
                                0 <= i < calls.len() ==> #[trigger] calls[i].4 < DIM && exists|a: &mut T, b: &mut T|
                                    pair_call_result(
                                        states[i],
                                        states[i + 1],
                                        calls[i].0,
                                        calls[i].1,
                                        calls[i].2,
                                        calls[i].3,
                                        *a,
                                        *final(a),
                                        *b,
                                        *final(b),
                                    ) && call_ensures(*func, (a, b, calls[i].4 as usize), ()),
                            calls == Seq::new(n as nat, inner_calls_in_fn(s0.chunks_view())).flatten() + Seq::new(ka as nat, cross_calls_at_fn(s0.chunks_view(), ol)).flatten() + Seq::new(dim as nat, cross_calls_dim_fn(s0.chunks_view(), ol, ka as int)).flatten() + Seq::new(j as nat, cross_call_fn(s0.chunks_view(), ka as int, kb as int, dim as int)).flatten(),
                            tav == radix_digits(ka as int, ol),
                            ol == outer.lens_view(),
                            kb == radix_value(tbv, ol),
                            tav[dim as int] + 1 < ol[dim as int],
                        decreases mb - j,
                    {
                        proof {
                            crate::structures::n_dim_index::lemma_positive_of_positive_prod(
                                ib.lens_view(),
                            );
                            ib.lemma_compressed_roundtrip(j as int);
                            lemma_digits_value(j as int, ib.lens_view());
                        }
                        let cb = ib.decompress_index_u(j);
                        if cb[dim] == 0 {
                            let ghost cbv = ints_of_usize(cb@);
                            let mut ca = cb;
                            ca[dim] = d - 1;
                            let ghost cav = ints_of_usize(ca@);
                            proof {
                                assert(cav =~= cbv.update(dim as int, dd - 1));
                                assert forall|i: int| 0 <= i < DIM implies 0 <= #[trigger] cav[i]
                                    < ia.lens_view()[i] by {
                                    if i != dim {
                                        assert(tav[i] == tbv[i]);
                                        assert(cbv[i] < ib.lens_view()[i]);
                                    }
                                }
                                assert(digits_in_range(cav, ia.lens_view()));
                                lemma_value_bound(cav, ia.lens_view());
                            }
                            let ja = ia.compress_index_u(ca);
                            let ghost before = *self;
                            self.call_on_pair_mut(ka, ja, kb, j, dim, func);
                            proof {
                                Self::lemma_same_shape_wf(before, *self);
                                let cl = (ka as int, ja as int, kb as int, j as int, dim as int);
                                assert(cl.4 as usize == dim);
                                let (wa, wb) = choose|a: &mut T, b: &mut T|
                                    pair_call_result(
                                        before.chunks_view(),
                                        self.chunks_view(),
                                        ka as int,
                                        ja as int,
                                        kb as int,
                                        j as int,
                                        *a,
                                        *final(a),
                                        *b,
                                        *final(b),
                                    ) && call_ensures(*func, (a, b, dim), ());
                                assert(states.last() == before.chunks_view());
                                assert(pair_call_result(states.last(), self.chunks_view(), cl.0, cl.1, cl.2, cl.3, *wa, *final(wa), *wb, *final(wb)));
                                assert(call_ensures(*func, (wa, wb, cl.4 as usize), ()));
                                Self::lemma_trace_push(*func, states, calls, self.chunks_view(), cl);
                                lemma_flatten_new_step(
                                    j as nat,
                                    cross_call_fn(s0.chunks_view(), ka as int, kb as int, dim as int),
                                );
                                assert(cross_call(s0.chunks_view(), ka as int, kb as int, dim as int, j as int)
                                    == seq![cl]);
                                states = states.push(self.chunks_view());
                                calls = calls.push(cl);
                            }
                        } else {
                            proof {
                                lemma_flatten_new_step(
                                    j as nat,
                                    cross_call_fn(s0.chunks_view(), ka as int, kb as int, dim as int),
                                );
                                assert(cross_call(s0.chunks_view(), ka as int, kb as int, dim as int, j as int)
                                    =~= Seq::empty());
                            }
                        }
                        j = j + 1;
                    }
                    proof {
                        lemma_flatten_new_step(dim as nat, cross_calls_dim_fn(s0.chunks_view(), ol, ka as int));
                    }
                } else {
                    proof {
                        lemma_flatten_new_step(dim as nat, cross_calls_dim_fn(s0.chunks_view(), ol, ka as int));
                        assert(cross_calls_dim(s0.chunks_view(), ol, ka as int, dim as int) =~= Seq::empty());
                    }
                }
                dim = dim + 1;
            }
            proof {
                lemma_flatten_new_step(ka as nat, cross_calls_at_fn(s0.chunks_view(), ol));
            }
            ka = ka + 1;
        }
        proof {
            assert(calls == pair_calls(s0.chunks_view(), ol));
        }
    }

    /// Calls `func` on every pair of neighbouring values in both orders, both mutably, as
    /// [Self::iter_pair_mut] visits them: first on the pair with the positive direction of the
    /// dimension, then on the two the other way round with the negative direction. The chunks go
    /// through one state per pair of [pair_calls]: for each, the first call takes the two values,
    /// the second call takes what the first left, and the two values end as the second left them.
    #[verifier::rlimit(60)]
    pub fn iter_pair_2_side_mut<F: Fn(&mut T, &mut T, DimDir)>(&mut self, func: &F)
        requires
            old(self).wf(),
            forall|a: &mut T, b: &mut T, dir: DimDir| dir.dim < DIM ==> call_requires(*func, (a, b, dir)),
        ensures
            final(self).wf(),
            final(self).lens_view() == old(self).lens_view(),
            final(self).dim_elem_count_view() == old(self).dim_elem_count_view(),
            exists|states: Seq<Seq<NDimArray<NDimIndexerU<DIM>, DIM, T>>>|
                #![trigger states.last()]
                {
                    let calls = pair_calls(
                        old(self).chunks_view(),
                        chunk_counts(old(self).lens_view(), old(self).dim_elem_count_view()),
                    );
                    &&& states.len() == calls.len() + 1
                    &&& states[0] == old(self).chunks_view()
                    &&& states.last() == final(self).chunks_view()
                    &&& forall|i: int|
                        0 <= i < calls.len() ==> #[trigger] calls[i].4 < DIM &&
                            exists|x: &mut T, y: &mut T, p: &mut T, q: &mut T|
                                pair_call_result(
                                    states[i],
                                    states[i + 1],
                                    calls[i].0,
                                    calls[i].1,
                                    calls[i].2,
                                    calls[i].3,
                                    *x,
                                    *final(q),
                                    *y,
                                    *final(p),
                                ) && *p == *final(y) && *q == *final(x) && call_ensures(
                                    *func,
                                    (x, y, DimDir { dim: calls[i].4 as usize, dir_positive: true }),
                                    (),
                                ) && call_ensures(*func, (p, q, DimDir { dim: calls[i].4 as usize, dir_positive: false }), ())
                },
    {
        let both = |a: &mut T, b: &mut T, dim: usize|
            requires
                dim < DIM,
                forall|a: &mut T, b: &mut T, dir: DimDir| dir.dim < DIM ==> call_requires(func, (a, b, dir)),
            ensures
                exists|x: &mut T, y: &mut T, p: &mut T, q: &mut T|
                    *x == *old(a) && *y == *old(b) && *final(q) == *final(a) && *final(p) == *final(b)
                        && *p == *final(y) && *q == *final(x) && call_ensures(
                        func,
                        (x, y, DimDir { dim, dir_positive: true }),
                        (),
                    ) && call_ensures(func, (p, q, DimDir { dim, dir_positive: false }), ()),
            {
                func(a, b, DimDir { dim, dir_positive: true });
                func(b, a, DimDir { dim, dir_positive: false });
            };
        let ghost s0 = *self;
        self.iter_pair_mut(&both);
        proof {
            let calls = pair_calls(
                s0.chunks_view(),
                chunk_counts(s0.lens_view(), s0.dim_elem_count_view()),
            );
            let states = choose|states: Seq<Seq<NDimArray<NDimIndexerU<DIM>, DIM, T>>>|
                #![trigger states.last()]
                {
                    &&& states.len() == calls.len() + 1
                    &&& states[0] == s0.chunks_view()
                    &&& states.last() == self.chunks_view()
                    &&& forall|i: int|
                        0 <= i < calls.len() ==> #[trigger] calls[i].4 < DIM && exists|a: &mut T, b: &mut T|
                            pair_call_result(
                                states[i],
                                states[i + 1],
                                calls[i].0,
                                calls[i].1,
                                calls[i].2,
                                calls[i].3,
                                *a,
                                *final(a),
                                *b,
                                *final(b),
                            ) && call_ensures(both, (a, b, calls[i].4 as usize), ())
                };
            assert forall|i: int|
                0 <= i < calls.len() implies #[trigger] calls[i].4 < DIM &&
                exists|x: &mut T, y: &mut T, p: &mut T, q: &mut T|
                    pair_call_result(
                        states[i],
                        states[i + 1],
                        calls[i].0,
                        calls[i].1,
                        calls[i].2,
                        calls[i].3,
                        *x,
                        *final(q),
                        *y,
                        *final(p),
                    ) && *p == *final(y) && *q == *final(x) && call_ensures(
                        *func,
                        (x, y, DimDir { dim: calls[i].4 as usize, dir_positive: true }),
                        (),
                    ) && call_ensures(*func, (p, q, DimDir { dim: calls[i].4 as usize, dir_positive: false }), ()) by {
                let (a, b) = choose|a: &mut T, b: &mut T|
                    pair_call_result(
                        states[i],
                        states[i + 1],
                        calls[i].0,
                        calls[i].1,
                        calls[i].2,
                        calls[i].3,
                        *a,
                        *final(a),
                        *b,
                        *final(b),
                    ) && call_ensures(both, (a, b, calls[i].4 as usize), ());
                let d = calls[i].4 as usize;
                let (x, y, p, q) = choose|x: &mut T, y: &mut T, p: &mut T, q: &mut T|
                    *x == *a && *y == *b && *final(q) == *final(a) && *final(p) == *final(b)
                        && *p == *final(y) && *q == *final(x) && call_ensures(
                        *func,
                        (x, y, DimDir { dim: d, dir_positive: true }),
                        (),
                    ) && call_ensures(*func, (p, q, DimDir { dim: d, dir_positive: false }), ());
                assert(call_ensures(*func, (x, y, DimDir { dim: d, dir_positive: true }), ()));
            }
            assert(states.last() == self.chunks_view());
        }
    }

    /// Replacing the chunk at chunk index `tq` by one whose values are the same but perhaps the one
    /// at `cr` keeps the array well formed and changes at most the value at `av`.
    proof fn lemma_chunk_update_facts(
        s0: Self,
        s1: Self,
        av: Seq<int>,
        tq: Seq<int>,
        cr: Seq<int>,
        fch: NDimArray<NDimIndexerU<DIM>, DIM, T>,
        changed: bool,
        x: T,
    )
        requires
            s0.wf(),
            s1.lens == s0.lens,
            s1.dim_elem_count == s0.dim_elem_count,
            s1.values.indexer_view() == s0.values.indexer_view(),
            av.len() == DIM,
            tq == Seq::new(DIM as nat, |j: int| av[j] / (s0.dim_elem_count as int)),
            cr == Seq::new(DIM as nat, |j: int| av[j] % (s0.dim_elem_count as int)),
            digits_in_range(tq, s0.values.indexer_view().lens_view()),
            s1.values.values_view() == s0.values.values_view().update(
                radix_value(tq, s0.values.indexer_view().lens_view()),
                fch,
            ),
            fch.indexer_view() == s0.chunk_at(tq).indexer_view(),
            fch.values_view() == if changed {
                s0.chunk_at(tq).values_view().update(
                    radix_value(cr, s0.chunk_at(tq).indexer_view().lens_view()),
                    x,
                )
            } else {
                s0.chunk_at(tq).values_view()
            },
            changed ==> digits_in_range(cr, s0.chunk_at(tq).indexer_view().lens_view()),
        ensures
            s1.wf(),
            forall|b: Seq<int>|
                #[trigger] s0.in_bounds(b) ==> s1.value_at(b) == if changed && b == av {
                    x
                } else {
                    s0.value_at(b)
                },
    {
        let d = s0.dim_elem_count as int;
        let outer = s0.values.indexer_view();
        let ol = outer.lens_view();
        let l = s0.lens_view();
        let k = radix_value(tq, ol);
        lemma_value_bound(tq, ol);
        lemma_value_digits(tq, ol);
        assert(outer.ndim_wf());
        outer.lemma_length();
        assert(0 <= k < outer.length_view());
        let ch0 = s0.values.values_view()[k];
        assert(ch0 == s0.chunk_at(tq));
        assert(ch0.wf());
        assert(ch0.indexer_view().lens_view() == chunk_lens(l, d, tq));
        if changed {
            let chl0 = ch0.indexer_view().lens_view();
            lemma_value_bound(cr, chl0);
            assert(ch0.indexer_view().ndim_wf());
            ch0.indexer_view().lemma_length();
            assert(radix_value(cr, chl0) < ch0.values_view().len());
        }
        assert(s1.lens_view() == l);
        assert forall|kk: int| 0 <= kk < outer.length_view() implies {
            let ch = #[trigger] s1.values.values_view()[kk];
            &&& ch.wf()
            &&& ch.indexer_view().lens_view() == chunk_lens(l, d, radix_digits(kk, ol))
        } by {
            if kk != k {
                assert(s1.values.values_view()[kk] == s0.values.values_view()[kk]);
                assert(s0.values.values_view()[kk].wf());
            } else {
                assert(s1.values.values_view()[kk] == fch);
                assert(fch.values_view().len() == ch0.values_view().len());
                assert(fch.wf());
            }
        }
        assert forall|b: Seq<int>| #[trigger] s0.in_bounds(b) implies s1.value_at(b) == if changed
            && b == av {
            x
        } else {
            s0.value_at(b)
        } by {
            let tb = Seq::new(DIM as nat, |j: int| b[j] / d);
            let cb = Seq::new(DIM as nat, |j: int| b[j] % d);
            assert forall|j: int| 0 <= j < DIM implies 0 <= #[trigger] tb[j] < ol[j] && 0 <= cb[j]
                < chunk_lens(l, d, tb)[j] by {
                lemma_split_coordinate(b[j], l[j], d);
            }
            assert(digits_in_range(tb, ol));
            lemma_value_bound(tb, ol);
            lemma_value_digits(tb, ol);
            let kb = radix_value(tb, ol);
            assert(Seq::new(DIM as nat, |i: int| b[i] / (s1.dim_elem_count as int)) =~= tb);
            assert(Seq::new(DIM as nat, |i: int| b[i] % (s1.dim_elem_count as int)) =~= cb);
            assert(Seq::new(DIM as nat, |i: int| b[i] / (s0.dim_elem_count as int)) =~= tb);
            assert(Seq::new(DIM as nat, |i: int| b[i] % (s0.dim_elem_count as int)) =~= cb);
            assert(s1.chunk_at(tb) == s1.values.values_view()[kb]);
            assert(s0.chunk_at(tb) == s0.values.values_view()[kb]);
            assert(s1.value_at(b) == s1.chunk_at(tb).values_view()[radix_value(
                cb,
                s1.chunk_at(tb).indexer_view().lens_view(),
            )]);
            assert(s0.value_at(b) == s0.chunk_at(tb).values_view()[radix_value(
                cb,
                s0.chunk_at(tb).indexer_view().lens_view(),
            )]);
            if kb != k {
                assert(s1.values.values_view()[kb] == s0.values.values_view()[kb]);
                assert(s1.value_at(b) == s0.value_at(b));
                if b == av {
                    assert(tb =~= tq);
                    assert(false);
                }
            } else {
                assert(tb =~= tq);
                let chl = ch0.indexer_view().lens_view();
                let pos = radix_value(cb, chl);
                assert(s1.chunk_at(tb) == fch);
                assert(s0.chunk_at(tb) == ch0);
                assert(digits_in_range(cb, chl));
                lemma_value_bound(cb, chl);
                assert(s1.value_at(b) == fch.values_view()[pos]);
                assert(s0.value_at(b) == ch0.values_view()[pos]);
                if changed {
                    if b == av {
                        assert(cb =~= cr);
                    } else {
                        assert(cb != cr) by {
                            if cb == cr {
                                assert forall|j: int| 0 <= j < DIM implies b[j] == av[j] by {
                                    vstd::arithmetic::div_mod::lemma_fundamental_div_mod(b[j], d);
                                    vstd::arithmetic::div_mod::lemma_fundamental_div_mod(av[j], d);
                                    assert(tb[j] == tq[j]);
                                    assert(cb[j] == cr[j]);
                                }
                                assert(b =~= av);
                            }
                        }
                        lemma_value_digits(cb, chl);
                        lemma_value_digits(cr, chl);
                        assert(pos != radix_value(cr, chl));
                    }
                }
            }
        }
    }

    /// Calls `func` on every value with its index, chunk after chunk: once it returns, `func` has
    /// been called on the value at every index inside the bounds, with that index.
    pub fn for_each<F: Fn(&T, NDimIndex<DIM>)>(&self, func: &F)
        requires
            self.wf(),
            forall|v: &T, a: NDimIndex<DIM>|
                self.in_bounds(ints_of_isize(a@)) ==> call_requires(*func, (v, a)),
        ensures
            forall|a: NDimIndex<DIM>|
                #[trigger] self.in_bounds(ints_of_isize(a@)) ==> call_ensures(
                    *func,
                    (&self.value_at(ints_of_isize(a@)), a),
                    (),
                ),
    {
        let d = self.dim_elem_count;
        let ghost dd = d as int;
        let ghost l = self.lens_view();
        let outer = self.values.n_dim_index();
        let ghost ol = outer.lens_view();
        let n = outer.length();
        let chunks = self.values.values();
        proof {
            assert(outer.ndim_wf());
            outer.lemma_length();
            assert(ol == chunk_counts(l, dd));
            assert forall|a: NDimIndex<DIM>| #[trigger] self.in_bounds(ints_of_isize(a@)) implies !visited_before(
                l,
                dd,
                ol,
                ints_of_isize(a@),
                0,
                0,
            ) by {
                lemma_chunk_order_facts(l, dd, ints_of_isize(a@));
            }
        }
        let mut k: usize = 0;
        while k < n
            invariant
                0 <= k <= n,
                self.wf(),
                d == self.dim_elem_count,
                dd == d,
                l == self.lens_view(),
                *outer == self.values.indexer_view(),
                ol == outer.lens_view(),
                ol == chunk_counts(l, dd),
                chunks@ == self.chunks_view(),
                n == outer.length_view(),
                n == radix_prod(ol),
                outer.wf(),
                forall|v: &T, a: NDimIndex<DIM>|
                    self.in_bounds(ints_of_isize(a@)) ==> call_requires(*func, (v, a)),
                forall|a: NDimIndex<DIM>|
                    #[trigger] self.in_bounds(ints_of_isize(a@)) && visited_before(
                        l,
                        dd,
                        ol,
                        ints_of_isize(a@),
                        k as int,
                        0,
                    ) ==> call_ensures(*func, (&self.value_at(ints_of_isize(a@)), a), ()),
            decreases n - k,
        {
            proof {
                crate::structures::n_dim_index::lemma_positive_of_positive_prod(ol);
                outer.lemma_compressed_roundtrip(k as int);
                lemma_digits_value(k as int, ol);
            }
            let t = outer.decompress_index_u(k);
            let ghost tv = ints_of_usize(t@);
            let ch = &chunks[k];
            let inner = ch.n_dim_index();
            let vals = ch.values();
            let m = inner.length();
            proof {
                assert(ch.wf());
                inner.lemma_length();
                assert(inner.lens_view() == chunk_lens(l, dd, tv));
            }
            let mut j: usize = 0;
            while j < m
                invariant
                    0 <= j <= m,
                    0 <= k < n,
                    self.wf(),
                    d == self.dim_elem_count,
                    dd == d,
                    l == self.lens_view(),
                    ol == chunk_counts(l, dd),
                    n == radix_prod(ol),
                    tv == ints_of_usize(t@),
                    tv == radix_digits(k as int, ol),
                    radix_value(tv, ol) == k,
                    digits_in_range(tv, ol),
                    *ch == self.chunks_view()[k as int],
                    *inner == ch.indexer_view(),
                    vals@ == ch.values_view(),
                    ch.wf(),
                    inner.wf(),
                    inner.lens_view() == chunk_lens(l, dd, tv),
                    m == inner.length_view(),
                    m == radix_prod(chunk_lens(l, dd, tv)),
                    forall|v: &T, a: NDimIndex<DIM>|
                        self.in_bounds(ints_of_isize(a@)) ==> call_requires(*func, (v, a)),
                    forall|a: NDimIndex<DIM>|
                        #[trigger] self.in_bounds(ints_of_isize(a@)) && visited_before(
                            l,
                            dd,
                            ol,
                            ints_of_isize(a@),
                            k as int,
                            j as int,
                        ) ==> call_ensures(*func, (&self.value_at(ints_of_isize(a@)), a), ()),
                decreases m - j,
            {
                proof {
                    crate::structures::n_dim_index::lemma_positive_of_positive_prod(
                        inner.lens_view(),
                    );
                    inner.lemma_compressed_roundtrip(j as int);
                    lemma_digits_value(j as int, inner.lens_view());
                }
                let c = inner.decompress_index_u(j);
                let ghost cv = ints_of_usize(c@);
                let mut full = [0isize; DIM];
                let mut i: usize = 0;
                while i < DIM
                    invariant
                        0 <= i <= DIM,
                        self.wf(),
                        l == self.lens_view(),
                        d == self.dim_elem_count,
                        dd == d,
                        tv == ints_of_usize(t@),
                        cv == ints_of_usize(c@),
                        digits_in_range(tv, chunk_counts(l, dd)),
                        digits_in_range(cv, chunk_lens(l, dd, tv)),
                        forall|jj: int|
                            0 <= jj < i ==> 0 <= #[trigger] full@[jj] < l[jj] && full@[jj] as int
                                == tv[jj] * dd + cv[jj],
                    decreases DIM - i,
                {
                    proof {
                        let a = tv[i as int] * dd + cv[i as int];
                        assert(cv[i as int] < dd) by {
                            lemma_chunk_len_le_d(l[i as int], dd, tv[i as int]);
                        }
                        vstd::arithmetic::div_mod::lemma_fundamental_div_mod_converse(
                            a,
                            dd,
                            tv[i as int],
                            cv[i as int],
                        );
                        assert(a >= 0) by (nonlinear_arith)
                            requires
                                tv[i as int] >= 0,
                                cv[i as int] >= 0,
                                dd > 0,
                                a == tv[i as int] * dd + cv[i as int],
                        ;
                        lemma_split_coordinate(a, l[i as int], dd);
                        assert(t@[i as int] * d == tv[i as int] * dd);
                        assert(self.lens@[i as int] <= isize::MAX);
                    }
                    full[i] = (t[i] * d + c[i]) as isize;
                    i = i + 1;
                }
                let ghost fv = ints_of_isize(full@);
                proof {
                    assert(fv.len() == DIM);
                    assert forall|ii: int| 0 <= ii < DIM implies #[trigger] fv[ii] == tv[ii] * dd + cv[ii] by {
                        assert(fv[ii] == full@[ii] as int);
                    }
                    self.lemma_value_at_parts(tv, cv, fv);
                    lemma_chunk_order_of_parts(l, dd, ol, tv, cv, fv);
                    assert(radix_value(cv, chunk_lens(l, dd, tv)) == j);
                    assert(self.value_at(fv) == vals@[j as int]);
                }
                func(&vals[j], full);
                proof {
                    assert forall|a: NDimIndex<DIM>|
                        #[trigger] self.in_bounds(ints_of_isize(a@)) && visited_before(
                            l,
                            dd,
                            ol,
                            ints_of_isize(a@),
                            k as int,
                            j + 1,
                        ) implies call_ensures(*func, (&self.value_at(ints_of_isize(a@)), a), ()) by {
                        let av = ints_of_isize(a@);
                        lemma_chunk_order_facts(l, dd, av);
                        let o = chunk_order(l, dd, ol, av);
                        if o.0 == k && o.1 == j {
                            let tb = Seq::new(av.len(), |ii: int| av[ii] / dd);
                            let cb = Seq::new(av.len(), |ii: int| av[ii] % dd);
                            assert(tb == tv);
                            assert(cb == cv);
                            assert(av =~= fv);
                            lemma_index_eq(a, full);
                        }
                    }
                }
                j = j + 1;
            }
            proof {
                assert forall|a: NDimIndex<DIM>| #[trigger] self.in_bounds(ints_of_isize(a@)) implies visited_before(
                    l,
                    dd,
                    ol,
                    ints_of_isize(a@),
                    k as int,
                    m as int,
                ) == visited_before(l, dd, ol, ints_of_isize(a@), k + 1, 0) by {
                    let av = ints_of_isize(a@);
                    lemma_chunk_order_facts(l, dd, av);
                    let o = chunk_order(l, dd, ol, av);
                    if o.0 == k {
                        let tb = Seq::new(av.len(), |ii: int| av[ii] / dd);
                        assert(tb == tv);
                    }
                }
            }
            k = k + 1;
        }
        proof {
            assert forall|a: NDimIndex<DIM>| #[trigger] self.in_bounds(ints_of_isize(a@)) implies visited_before(
                l,
                dd,
                ol,
                ints_of_isize(a@),
                n as int,
                0,
            ) by {
                lemma_chunk_order_facts(l, dd, ints_of_isize(a@));
            }
        }
    }

    /// The length of each dimension.
    pub fn lens(&self) -> (res: &[usize; DIM])
        ensures
            ints_of_usize(res@) == self.lens_view(),
    {
        &self.lens
    }

    /// The chunk grid's indexer.
    pub closed spec fn grid_view(&self) -> NDimIndexerU<DIM> {
        self.values.indexer_view()
    }

    /// The chunks, mutably; the lengths, the chunk side and the chunk grid stay, and the chunks
    /// become what is left in the vector.
    pub fn chunks_mut(&mut self) -> (res: &mut Vec<NDimArray<NDimIndexerU<DIM>, DIM, T>>)
        ensures
            res@ == old(self).chunks_view(),
            final(self).chunks_view() == final(res)@,
            final(self).lens_view() == old(self).lens_view(),
            final(self).dim_elem_count_view() == old(self).dim_elem_count_view(),
            final(self).grid_view() == old(self).grid_view(),
    {
        self.values.values_mut()
    }

    /// One phase of the pairs inside the chunks: [inner_phase_of].
    fn inner_phase(&self, dim: usize, rem: isize) -> (res: Vec<(usize, usize, usize, usize, usize)>)
        requires
            self.wf(),
            dim < DIM,
            rem == 0 || rem == 1,
        ensures
            res@ == inner_phase_of(self.chunks_view(), dim as int, rem as int),
    {
        let chunks = self.values.values();
        let n = chunks.len();
        let ghost cs = self.chunks_view();
        let mut out: Vec<(usize, usize, usize, usize, usize)> = Vec::new();
        proof {
            assert(Seq::new(0, chunk_phase_fn(cs, dim as int, rem as int)) =~= Seq::<
                Seq<(usize, usize, usize, usize, usize)>,
            >::empty());
            assert(self.values.wf());
        }
        let mut k: usize = 0;
        while k < n
            invariant
                0 <= k <= n,
                self.wf(),
                dim < DIM,
                rem == 0 || rem == 1,
                cs == self.chunks_view(),
                chunks@ == cs,
                n == cs.len(),
                n == self.values.indexer_view().length_view(),
                out@ == Seq::new(k as nat, chunk_phase_fn(cs, dim as int, rem as int)).flatten(),
            decreases n - k,
        {
            proof {
                assert(self.values.values_view()[k as int].wf());
            }
            let ps = chunks[k].pair_phase(dim, rem);
            let ghost base = out@;
            let ghost cp = chunk_phase(cs, k as int, dim as int, rem as int);
            let mut i: usize = 0;
            while i < ps.len()
                invariant
                    0 <= i <= ps.len(),
                    ps@ == phase_pairs::<DIM, NDimIndexerU<DIM>>(
                        cs[k as int].indexer_view(),
                        dim as int,
                        rem as int,
                        cs[k as int].indexer_view().ndim_length(),
                    ),
                    cp == chunk_phase(cs, k as int, dim as int, rem as int),
                    cp.len() == ps@.len(),
                    out@ == base + cp.take(i as int),
                decreases ps.len() - i,
            {
                let p = ps[i];
                out.push((k, p.0, k, p.1, p.2));
                proof {
                    assert(cp.take(i + 1) =~= cp.take(i as int).push(cp[i as int]));
                }
                i = i + 1;
            }
            proof {
                assert(cp.take(ps.len() as int) =~= cp);
                lemma_flatten_new_step(k as nat, chunk_phase_fn(cs, dim as int, rem as int));
            }
            k = k + 1;
        }
        out
    }

    /// One phase of the pairs across chunk faces: [cross_phase_of].
    fn cross_phase(&self, dim: usize, rem: isize) -> (res: Vec<(usize, usize, usize, usize, usize)>)
        requires
            self.wf(),
            dim < DIM,
            rem == 0 || rem == 1,
        ensures
            res@ == cross_phase_of(self.chunks_view(), self.grid_view(), dim as int, rem as int),
    {
        proof {
            assert(self.values.wf());
        }
        let cps = self.values.pair_phase(dim, rem);
        let chunks = self.values.values();
        let ghost cs = self.chunks_view();
        let ghost grid = self.grid_view();
        let ghost ff = face_calls_fn(cs, grid, dim as int, rem as int);
        proof {
            crate::structures::n_dim_array::lemma_phase_pairs_set::<DIM, NDimIndexerU<DIM>>(
                grid,
                dim as int,
                rem as int,
            );
            assert(Seq::new(0, ff) =~= Seq::<Seq<(usize, usize, usize, usize, usize)>>::empty());
        }
        let mut out: Vec<(usize, usize, usize, usize, usize)> = Vec::new();
        let mut i: usize = 0;
        while i < cps.len()
            invariant
                0 <= i <= cps.len(),
                self.wf(),
                dim < DIM,
                cs == self.chunks_view(),
                chunks@ == cs,
                grid == self.grid_view(),
                cs.len() == grid.length_view(),
                cps@ == phase_pairs::<DIM, NDimIndexerU<DIM>>(grid, dim as int, rem as int, grid.ndim_length()),
                ff == face_calls_fn(cs, grid, dim as int, rem as int),
                forall|a: int| 0 <= a < cps@.len() ==> #[trigger] cps@[a].0 < grid.ndim_length()
                    && crate::structures::n_dim_array::phase_pair_ok::<DIM, NDimIndexerU<DIM>>(
                    grid,
                    dim as int,
                    rem as int,
                    cps@[a],
                ),
                out@ == Seq::new(i as nat, ff).flatten(),
            decreases cps.len() - i,
        {
            let (ka, kb, _d) = cps[i];
            proof {
                assert(cps@[i as int].0 < grid.ndim_length());
                let p = crate::structures::n_dim_array::decompressed::<DIM, NDimIndexerU<DIM>>(
                    grid,
                    ka as int,
                );
                grid.lemma_ndim_roundtrip(crate::structures::n_dim_array::step_up(p, dim as int));
                assert(self.values.values_view()[ka as int].wf());
                assert(self.values.values_view()[kb as int].wf());
            }
            let ia: NDimIndexerU<DIM> = *chunks[ka].n_dim_index();
            let ib: NDimIndexerU<DIM> = *chunks[kb].n_dim_index();
            let la: [usize; DIM] = *ia.lens();
            let mb = ib.length();
            proof {
                ia.lemma_length();
                ib.lemma_length();
            }
            let ghost base = out@;
            let ghost fc = face_call_fn(cs, ka as int, kb as int, dim as int);
            proof {
                assert(Seq::new(0, fc) =~= Seq::<Seq<(usize, usize, usize, usize, usize)>>::empty());
            }
            let mut j: usize = 0;
            while j < mb
                invariant
                    0 <= j <= mb,
                    dim < DIM,
                    ia == cs[ka as int].indexer_view(),
                    ib == cs[kb as int].indexer_view(),
                    ia.wf(),
                    ib.wf(),
                    ints_of_usize(la@) == ia.lens_view(),
                    mb == ib.length_view(),
                    mb == radix_prod(ib.lens_view()),
                    ia.length_view() == radix_prod(ia.lens_view()),
                    all_nonneg(ib.lens_view()),
                    ib.lens_view().len() == DIM,
                    ia.lens_view().len() == DIM,
                    fc == face_call_fn(cs, ka as int, kb as int, dim as int),
                    out@ == base + Seq::new(j as nat, fc).flatten(),
                decreases mb - j,
            {
                proof {
                    crate::structures::n_dim_index::lemma_positive_of_positive_prod(ib.lens_view());
                    crate::structures::n_dim_index_u::lemma_digits_len(j as int, ib.lens_view());
                }
                let cb = ib.decompress_index_u(j);
                let ghost cbv = ints_of_usize(cb@);
                let ghost lav = ia.lens_view();
                let ghost cav = cbv.update(dim as int, lav[dim as int] - 1);
                proof {
                    lemma_flatten_new_step(j as nat, fc);
                    assert(cbv == radix_digits(j as int, lens_of_chunk(cs, kb as int)));
                    assert(lav == lens_of_chunk(cs, ka as int));
                    assert(cbv[dim as int] == cb@[dim as int] as int);
                    assert(lav[dim as int] == la@[dim as int] as int);
                }
                if cb[dim] == 0 && la[dim] >= 1 {
                    let mut ca = cb;
                    ca[dim] = la[dim] - 1;
                    let mut fits = true;
                    let mut t: usize = 0;
                    while t < DIM
                        invariant
                            0 <= t <= DIM,
                            ints_of_usize(la@) == lav,
                            lav.len() == DIM,
                            ints_of_usize(ca@) == cav,
                            cav.len() == DIM,
                            fits == (forall|s: int| 0 <= s < t ==> #[trigger] cav[s] < lav[s]),
                        decreases DIM - t,
                    {
                        assert(ca@[t as int] as int == cav[t as int]);
                        assert(la@[t as int] as int == lav[t as int]);
                        if ca[t] >= la[t] {
                            fits = false;
                        }
                        t = t + 1;
                    }
                    proof {
                        assert(ints_of_usize(ca@) =~= cav);
                        assert(fits == digits_in_range(cav, lav));
                    }
                    if fits {
                        let na = ia.length();
                        proof {
                            crate::structures::mixed_radix::lemma_value_bound(cav, lav);
                            assert(ia.length_view() == na);
                            assert(ints_of_usize(ca@) == cav);
                        }
                        let ja = ia.compress_index_u(ca);
                        out.push((ka, ja, kb, j, dim));
                        proof {
                            assert(face_call(cs, ka as int, kb as int, dim as int, j as int) == seq![
                                (ka, ja, kb, j, dim),
                            ]);
                        }
                    } else {
                        proof {
                            assert(face_call(cs, ka as int, kb as int, dim as int, j as int)
                                =~= Seq::empty());
                        }
                    }
                } else {
                    proof {
                        if cbv[dim as int] == 0 {
                            assert(cav[dim as int] == lav[dim as int] - 1);
                            assert(cav[dim as int] < 0);
                            assert(!digits_in_range(cav, lav));
                        }
                        assert(face_call(cs, ka as int, kb as int, dim as int, j as int)
                            =~= Seq::empty());
                    }
                }
                j = j + 1;
            }
            proof {
                lemma_flatten_new_step(i as nat, ff);
                assert(ff(i as int) == face_calls(cs, ka as int, kb as int, dim as int));
            }
            i = i + 1;
        }
        out
    }

    /// The pairs of neighbouring values in phases whose pairs can be worked on at once, the phases
    /// in turn: for each dimension in order, the two phases inside the chunks ([inner_phase_of],
    /// first leaving out remainder 1, then 0); then for each dimension, the two phases across
    /// chunk faces ([cross_phase_of], likewise). Each pair is `(chunk, position, chunk, position,
    /// dim)`.
    pub fn pair_schedule(&self) -> (res: Vec<Vec<(usize, usize, usize, usize, usize)>>)
        requires
            self.wf(),
        ensures
            res@.len() == 4 * DIM,
            forall|d: int, r: int|
                0 <= d < DIM && 0 <= r < 2 ==> (#[trigger] res@[2 * d + r])@ == inner_phase_of(
                    self.chunks_view(),
                    d,
                    1 - r,
                ),
            forall|d: int, r: int|
                0 <= d < DIM && 0 <= r < 2 ==> (#[trigger] res@[2 * DIM + 2 * d + r])@
                    == cross_phase_of(self.chunks_view(), self.grid_view(), d, 1 - r),
            forall|p: int, x: int|
                0 <= p < res@.len() && 0 <= x < res@[p]@.len() ==> self.is_neighbour_call(
                    call_of_usizes(#[trigger] res@[p]@[x]),
                ),
            forall|p: int|
                0 <= p < res@.len() ==> (#[trigger] res@[p])@ == schedule_phase(
                    self.chunks_view(),
                    self.grid_view(),
                    p,
                ),
            forall|p: int| 0 <= p < res@.len() ==> calls_disjoint(#[trigger] res@[p]@),
            forall|a: Seq<int>, dim: int|
                0 <= dim < DIM && self.in_bounds(a) && self.in_bounds(#[trigger] step_up_int(a, dim))
                    ==> exists|p: int, x: int|
                    0 <= p < res@.len() && 0 <= x < res@[p]@.len() && (#[trigger] res@[p]@[x]).4
                        == dim && self.index_of_position(res@[p]@[x].0 as int, res@[p]@[x].1 as int)
                        == a,
    {
        let mut out: Vec<Vec<(usize, usize, usize, usize, usize)>> = Vec::new();
        let mut dim: usize = 0;
        while dim < DIM
            invariant
                0 <= dim <= DIM,
                self.wf(),
                out@.len() == 2 * dim,
                forall|d: int, r: int|
                    0 <= d < dim && 0 <= r < 2 ==> (#[trigger] out@[2 * d + r])@ == inner_phase_of(
                        self.chunks_view(),
                        d,
                        1 - r,
                    ),
            decreases DIM - dim,
        {
            let ghost prev = out@;
            let a = self.inner_phase(dim, 1);
            out.push(a);
            let b = self.inner_phase(dim, 0);
            out.push(b);
            proof {
                assert forall|d: int, r: int| 0 <= d < dim + 1 && 0 <= r < 2 implies (
                #[trigger] out@[2 * d + r])@ == inner_phase_of(self.chunks_view(), d, 1 - r) by {
                    if d < dim {
                        assert(out@[2 * d + r] == prev[2 * d + r]);
                    }
                }
            }
            dim = dim + 1;
        }
        let mut dim: usize = 0;
        while dim < DIM
            invariant
                0 <= dim <= DIM,
                self.wf(),
                out@.len() == 2 * DIM + 2 * dim,
                forall|d: int, r: int|
                    0 <= d < DIM && 0 <= r < 2 ==> (#[trigger] out@[2 * d + r])@ == inner_phase_of(
                        self.chunks_view(),
                        d,
                        1 - r,
                    ),
                forall|d: int, r: int|
                    0 <= d < dim && 0 <= r < 2 ==> (#[trigger] out@[2 * DIM + 2 * d + r])@
                        == cross_phase_of(self.chunks_view(), self.grid_view(), d, 1 - r),
            decreases DIM - dim,
        {
            let ghost prev = out@;
            let a = self.cross_phase(dim, 1);
            out.push(a);
            let b = self.cross_phase(dim, 0);
            out.push(b);
            proof {
                assert forall|d: int, r: int| 0 <= d < DIM && 0 <= r < 2 implies (
                #[trigger] out@[2 * d + r])@ == inner_phase_of(self.chunks_view(), d, 1 - r) by {
                    assert(out@[2 * d + r] == prev[2 * d + r]);
                }
                assert forall|d: int, r: int| 0 <= d < dim + 1 && 0 <= r < 2 implies (
                #[trigger] out@[2 * DIM + 2 * d + r])@ == cross_phase_of(
                    self.chunks_view(),
                    self.grid_view(),
                    d,
                    1 - r,
                ) by {
                    if d < dim {
                        assert(out@[2 * DIM + 2 * d + r] == prev[2 * DIM + 2 * d + r]);
                    }
                }
            }
            dim = dim + 1;
        }
        proof {
            let cs = self.chunks_view();
            assert forall|p: int, x: int| 0 <= p < out@.len() && 0 <= x < out@[p]@.len() implies self.is_neighbour_call(
                call_of_usizes(#[trigger] out@[p]@[x]),
            ) by {
                if p < 2 * DIM {
                    let dd = p / 2;
                    let r = p % 2;
                    assert(p == 2 * dd + r);
                    assert(out@[2 * dd + r]@ == inner_phase_of(cs, dd, 1 - r));
                    self.lemma_inner_phase_neighbours(dd, 1 - r);
                } else {
                    let q = p - 2 * DIM;
                    let dd = q / 2;
                    let r = q % 2;
                    assert(p == 2 * DIM + 2 * dd + r);
                    assert(out@[2 * DIM + 2 * dd + r]@ == cross_phase_of(cs, self.grid_view(), dd, 1 - r));
                    self.lemma_cross_phase_neighbours(dd, 1 - r);
                }
            }
            assert forall|p: int| 0 <= p < out@.len() implies (#[trigger] out@[p])@ == schedule_phase(
                cs,
                self.grid_view(),
                p,
            ) by {
                if p < 2 * DIM {
                    let dd = p / 2;
                    let r = p % 2;
                    assert(p == 2 * dd + r);
                    assert(out@[2 * dd + r]@ == inner_phase_of(cs, dd, 1 - r));
                } else {
                    let q = p - 2 * DIM;
                    let dd = q / 2;
                    let r = q % 2;
                    assert(p == 2 * DIM + 2 * dd + r);
                    assert(out@[2 * DIM + 2 * dd + r]@ == cross_phase_of(cs, self.grid_view(), dd, 1 - r));
                }
            }
            assert forall|p: int| 0 <= p < out@.len() implies calls_disjoint(#[trigger] out@[p]@) by {
                if p < 2 * DIM {
                    let dd = p / 2;
                    let r = p % 2;
                    assert(p == 2 * dd + r);
                    assert(out@[2 * dd + r]@ == inner_phase_of(cs, dd, 1 - r));
                    self.lemma_inner_phase_disjoint(dd, 1 - r);
                } else {
                    let q = p - 2 * DIM;
                    let dd = q / 2;
                    let r = q % 2;
                    assert(p == 2 * DIM + 2 * dd + r);
                    assert(out@[2 * DIM + 2 * dd + r]@ == cross_phase_of(cs, self.grid_view(), dd, 1 - r));
                    self.lemma_cross_phase_disjoint(dd, 1 - r);
                }
            }
            assert forall|a: Seq<int>, dim: int|
                0 <= dim < DIM && self.in_bounds(a) && self.in_bounds(#[trigger] step_up_int(a, dim))
                    implies exists|p: int, x: int|
                    0 <= p < out@.len() && 0 <= x < out@[p]@.len() && (#[trigger] out@[p]@[x]).4
                        == dim && self.index_of_position(out@[p]@[x].0 as int, out@[p]@[x].1 as int)
                        == a by {
                assert(a.len() == DIM);
                let (inner, r, x) = self.lemma_phase_of_pair(a, dim);
                if inner {
                    assert(out@[2 * dim + r]@ == inner_phase_of(cs, dim, 1 - r));
                    assert(out@[2 * dim + r]@[x] == inner_phase_of(cs, dim, 1 - r)[x]);
                } else {
                    assert(out@[2 * DIM + 2 * dim + r]@ == cross_phase_of(cs, self.grid_view(), dim, 1 - r));
                    assert(out@[2 * DIM + 2 * dim + r]@[x] == cross_phase_of(cs, self.grid_view(), dim, 1 - r)[x]);
                }
            }
        }
        out
    }

    /// The chunks, addressed by chunk index.
    pub fn chunks(&self) -> (res: &NDimArray<NDimIndexerU<DIM>, DIM, NDimArray<NDimIndexerU<DIM>, DIM, T>>)
        requires
            self.wf(),
        ensures
            res.wf(),
            res.values_view() == self.chunks_view(),
    {
        &self.values
    }

    /// The index at position `j` of chunk `k`: the chunk index's digits over the chunk grid, times
    /// the chunk side, plus the position's digits over that chunk's lengths.
    pub open spec fn index_of_position(&self, k: int, j: int) -> Seq<int> {
        let l = self.lens_view();
        let d = self.dim_elem_count_view();
        let tk = radix_digits(k, chunk_counts(l, d));
        merge_index(tk, radix_digits(j, chunk_lens(l, d, tk)), d)
    }

    /// What [Self::iter] yields, chunk after chunk, is every value of the array once: the value at
    /// position `j` of chunk `k` is the value at [Self::index_of_position], an index inside the
    /// bounds that sits at that position; and every index inside the bounds sits at one position of
    /// one chunk, which holds its value.
    pub proof fn lemma_iter_covers(&self)
        requires
            self.wf(),
        ensures
            ({
                let vs = chunk_values(self.chunks_view());
                let l = self.lens_view();
                let d = self.dim_elem_count_view();
                &&& forall|k: int, j: int|
                    0 <= k < vs.len() && 0 <= j < vs[k].len() ==> {
                        &&& self.in_bounds(#[trigger] self.index_of_position(k, j))
                        &&& vs[k][j] == self.value_at(self.index_of_position(k, j))
                        &&& chunk_order(l, d, chunk_counts(l, d), self.index_of_position(k, j)) == (
                            k,
                            j,
                        )
                    }
                &&& forall|a: Seq<int>|
                    a.len() == DIM && #[trigger] self.in_bounds(a) ==> {
                        let o = chunk_order(l, d, chunk_counts(l, d), a);
                        &&& 0 <= o.0 < vs.len()
                        &&& 0 <= o.1 < vs[o.0].len()
                        &&& self.index_of_position(o.0, o.1) == a
                    }
            }),
    {
        let vs = chunk_values(self.chunks_view());
        let l = self.lens_view();
        let d = self.dim_elem_count_view();
        let ol = chunk_counts(l, d);
        assert(self.values.indexer_view().lens_view() == ol);
        self.values.indexer_view().lemma_length();
        assert forall|k: int, j: int| 0 <= k < vs.len() && 0 <= j < vs[k].len() implies {
            &&& self.in_bounds(#[trigger] self.index_of_position(k, j))
            &&& vs[k][j] == self.value_at(self.index_of_position(k, j))
            &&& chunk_order(l, d, chunk_counts(l, d), self.index_of_position(k, j)) == (k, j)
        } by {
            let ch = self.chunks_view()[k];
            assert(ch.wf());
            let tk = radix_digits(k, ol);
            let cl = chunk_lens(l, d, tk);
            assert(ch.indexer_view().lens_view() == cl);
            ch.indexer_view().lemma_length();
            assert(vs[k] == ch.values_view());
            assert(all_positive(ol)) by {
                assert forall|i: int| 0 <= i < ol.len() implies #[trigger] ol[i] > 0 by {
                    assert(0 <= k < radix_prod(ol));
                    crate::structures::n_dim_index::lemma_positive_of_positive_prod(ol);
                }
            }
            crate::structures::n_dim_index::lemma_positive_of_positive_prod(cl);
            lemma_digits_value(k, ol);
            lemma_digits_value(j, cl);
            crate::structures::n_dim_index_u::lemma_digits_len(k, ol);
            crate::structures::n_dim_index_u::lemma_digits_len(j, cl);
            let cj = radix_digits(j, cl);
            let a = self.index_of_position(k, j);
            assert forall|i: int| 0 <= i < DIM implies 0 <= #[trigger] a[i] < l[i] && a[i] / d
                == tk[i] && a[i] % d == cj[i] by {
                lemma_chunk_len_le_d(l[i], d, tk[i]);
                assert(0 <= cj[i] < cl[i]);
                assert(0 <= tk[i] < ol[i]);
                vstd::arithmetic::div_mod::lemma_fundamental_div_mod_converse(a[i], d, tk[i], cj[i]);
                assert(a[i] >= 0) by (nonlinear_arith)
                    requires
                        a[i] == tk[i] * d + cj[i],
                        tk[i] >= 0,
                        cj[i] >= 0,
                        d > 0,
                ;
                lemma_split_coordinate(a[i], l[i], d);
            }
            lemma_chunk_order_of_parts(l, d, ol, tk, cj, a);
            let t = Seq::new(DIM as nat, |i: int| a[i] / d);
            let c = Seq::new(DIM as nat, |i: int| a[i] % d);
            assert(t =~= tk);
            assert(c =~= cj);
        }
        assert forall|a: Seq<int>| a.len() == DIM && #[trigger] self.in_bounds(a) implies {
            let o = chunk_order(l, d, chunk_counts(l, d), a);
            &&& 0 <= o.0 < vs.len()
            &&& 0 <= o.1 < vs[o.0].len()
            &&& self.index_of_position(o.0, o.1) == a
        } by {
            lemma_chunk_order_facts(l, d, a);
            let o = chunk_order(l, d, ol, a);
            let tb = Seq::new(a.len(), |i: int| a[i] / d);
            let cb = Seq::new(a.len(), |i: int| a[i] % d);
            let ch = self.chunks_view()[o.0];
            assert(ch.wf());
            ch.indexer_view().lemma_length();
            assert(self.index_of_position(o.0, o.1) =~= a);
        }
    }

    /// The index at position `j` of chunk `k` ([Self::index_of_position]); it lies inside the
    /// bounds and holds the value stored there.
    pub fn position_index(&self, k: usize, j: usize) -> (res: NDimIndex<DIM>)
        requires
            self.wf(),
            k < self.chunks_view().len(),
            j < self.chunks_view()[k as int].values_view().len(),
        ensures
            ints_of_isize(res@) == self.index_of_position(k as int, j as int),
            self.in_bounds(ints_of_isize(res@)),
            self.value_at(ints_of_isize(res@)) == self.chunks_view()[k as int].values_view()[j as int],
    {
        let ghost l = self.lens_view();
        let ghost dd = self.dim_elem_count_view();
        let ghost ol = chunk_counts(l, dd);
        let ghost a = self.index_of_position(k as int, j as int);
        proof {
            self.lemma_iter_covers();
            assert(chunk_values(self.chunks_view())[k as int] == self.chunks_view()[k as int].values_view());
            assert(self.values.wf());
            assert(self.values.indexer_view().lens_view() == ol);
            self.values.indexer_view().lemma_length();
            crate::structures::n_dim_index::lemma_positive_of_positive_prod(ol);
            assert(self.chunks_view()[k as int].wf());
            self.chunks_view()[k as int].indexer_view().lemma_length();
            crate::structures::n_dim_index::lemma_positive_of_positive_prod(
                self.chunks_view()[k as int].indexer_view().lens_view(),
            );
        }
        let d = self.dim_elem_count;
        let outer: NDimIndexerU<DIM> = *self.values.n_dim_index();
        let t = outer.decompress_index_u(k);
        let inner: NDimIndexerU<DIM> = *self.values.values()[k].n_dim_index();
        let c = inner.decompress_index_u(j);
        proof {
            crate::structures::n_dim_index_u::lemma_digits_len(k as int, ol);
            crate::structures::n_dim_index_u::lemma_digits_len(
                j as int,
                inner.lens_view(),
            );
        }
        let mut full = [0isize; DIM];
        let mut i: usize = 0;
        while i < DIM
            invariant
                0 <= i <= DIM,
                d == dd,
                dd > 0,
                ints_of_usize(t@) == radix_digits(k as int, ol),
                ints_of_usize(c@) == radix_digits(
                    j as int,
                    chunk_lens(l, dd, radix_digits(k as int, ol)),
                ),
                a == merge_index(
                    radix_digits(k as int, ol),
                    radix_digits(j as int, chunk_lens(l, dd, radix_digits(k as int, ol))),
                    dd,
                ),
                a.len() == DIM,
                digits_in_range(a, l),
                l.len() == DIM,
                forall|m: int| 0 <= m < DIM ==> #[trigger] l[m] <= isize::MAX,
                forall|m: int| 0 <= m < i ==> #[trigger] full@[m] as int == a[m],
            decreases DIM - i,
        {
            proof {
                assert(a[i as int] == t@[i as int] as int * dd + c@[i as int] as int);
                assert(0 <= a[i as int] < l[i as int]);
                assert(t@[i as int] as int * dd <= a[i as int]);
            }
            full[i] = (t[i] * d + c[i]) as isize;
            i = i + 1;
        }
        proof {
            assert(ints_of_isize(full@) =~= a);
        }
        full
    }

    /// Iterates all values, chunk after chunk, each chunk in compressed order.
    pub fn iter<'a>(&'a self) -> (res: NDimChunkArrayIter<'a, DIM, T>)
        ensures
            res.remaining() == chunk_values(self.chunks_view()).flatten(),
    {
        let res = NDimChunkArrayIter { chunks: self.values.values(), chunk: 0, item: 0 };
        proof {
            let vs = chunk_values(self.chunks_view());
            if vs.len() > 0 {
                assert(vs[0].skip(0) =~= vs[0]);
                assert(vs.skip(1) =~= vs.drop_first());
            } else {
                assert(vs =~= Seq::<Seq<T>>::empty());
            }
        }
        res
    }
}

/// A chunk's length along a dimension is at most `d`.
pub proof fn lemma_chunk_len_le_d(len: int, d: int, t: int)
    requires
        0 <= len,
        d > 0,
    ensures
        chunk_len(len, d, t) <= d,
{
    vstd::arithmetic::div_mod::lemma_mod_pos_bound(len, d);
}

/// A chunk that exists is at most as long as a full chunk.
pub proof fn lemma_chunk_len_le_full(len: int, d: int, t: int)
    requires
        0 <= len,
        d > 0,
        0 <= t < chunk_count(len, d),
    ensures
        0 <= chunk_len(len, d, t) <= if len < d { len } else { d },
{
    vstd::arithmetic::div_mod::lemma_mod_pos_bound(len, d);
    vstd::arithmetic::div_mod::lemma_fundamental_div_mod(len, d);
    vstd::arithmetic::div_mod::lemma_div_pos_is_pos(len, d);
    if len < d {
        vstd::arithmetic::div_mod::lemma_fundamental_div_mod_converse(len, d, 0, len);
    } else {
        if t != len / d {
            assert(t < len / d);
        }
        assert(len % d <= d);
    }
}

/// Whether coordinates, read as integers `cs`, lie in ranges from zero to `ends`.
pub open spec fn ranges_contain_iff(
    c: Seq<isize>,
    ranges: Seq<core::ops::Range<isize>>,
    cs: Seq<int>,
    ends: Seq<int>,
) -> bool {
    crate::structures::n_dim_index::ranges_contain(c, ranges) <==> digits_in_range(cs, ends)
}

/// The values of each chunk.
pub open spec fn chunk_values<const DIM: usize, T>(chunks: Seq<NDimArray<NDimIndexerU<DIM>, DIM, T>>) -> Seq<Seq<T>> {
    chunks.map_values(|ch: NDimArray<NDimIndexerU<DIM>, DIM, T>| ch.values_view())
}

/// The chunks `after` are the chunks `before` with the value at position `ja` of chunk `ka`,
/// which was `a0`, now `a1`, and the value at position `jb` of chunk `kb`, which was `b0`, now
/// `b1`; every other value stays.
pub open spec fn pair_call_result<const DIM: usize, T>(
    before: Seq<NDimArray<NDimIndexerU<DIM>, DIM, T>>,
    after: Seq<NDimArray<NDimIndexerU<DIM>, DIM, T>>,
    ka: int,
    ja: int,
    kb: int,
    jb: int,
    a0: T,
    a1: T,
    b0: T,
    b1: T,
) -> bool {
    &&& a0 == before[ka].values_view()[ja]
    &&& b0 == before[kb].values_view()[jb]
    &&& after.len() == before.len()
    &&& forall|k: int|
        0 <= k < before.len() && k != ka && k != kb ==> (#[trigger] after[k]).values_view()
            == before[k].values_view()
    &&& ka == kb ==> after[ka].values_view() == before[ka].values_view().update(ja, a1).update(
        jb,
        b1,
    )
    &&& ka != kb ==> after[ka].values_view() == before[ka].values_view().update(ja, a1)
        && after[kb].values_view() == before[kb].values_view().update(jb, b1)
}

/// The lengths of chunk `k`.
pub open spec fn lens_of_chunk<const DIM: usize, T>(
    chunks: Seq<NDimArray<NDimIndexerU<DIM>, DIM, T>>,
    k: int,
) -> Seq<int> {
    chunks[k].indexer_view().lens_view()
}

/// The call on the value at position `j` of chunk `k` and the value one step up along `dim`
/// inside the same chunk, if that one is in the chunk: `(ka, ja, kb, jb, dim)`.
pub open spec fn inner_call<const DIM: usize, T>(
    chunks: Seq<NDimArray<NDimIndexerU<DIM>, DIM, T>>,
    k: int,
    j: int,
    dim: int,
) -> Seq<(int, int, int, int, int)> {
    let lens = lens_of_chunk(chunks, k);
    let c = radix_digits(j, lens);
    if c[dim] + 1 < lens[dim] {
        seq![(k, j, k, j + radix_prod(lens.take(dim)), dim)]
    } else {
        Seq::empty()
    }
}

/// [inner_call] for each dimension.
pub open spec fn inner_call_fn<const DIM: usize, T>(
    chunks: Seq<NDimArray<NDimIndexerU<DIM>, DIM, T>>,
    k: int,
    j: int,
) -> spec_fn(int) -> Seq<(int, int, int, int, int)> {
    |dim: int| inner_call(chunks, k, j, dim)
}

/// The calls inside chunk `k` from position `j`, over the dimensions in order.
pub open spec fn inner_calls_at<const DIM: usize, T>(
    chunks: Seq<NDimArray<NDimIndexerU<DIM>, DIM, T>>,
    k: int,
    j: int,
) -> Seq<(int, int, int, int, int)> {
    Seq::new(DIM as nat, inner_call_fn(chunks, k, j)).flatten()
}

/// [inner_calls_at] for each position of chunk `k`.
pub open spec fn inner_calls_at_fn<const DIM: usize, T>(
    chunks: Seq<NDimArray<NDimIndexerU<DIM>, DIM, T>>,
    k: int,
) -> spec_fn(int) -> Seq<(int, int, int, int, int)> {
    |j: int| inner_calls_at(chunks, k, j)
}

/// The calls inside chunk `k`, over its positions in order.
pub open spec fn inner_calls_in<const DIM: usize, T>(
    chunks: Seq<NDimArray<NDimIndexerU<DIM>, DIM, T>>,
    k: int,
) -> Seq<(int, int, int, int, int)> {
    Seq::new(radix_prod(lens_of_chunk(chunks, k)) as nat, inner_calls_at_fn(chunks, k)).flatten()
}

/// [inner_calls_in] for each chunk.
pub open spec fn inner_calls_in_fn<const DIM: usize, T>(
    chunks: Seq<NDimArray<NDimIndexerU<DIM>, DIM, T>>,
) -> spec_fn(int) -> Seq<(int, int, int, int, int)> {
    |k: int| inner_calls_in(chunks, k)
}

/// The call across the face between chunk `ka` and the chunk `kb` one step up along `dim`: the
/// value at position `j` of chunk `kb`, if it lies in that chunk's first layer along `dim`, with
/// the value one step down, in the last layer of chunk `ka`.
pub open spec fn cross_call<const DIM: usize, T>(
    chunks: Seq<NDimArray<NDimIndexerU<DIM>, DIM, T>>,
    ka: int,
    kb: int,
    dim: int,
    j: int,
) -> Seq<(int, int, int, int, int)> {
    let la = lens_of_chunk(chunks, ka);
    let cb = radix_digits(j, lens_of_chunk(chunks, kb));
    if cb[dim] == 0 {
        seq![(ka, radix_value(cb.update(dim, la[dim] - 1), la), kb, j, dim)]
    } else {
        Seq::empty()
    }
}

/// [cross_call] for each position of chunk `kb`.
pub open spec fn cross_call_fn<const DIM: usize, T>(
    chunks: Seq<NDimArray<NDimIndexerU<DIM>, DIM, T>>,
    ka: int,
    kb: int,
    dim: int,
) -> spec_fn(int) -> Seq<(int, int, int, int, int)> {
    |j: int| cross_call(chunks, ka, kb, dim, j)
}

/// The calls across the face of chunk `ka` that looks up along `dim`, if a chunk lies there
/// (the chunk grid has lengths `ol`).
pub open spec fn cross_calls_dim<const DIM: usize, T>(
    chunks: Seq<NDimArray<NDimIndexerU<DIM>, DIM, T>>,
    ol: Seq<int>,
    ka: int,
    dim: int,
) -> Seq<(int, int, int, int, int)> {
    let ta = radix_digits(ka, ol);
    if ta[dim] + 1 < ol[dim] {
        let kb = radix_value(ta.update(dim, ta[dim] + 1), ol);
        Seq::new(radix_prod(lens_of_chunk(chunks, kb)) as nat, cross_call_fn(chunks, ka, kb, dim)).flatten()
    } else {
        Seq::empty()
    }
}

/// [cross_calls_dim] for each dimension.
pub open spec fn cross_calls_dim_fn<const DIM: usize, T>(
    chunks: Seq<NDimArray<NDimIndexerU<DIM>, DIM, T>>,
    ol: Seq<int>,
    ka: int,
) -> spec_fn(int) -> Seq<(int, int, int, int, int)> {
    |dim: int| cross_calls_dim(chunks, ol, ka, dim)
}

/// The calls across the upper faces of chunk `ka`, over the dimensions in order.
pub open spec fn cross_calls_at<const DIM: usize, T>(
    chunks: Seq<NDimArray<NDimIndexerU<DIM>, DIM, T>>,
    ol: Seq<int>,
    ka: int,
) -> Seq<(int, int, int, int, int)> {
    Seq::new(DIM as nat, cross_calls_dim_fn(chunks, ol, ka)).flatten()
}

/// [cross_calls_at] for each chunk.
pub open spec fn cross_calls_at_fn<const DIM: usize, T>(
    chunks: Seq<NDimArray<NDimIndexerU<DIM>, DIM, T>>,
    ol: Seq<int>,
) -> spec_fn(int) -> Seq<(int, int, int, int, int)> {
    |ka: int| cross_calls_at(chunks, ol, ka)
}

/// The calls on the pairs of neighbouring values of the chunks, a chunk grid of lengths `ol`,
/// each `(ka, ja, kb, jb, dim)`: value `jb` of chunk `kb` is value `ja` of chunk `ka` one step
/// up along `dim`. First the pairs inside each chunk, chunk by chunk, then the pairs across
/// chunk faces, chunk by chunk.
pub open spec fn pair_calls<const DIM: usize, T>(
    chunks: Seq<NDimArray<NDimIndexerU<DIM>, DIM, T>>,
    ol: Seq<int>,
) -> Seq<(int, int, int, int, int)> {
    Seq::new(chunks.len(), inner_calls_in_fn(chunks)).flatten() + Seq::new(
        chunks.len(),
        cross_calls_at_fn(chunks, ol),
    ).flatten()
}

/// Taking one more entry of `Seq::new` appends its part to the flattening.
pub proof fn lemma_flatten_new_step<A>(n: nat, f: spec_fn(int) -> Seq<A>)
    ensures
        Seq::new(n + 1, f).flatten() == Seq::new(n, f).flatten() + f(n as int),
{
    assert(Seq::new(n + 1, f) =~= Seq::new(n, f).push(f(n as int)));
    Seq::new(n, f).lemma_flatten_push(f(n as int));
}

/// The pairs of one phase inside chunk `k` (the chunk's own [phase_pairs] along `dim` leaving out
/// remainder `rem`), each as `(k, first position, k, second position, dim)`.
pub open spec fn chunk_phase<const DIM: usize, T>(
    chunks: Seq<NDimArray<NDimIndexerU<DIM>, DIM, T>>,
    k: int,
    dim: int,
    rem: int,
) -> Seq<(usize, usize, usize, usize, usize)> {
    phase_pairs::<DIM, NDimIndexerU<DIM>>(
        chunks[k].indexer_view(),
        dim,
        rem,
        chunks[k].indexer_view().ndim_length(),
    ).map_values(|p: (usize, usize, usize)| (k as usize, p.0, k as usize, p.1, p.2))
}

/// [chunk_phase] for each chunk.
pub open spec fn chunk_phase_fn<const DIM: usize, T>(
    chunks: Seq<NDimArray<NDimIndexerU<DIM>, DIM, T>>,
    dim: int,
    rem: int,
) -> spec_fn(int) -> Seq<(usize, usize, usize, usize, usize)> {
    |k: int| chunk_phase(chunks, k, dim, rem)
}

/// One phase of the pairs inside the chunks: [chunk_phase] of every chunk, chunk by chunk.
pub open spec fn inner_phase_of<const DIM: usize, T>(
    chunks: Seq<NDimArray<NDimIndexerU<DIM>, DIM, T>>,
    dim: int,
    rem: int,
) -> Seq<(usize, usize, usize, usize, usize)> {
    Seq::new(chunks.len(), chunk_phase_fn(chunks, dim, rem)).flatten()
}

/// The pair across the face between chunks `ka` and `kb` along `dim` that ends at position `j`
/// of chunk `kb`: there when `j` lies in the first layer of chunk `kb` along `dim` and the
/// position with the same coordinates but the last one of chunk `ka` along `dim` lies in chunk
/// `ka`.
pub open spec fn face_call<const DIM: usize, T>(
    chunks: Seq<NDimArray<NDimIndexerU<DIM>, DIM, T>>,
    ka: int,
    kb: int,
    dim: int,
    j: int,
) -> Seq<(usize, usize, usize, usize, usize)> {
    let la = lens_of_chunk(chunks, ka);
    let cb = radix_digits(j, lens_of_chunk(chunks, kb));
    let ca = cb.update(dim, la[dim] - 1);
    if cb[dim] == 0 && digits_in_range(ca, la) {
        seq![(ka as usize, radix_value(ca, la) as usize, kb as usize, j as usize, dim as usize)]
    } else {
        Seq::empty()
    }
}

/// [face_call] for each position of chunk `kb`.
pub open spec fn face_call_fn<const DIM: usize, T>(
    chunks: Seq<NDimArray<NDimIndexerU<DIM>, DIM, T>>,
    ka: int,
    kb: int,
    dim: int,
) -> spec_fn(int) -> Seq<(usize, usize, usize, usize, usize)> {
    |j: int| face_call(chunks, ka, kb, dim, j)
}

/// The pairs across the face between chunks `ka` and `kb` along `dim`, over the positions of
/// chunk `kb` in order.
pub open spec fn face_calls<const DIM: usize, T>(
    chunks: Seq<NDimArray<NDimIndexerU<DIM>, DIM, T>>,
    ka: int,
    kb: int,
    dim: int,
) -> Seq<(usize, usize, usize, usize, usize)> {
    Seq::new(radix_prod(lens_of_chunk(chunks, kb)) as nat, face_call_fn(chunks, ka, kb, dim)).flatten()
}

/// [face_calls] for each pair of chunks of one phase of the chunk grid `grid`.
pub open spec fn face_calls_fn<const DIM: usize, T>(
    chunks: Seq<NDimArray<NDimIndexerU<DIM>, DIM, T>>,
    grid: NDimIndexerU<DIM>,
    dim: int,
    rem: int,
) -> spec_fn(int) -> Seq<(usize, usize, usize, usize, usize)> {
    |i: int| {
        let cp = phase_pairs::<DIM, NDimIndexerU<DIM>>(grid, dim, rem, grid.ndim_length())[i];
        face_calls(chunks, cp.0 as int, cp.1 as int, dim)
    }
}

/// One phase of the pairs across chunk faces: for each pair of neighbouring chunks of the
/// chunk grid's [phase_pairs] along `dim` leaving out remainder `rem`, in order, the pairs across
/// their face.
pub open spec fn cross_phase_of<const DIM: usize, T>(
    chunks: Seq<NDimArray<NDimIndexerU<DIM>, DIM, T>>,
    grid: NDimIndexerU<DIM>,
    dim: int,
    rem: int,
) -> Seq<(usize, usize, usize, usize, usize)> {
    Seq::new(
        phase_pairs::<DIM, NDimIndexerU<DIM>>(grid, dim, rem, grid.ndim_length()).len(),
        face_calls_fn(chunks, grid, dim, rem),
    ).flatten()
}

/// `a` one step up along dimension `dim`.
pub open spec fn step_up_int(a: Seq<int>, dim: int) -> Seq<int> {
    a.update(dim, a[dim] + 1)
}

/// Where the in-bounds index `b` sits: its chunk's compressed index and its compressed index
/// inside that chunk.
pub open spec fn chunk_order(l: Seq<int>, d: int, ol: Seq<int>, b: Seq<int>) -> (int, int) {
    let tb = Seq::new(b.len(), |i: int| b[i] / d);
    let cb = Seq::new(b.len(), |i: int| b[i] % d);
    (radix_value(tb, ol), radix_value(cb, chunk_lens(l, d, tb)))
}

/// The index `b` comes before position `j` of chunk `k`, chunk after chunk.
pub open spec fn visited_before(l: Seq<int>, d: int, ol: Seq<int>, b: Seq<int>, k: int, j: int) -> bool {
    let o = chunk_order(l, d, ol, b);
    o.0 < k || (o.0 == k && o.1 < j)
}

/// The index made of chunk index `t` and position `c` inside the chunk sits at their compressed
/// forms.
proof fn lemma_chunk_order_of_parts(l: Seq<int>, d: int, ol: Seq<int>, t: Seq<int>, c: Seq<int>, b: Seq<int>)
    requires
        d > 0,
        l.len() == t.len() == c.len() == b.len(),
        forall|i: int| 0 <= i < l.len() ==> 0 <= #[trigger] l[i],
        forall|i: int| 0 <= i < b.len() ==> #[trigger] b[i] == t[i] * d + c[i],
        forall|i: int| 0 <= i < t.len() ==> 0 <= #[trigger] t[i],
        digits_in_range(c, chunk_lens(l, d, t)),
    ensures
        chunk_order(l, d, ol, b) == (radix_value(t, ol), radix_value(c, chunk_lens(l, d, t))),
{
    let tb = Seq::new(b.len(), |i: int| b[i] / d);
    let cb = Seq::new(b.len(), |i: int| b[i] % d);
    assert forall|i: int| 0 <= i < b.len() implies tb[i] == t[i] && cb[i] == c[i] by {
        lemma_chunk_len_le_d(l[i], d, t[i]);
        assert(0 <= c[i] < chunk_lens(l, d, t)[i]);
        vstd::arithmetic::div_mod::lemma_fundamental_div_mod_converse(b[i], d, t[i], c[i]);
    }
    assert(tb =~= t);
    assert(cb =~= c);
}

/// An index inside the bounds sits in a chunk below the chunk count and at a position below the
/// chunk's length; it is the only index sitting there.
proof fn lemma_chunk_order_facts(l: Seq<int>, d: int, b: Seq<int>)
    requires
        d > 0,
        l.len() == b.len(),
        digits_in_range(b, l),
    ensures
        ({
            let tb = Seq::new(b.len(), |i: int| b[i] / d);
            let cb = Seq::new(b.len(), |i: int| b[i] % d);
            &&& digits_in_range(tb, chunk_counts(l, d))
            &&& digits_in_range(cb, chunk_lens(l, d, tb))
            &&& forall|i: int| 0 <= i < b.len() ==> #[trigger] b[i] == tb[i] * d + cb[i]
            &&& 0 <= chunk_order(l, d, chunk_counts(l, d), b).0 < radix_prod(chunk_counts(l, d))
            &&& 0 <= chunk_order(l, d, chunk_counts(l, d), b).1 < radix_prod(chunk_lens(l, d, tb))
            &&& radix_digits(chunk_order(l, d, chunk_counts(l, d), b).0, chunk_counts(l, d)) == tb
            &&& radix_digits(chunk_order(l, d, chunk_counts(l, d), b).1, chunk_lens(l, d, tb)) == cb
        }),
{
    let tb = Seq::new(b.len(), |i: int| b[i] / d);
    let cb = Seq::new(b.len(), |i: int| b[i] % d);
    assert forall|i: int| 0 <= i < b.len() implies 0 <= #[trigger] tb[i] < chunk_counts(l, d)[i]
        && 0 <= cb[i] < chunk_lens(l, d, tb)[i] && b[i] == tb[i] * d + cb[i] by {
        lemma_split_coordinate(b[i], l[i], d);
    }
    lemma_value_bound(tb, chunk_counts(l, d));
    lemma_value_bound(cb, chunk_lens(l, d, tb));
    lemma_value_digits(tb, chunk_counts(l, d));
    lemma_value_digits(cb, chunk_lens(l, d, tb));
}

/// An entry of a flattened sequence of sequences is an entry of one of its parts.
proof fn lemma_flatten_index<A>(ss: Seq<Seq<A>>, x: int) -> (ij: (int, int))
    requires
        0 <= x < ss.flatten().len(),
    ensures
        0 <= ij.0 < ss.len(),
        0 <= ij.1 < ss[ij.0].len(),
        ss.flatten()[x] == ss[ij.0][ij.1],
        x == ss.take(ij.0).flatten().len() + ij.1,
    decreases ss.len(),
{
    if ss.len() == 0 {
        assert(ss.flatten().len() == 0);
        (0, 0)
    } else if x < ss[0].len() {
        assert(ss.take(0) =~= Seq::<Seq<A>>::empty());
        (0, x)
    } else {
        let r = lemma_flatten_index(ss.drop_first(), x - ss[0].len());
        let t = ss.take(r.0 + 1);
        assert(t[0] == ss[0]);
        assert(t.drop_first() =~= ss.drop_first().take(r.0));
        (r.0 + 1, r.1)
    }
}

/// Every entry of every part of a sequence of sequences is an entry of its flattening.
proof fn lemma_flatten_has<A>(ss: Seq<Seq<A>>, i: int, j: int) -> (x: int)
    requires
        0 <= i < ss.len(),
        0 <= j < ss[i].len(),
    ensures
        0 <= x < ss.flatten().len(),
        ss.flatten()[x] == ss[i][j],
    decreases ss.len(),
{
    if i == 0 {
        j
    } else {
        let r = lemma_flatten_has(ss.drop_first(), i - 1, j);
        r + ss[0].len()
    }
}

/// Adding the place value of digit `dim` to `j`, where that digit is not the last of its radix,
/// raises that digit by one and leaves the others.
proof fn lemma_digits_step(j: int, r: Seq<int>, dim: int)
    requires
        all_positive(r),
        0 <= j < radix_prod(r),
        0 <= dim < r.len(),
        radix_digits(j, r)[dim] + 1 < r[dim],
    ensures
        0 <= j + radix_prod(r.take(dim)) < radix_prod(r),
        radix_digits(j + radix_prod(r.take(dim)), r) == radix_digits(j, r).update(
            dim,
            radix_digits(j, r)[dim] + 1,
        ),
{
    let c = radix_digits(j, r);
    lemma_digits_value(j, r);
    crate::structures::n_dim_index_u::lemma_digits_len(j, r);
    let c2 = c.update(dim, c[dim] + 1);
    crate::structures::n_dim_index_operator::lemma_value_update(c, r, dim, c[dim] + 1);
    let p = radix_prod(r.take(dim));
    assert(p * (c[dim] + 1 - c[dim]) == p) by (nonlinear_arith);
    assert(digits_in_range(c2, r));
    lemma_value_bound(c2, r);
    lemma_value_digits(c2, r);
}

/// `e` read as integers.
pub open spec fn call_of_usizes(e: (usize, usize, usize, usize, usize)) -> (int, int, int, int, int) {
    (e.0 as int, e.1 as int, e.2 as int, e.3 as int, e.4 as int)
}

impl<const DIM: usize, T> NDimChunkArray<DIM, T> {
    /// `(ka, ja, kb, jb, dim)` names two stored values, position `ja` of chunk `ka` and position
    /// `jb` of chunk `kb`, at neighbouring indexes: the second index is the first one step up
    /// along `dim`.
    pub open spec fn is_neighbour_call(&self, e: (int, int, int, int, int)) -> bool {
        let cs = self.chunks_view();
        &&& 0 <= e.4 < DIM
        &&& 0 <= e.0 < cs.len()
        &&& 0 <= e.1 < cs[e.0].values_view().len()
        &&& 0 <= e.2 < cs.len()
        &&& 0 <= e.3 < cs[e.2].values_view().len()
        &&& self.index_of_position(e.2, e.3) == step_up_int(self.index_of_position(e.0, e.1), e.4)
    }

    /// Chunk `k` sits at chunk index `radix_digits(k, ol)`, has that chunk index's lengths, all
    /// positive, and one value per position.
    proof fn lemma_chunk_facts(&self, k: int)
        requires
            self.wf(),
            0 <= k < self.chunks_view().len(),
        ensures
            ({
                let l = self.lens_view();
                let d = self.dim_elem_count_view();
                let ol = chunk_counts(l, d);
                let tk = radix_digits(k, ol);
                &&& d > 0
                &&& l.len() == DIM
                &&& ol.len() == DIM
                &&& all_positive(ol)
                &&& self.values.indexer_view().lens_view() == ol
                &&& self.chunks_view().len() == radix_prod(ol)
                &&& tk.len() == DIM
                &&& digits_in_range(tk, ol)
                &&& radix_value(tk, ol) == k
                &&& self.chunks_view()[k].wf()
                &&& lens_of_chunk(self.chunks_view(), k) == chunk_lens(l, d, tk)
                &&& all_positive(chunk_lens(l, d, tk))
                &&& self.chunks_view()[k].values_view().len() == radix_prod(chunk_lens(l, d, tk))
                &&& self.chunks_view()[k].values_view().len() <= usize::MAX
            }),
    {
        let l = self.lens_view();
        let d = self.dim_elem_count_view();
        let ol = chunk_counts(l, d);
        let outer = self.values.indexer_view();
        outer.lemma_length();
        assert(self.values.wf());
        crate::structures::n_dim_index::lemma_positive_of_positive_prod(ol);
        lemma_digits_value(k, ol);
        crate::structures::n_dim_index_u::lemma_digits_len(k, ol);
        let tk = radix_digits(k, ol);
        let ch = self.chunks_view()[k];
        assert(ch.wf());
        ch.indexer_view().lemma_length();
        let cl = chunk_lens(l, d, tk);
        assert forall|i: int| 0 <= i < cl.len() implies #[trigger] cl[i] > 0 by {
            assert(0 <= tk[i] < ol[i]);
            if tk[i] == l[i] / d {
                assert(l[i] % d > 0);
            }
        }
    }

    /// Two positions of chunk `k` whose digits differ by one step up along `dim` hold values at
    /// neighbouring indexes.
    proof fn lemma_inner_neighbour(&self, k: int, j: int, j2: int, dim: int)
        requires
            self.wf(),
            0 <= k < self.chunks_view().len(),
            0 <= dim < DIM,
            0 <= j < self.chunks_view()[k].values_view().len(),
            0 <= j2 < self.chunks_view()[k].values_view().len(),
            radix_digits(j2, lens_of_chunk(self.chunks_view(), k)) == radix_digits(
                j,
                lens_of_chunk(self.chunks_view(), k),
            ).update(dim, radix_digits(j, lens_of_chunk(self.chunks_view(), k))[dim] + 1),
        ensures
            self.is_neighbour_call((k, j, k, j2, dim)),
    {
        self.lemma_chunk_facts(k);
        let l = self.lens_view();
        let d = self.dim_elem_count_view();
        let ol = chunk_counts(l, d);
        let tk = radix_digits(k, ol);
        let cl = chunk_lens(l, d, tk);
        crate::structures::n_dim_index_u::lemma_digits_len(j, cl);
        crate::structures::n_dim_index_u::lemma_digits_len(j2, cl);
        let a = self.index_of_position(k, j);
        let b = self.index_of_position(k, j2);
        assert(b =~= step_up_int(a, dim));
    }

    /// Position `j` of chunk `kb`, in its first layer along `dim`, and the position with the same
    /// digits but the last one along `dim` of chunk `ka`, the chunk one step down along `dim`, hold
    /// values at neighbouring indexes.
    proof fn lemma_cross_neighbour(&self, ka: int, kb: int, dim: int, j: int)
        requires
            self.wf(),
            0 <= ka < self.chunks_view().len(),
            0 <= kb < self.chunks_view().len(),
            0 <= dim < DIM,
            radix_digits(kb, chunk_counts(self.lens_view(), self.dim_elem_count_view())) == radix_digits(
                ka,
                chunk_counts(self.lens_view(), self.dim_elem_count_view()),
            ).update(
                dim,
                radix_digits(ka, chunk_counts(self.lens_view(), self.dim_elem_count_view()))[dim] + 1,
            ),
            0 <= j < self.chunks_view()[kb].values_view().len(),
            radix_digits(j, lens_of_chunk(self.chunks_view(), kb))[dim] == 0,
        ensures
            ({
                let la = lens_of_chunk(self.chunks_view(), ka);
                let ca = radix_digits(j, lens_of_chunk(self.chunks_view(), kb)).update(dim, la[dim] - 1);
                &&& la[dim] == self.dim_elem_count_view()
                &&& digits_in_range(ca, la)
                &&& self.is_neighbour_call((ka, radix_value(ca, la), kb, j, dim))
            }),
    {
        self.lemma_chunk_facts(ka);
        self.lemma_chunk_facts(kb);
        let l = self.lens_view();
        let d = self.dim_elem_count_view();
        let ol = chunk_counts(l, d);
        let ta = radix_digits(ka, ol);
        let tb = radix_digits(kb, ol);
        let la = chunk_lens(l, d, ta);
        let lb = chunk_lens(l, d, tb);
        assert(tb[dim] == ta[dim] + 1);
        assert(tb[dim] < ol[dim]);
        assert(ta[dim] != l[dim] / d);
        assert(la[dim] == d);
        lemma_digits_value(j, lb);
        crate::structures::n_dim_index_u::lemma_digits_len(j, lb);
        let cb = radix_digits(j, lb);
        let ca = cb.update(dim, la[dim] - 1);
        assert forall|i: int| 0 <= i < DIM implies 0 <= #[trigger] ca[i] < la[i] by {
            if i != dim {
                assert(ta[i] == tb[i]);
                assert(la[i] == lb[i]);
                assert(0 <= cb[i] < lb[i]);
            }
        }
        assert(digits_in_range(ca, la));
        lemma_value_bound(ca, la);
        lemma_value_digits(ca, la);
        let ja = radix_value(ca, la);
        let a = self.index_of_position(ka, ja);
        let b = self.index_of_position(kb, j);
        assert(a == merge_index(ta, ca, d));
        assert(b == merge_index(tb, cb, d));
        assert((ta[dim] + 1) * d == ta[dim] * d + d) by (nonlinear_arith);
        assert(b =~= step_up_int(a, dim));
    }
}

impl<const DIM: usize, T> NDimChunkArray<DIM, T> {
    /// Every call inside the chunks names two values at neighbouring indexes.
    proof fn lemma_inner_calls_neighbours(&self)
        requires
            self.wf(),
        ensures
            ({
                let cs = self.chunks_view();
                let calls = Seq::new(cs.len(), inner_calls_in_fn(cs)).flatten();
                forall|x: int| 0 <= x < calls.len() ==> self.is_neighbour_call(#[trigger] calls[x])
            }),
    {
        let cs = self.chunks_view();
        let parts = Seq::new(cs.len(), inner_calls_in_fn(cs));
        let calls = parts.flatten();
        assert forall|x: int| 0 <= x < calls.len() implies self.is_neighbour_call(
            #[trigger] calls[x],
        ) by {
            let (k, y) = lemma_flatten_index(parts, x);
            self.lemma_chunk_facts(k);
            let lens = lens_of_chunk(cs, k);
            let at = Seq::new(radix_prod(lens) as nat, inner_calls_at_fn(cs, k));
            assert(parts[k] == at.flatten());
            let (j, z) = lemma_flatten_index(at, y);
            let per_dim = Seq::new(DIM as nat, inner_call_fn(cs, k, j));
            assert(at[j] == per_dim.flatten());
            let (dim, w) = lemma_flatten_index(per_dim, z);
            let c = radix_digits(j, lens);
            assert(per_dim[dim] == inner_call(cs, k, j, dim));
            assert(c[dim] + 1 < lens[dim]);
            assert(w == 0);
            lemma_digits_step(j, lens, dim);
            self.lemma_inner_neighbour(k, j, j + radix_prod(lens.take(dim)), dim);
        }
    }

    /// Every call across chunk faces names two values at neighbouring indexes.
    proof fn lemma_cross_calls_neighbours(&self)
        requires
            self.wf(),
        ensures
            ({
                let cs = self.chunks_view();
                let ol = chunk_counts(self.lens_view(), self.dim_elem_count_view());
                let calls = Seq::new(cs.len(), cross_calls_at_fn(cs, ol)).flatten();
                forall|x: int| 0 <= x < calls.len() ==> self.is_neighbour_call(#[trigger] calls[x])
            }),
    {
        let cs = self.chunks_view();
        let ol = chunk_counts(self.lens_view(), self.dim_elem_count_view());
        let parts = Seq::new(cs.len(), cross_calls_at_fn(cs, ol));
        let calls = parts.flatten();
        assert forall|x: int| 0 <= x < calls.len() implies self.is_neighbour_call(
            #[trigger] calls[x],
        ) by {
            let (ka, y) = lemma_flatten_index(parts, x);
            self.lemma_chunk_facts(ka);
            let per_dim = Seq::new(DIM as nat, cross_calls_dim_fn(cs, ol, ka));
            assert(parts[ka] == per_dim.flatten());
            let (dim, z) = lemma_flatten_index(per_dim, y);
            assert(per_dim[dim] == cross_calls_dim(cs, ol, ka, dim));
            let ta = radix_digits(ka, ol);
            assert(ta[dim] + 1 < ol[dim]);
            let tb = ta.update(dim, ta[dim] + 1);
            assert(digits_in_range(tb, ol));
            lemma_value_bound(tb, ol);
            lemma_value_digits(tb, ol);
            let kb = radix_value(tb, ol);
            self.lemma_chunk_facts(kb);
            let at = Seq::new(radix_prod(lens_of_chunk(cs, kb)) as nat, cross_call_fn(cs, ka, kb, dim));
            assert(per_dim[dim] == at.flatten());
            let (j, w) = lemma_flatten_index(at, z);
            assert(at[j] == cross_call(cs, ka, kb, dim, j));
            assert(radix_digits(j, lens_of_chunk(cs, kb))[dim] == 0);
            assert(w == 0);
            self.lemma_cross_neighbour(ka, kb, dim, j);
        }
    }

    /// Every call of [pair_calls], the calls [Self::iter_pair] and [Self::iter_pair_mut] make, names
    /// two stored values at neighbouring indexes, the second one step up from the first along the
    /// call's dimension.
    pub proof fn lemma_pair_calls_neighbours(&self)
        requires
            self.wf(),
        ensures
            ({
                let calls = pair_calls(
                    self.chunks_view(),
                    chunk_counts(self.lens_view(), self.dim_elem_count_view()),
                );
                forall|x: int| 0 <= x < calls.len() ==> self.is_neighbour_call(#[trigger] calls[x])
            }),
    {
        let cs = self.chunks_view();
        let ol = chunk_counts(self.lens_view(), self.dim_elem_count_view());
        let inner = Seq::new(cs.len(), inner_calls_in_fn(cs)).flatten();
        let cross = Seq::new(cs.len(), cross_calls_at_fn(cs, ol)).flatten();
        self.lemma_inner_calls_neighbours();
        self.lemma_cross_calls_neighbours();
        let calls = pair_calls(cs, ol);
        assert forall|x: int| 0 <= x < calls.len() implies self.is_neighbour_call(
            #[trigger] calls[x],
        ) by {
            if x < inner.len() {
                assert(calls[x] == inner[x]);
            } else {
                assert(calls[x] == cross[x - inner.len()]);
            }
        }
    }
}

impl<const DIM: usize, T> NDimChunkArray<DIM, T> {
    /// Every pair of neighbouring indexes inside the bounds, an index and the index one step up
    /// along a dimension, is visited by a call of [pair_calls] that starts at that index along
    /// that dimension.
    pub proof fn lemma_pair_calls_cover(&self)
        requires
            self.wf(),
        ensures
            ({
                let calls = pair_calls(
                    self.chunks_view(),
                    chunk_counts(self.lens_view(), self.dim_elem_count_view()),
                );
                forall|a: Seq<int>, dim: int|
                    a.len() == DIM && 0 <= dim < DIM && self.in_bounds(a) && self.in_bounds(
                        #[trigger] step_up_int(a, dim),
                    ) ==> exists|x: int|
                        0 <= x < calls.len() && calls[x].4 == dim && self.index_of_position(
                            #[trigger] calls[x].0,
                            calls[x].1,
                        ) == a
            }),
    {
        let cs = self.chunks_view();
        let l = self.lens_view();
        let d = self.dim_elem_count_view();
        let ol = chunk_counts(l, d);
        let calls = pair_calls(cs, ol);
        let inner_parts = Seq::new(cs.len(), inner_calls_in_fn(cs));
        let cross_parts = Seq::new(cs.len(), cross_calls_at_fn(cs, ol));
        self.lemma_iter_covers();
        self.lemma_pair_calls_neighbours();
        assert forall|a: Seq<int>, dim: int|
            a.len() == DIM && 0 <= dim < DIM && self.in_bounds(a) && self.in_bounds(
                #[trigger] step_up_int(a, dim),
            ) implies exists|x: int|
            0 <= x < calls.len() && calls[x].4 == dim && self.index_of_position(
                #[trigger] calls[x].0,
                calls[x].1,
            ) == a by {
            let x = self.lemma_pair_call_at(a, dim);
        }
    }

    /// The position in [pair_calls] of the call on `a` and `a` one step up along `dim`.
    proof fn lemma_pair_call_at(&self, a: Seq<int>, dim: int) -> (x: int)
        requires
            self.wf(),
            a.len() == DIM,
            0 <= dim < DIM,
            self.in_bounds(a),
            self.in_bounds(step_up_int(a, dim)),
        ensures
            ({
                let calls = pair_calls(
                    self.chunks_view(),
                    chunk_counts(self.lens_view(), self.dim_elem_count_view()),
                );
                &&& 0 <= x < calls.len()
                &&& calls[x].4 == dim
                &&& self.index_of_position(calls[x].0, calls[x].1) == a
            }),
    {
        let cs = self.chunks_view();
        let l = self.lens_view();
        let d = self.dim_elem_count_view();
        let ol = chunk_counts(l, d);
        let calls = pair_calls(cs, ol);
        let inner_parts = Seq::new(cs.len(), inner_calls_in_fn(cs));
        let cross_parts = Seq::new(cs.len(), cross_calls_at_fn(cs, ol));
        let inner = inner_parts.flatten();
        self.lemma_iter_covers();
        self.lemma_pair_calls_neighbours();
        let b = step_up_int(a, dim);
        assert(b.len() == DIM);
        let (ka, ja) = chunk_order(l, d, ol, a);
        lemma_chunk_order_facts(l, d, a);
        self.lemma_chunk_facts(ka);
        let ta = Seq::new(a.len(), |i: int| a[i] / d);
        let ca = Seq::new(a.len(), |i: int| a[i] % d);
        let cl = chunk_lens(l, d, ta);
        assert(lens_of_chunk(cs, ka) == cl);
        if ca[dim] + 1 < cl[dim] {
            let per_dim = Seq::new(DIM as nat, inner_call_fn(cs, ka, ja));
            assert(per_dim[dim] == inner_call(cs, ka, ja, dim));
            assert(per_dim[dim].len() == 1);
            let x1 = lemma_flatten_has(per_dim, dim, 0);
            let at = Seq::new(radix_prod(cl) as nat, inner_calls_at_fn(cs, ka));
            assert(at[ja] == per_dim.flatten());
            let x2 = lemma_flatten_has(at, ja, x1);
            assert(inner_parts[ka] == at.flatten());
            let x3 = lemma_flatten_has(inner_parts, ka, x2);
            assert(calls[x3] == inner[x3]);
            assert(calls[x3] == (ka, ja, ka, ja + radix_prod(cl.take(dim)), dim));
            x3
        } else {
            lemma_chunk_order_facts(l, d, b);
            let (kb, jb) = chunk_order(l, d, ol, b);
            let tb = Seq::new(b.len(), |i: int| b[i] / d);
            let cb = Seq::new(b.len(), |i: int| b[i] % d);
            assert(0 <= ca[dim] < cl[dim]);
            assert(ca[dim] == cl[dim] - 1);
            assert(a[dim] == ta[dim] * d + ca[dim]);
            if ta[dim] == l[dim] / d {
                vstd::arithmetic::div_mod::lemma_fundamental_div_mod(l[dim], d);
                assert(l[dim] == ta[dim] * d + l[dim] % d) by (nonlinear_arith)
                    requires
                        l[dim] == d * (l[dim] / d) + l[dim] % d,
                        ta[dim] == l[dim] / d,
                ;
                assert(b[dim] == l[dim]);
                assert(false);
            }
            assert(cl[dim] == d);
            assert(b[dim] == (ta[dim] + 1) * d + 0) by (nonlinear_arith)
                requires
                    b[dim] == a[dim] + 1,
                    a[dim] == ta[dim] * d + (d - 1),
            ;
            vstd::arithmetic::div_mod::lemma_fundamental_div_mod_converse(b[dim], d, ta[dim] + 1, 0);
            assert(tb =~= ta.update(dim, ta[dim] + 1));
            assert(radix_digits(ka, ol) == ta);
            assert(radix_digits(kb, ol) == tb);
            self.lemma_chunk_facts(kb);
            assert(lens_of_chunk(cs, kb) == chunk_lens(l, d, tb));
            assert(cb[dim] == 0);
            let per_dim = Seq::new(DIM as nat, cross_calls_dim_fn(cs, ol, ka));
            assert(per_dim[dim] == cross_calls_dim(cs, ol, ka, dim));
            assert(ta[dim] + 1 < ol[dim]);
            assert(radix_value(ta.update(dim, ta[dim] + 1), ol) == kb);
            let at = Seq::new(radix_prod(lens_of_chunk(cs, kb)) as nat, cross_call_fn(cs, ka, kb, dim));
            assert(per_dim[dim] == at.flatten());
            assert(at[jb] == cross_call(cs, ka, kb, dim, jb));
            assert(radix_digits(jb, lens_of_chunk(cs, kb)) == cb);
            assert(at[jb].len() == 1);
            let x1 = lemma_flatten_has(at, jb, 0);
            let x2 = lemma_flatten_has(per_dim, dim, x1);
            assert(cross_parts[ka] == per_dim.flatten());
            let x3 = lemma_flatten_has(cross_parts, ka, x2);
            let x = inner.len() + x3;
            assert(calls[x] == cross_parts.flatten()[x3]);
            let e = calls[x];
            assert(self.is_neighbour_call(e));
            assert(e.2 == kb && e.3 == jb && e.4 == dim);
            assert(self.index_of_position(kb, jb) == b);
            let p = self.index_of_position(e.0, e.1);
            assert(p =~= a) by {
                assert(step_up_int(p, dim) == b);
                assert forall|i: int| 0 <= i < DIM implies p[i] == a[i] by {
                    assert(step_up_int(p, dim)[i] == b[i]);
                }
            }
            x
        }
    }
}

/// Where the call inside chunk `k` from position `j` along `dim` stands among the calls inside
/// the chunks.
spec fn inner_pos<const DIM: usize, T>(
    cs: Seq<NDimArray<NDimIndexerU<DIM>, DIM, T>>,
    k: int,
    j: int,
    dim: int,
) -> int {
    Seq::new(cs.len(), inner_calls_in_fn(cs)).take(k).flatten().len() + Seq::new(
        radix_prod(lens_of_chunk(cs, k)) as nat,
        inner_calls_at_fn(cs, k),
    ).take(j).flatten().len() + Seq::new(DIM as nat, inner_call_fn(cs, k, j)).take(dim).flatten().len()
        as int
}

/// Where the call across the face of chunk `ka` along `dim` that ends at position `jb` stands
/// among the calls across chunk faces.
spec fn cross_pos<const DIM: usize, T>(
    cs: Seq<NDimArray<NDimIndexerU<DIM>, DIM, T>>,
    ol: Seq<int>,
    ka: int,
    dim: int,
    jb: int,
) -> int {
    let ta = radix_digits(ka, ol);
    let kb = radix_value(ta.update(dim, ta[dim] + 1), ol);
    Seq::new(cs.len(), cross_calls_at_fn(cs, ol)).take(ka).flatten().len() + Seq::new(
        DIM as nat,
        cross_calls_dim_fn(cs, ol, ka),
    ).take(dim).flatten().len() + Seq::new(
        radix_prod(lens_of_chunk(cs, kb)) as nat,
        cross_call_fn(cs, ka, kb, dim),
    ).take(jb).flatten().len() as int
}

impl<const DIM: usize, T> NDimChunkArray<DIM, T> {
    /// Each call inside the chunks stays in one chunk and stands where its chunk, first
    /// position and dimension put it.
    proof fn lemma_inner_calls_pos(&self)
        requires
            self.wf(),
        ensures
            ({
                let cs = self.chunks_view();
                let calls = Seq::new(cs.len(), inner_calls_in_fn(cs)).flatten();
                forall|x: int|
                    0 <= x < calls.len() ==> (#[trigger] calls[x]).2 == calls[x].0 && x == inner_pos(
                        cs,
                        calls[x].0,
                        calls[x].1,
                        calls[x].4,
                    )
            }),
    {
        let cs = self.chunks_view();
        let parts = Seq::new(cs.len(), inner_calls_in_fn(cs));
        let calls = parts.flatten();
        assert forall|x: int| 0 <= x < calls.len() implies (#[trigger] calls[x]).2 == calls[x].0
            && x == inner_pos(cs, calls[x].0, calls[x].1, calls[x].4) by {
            let (k, y) = lemma_flatten_index(parts, x);
            let lens = lens_of_chunk(cs, k);
            let at = Seq::new(radix_prod(lens) as nat, inner_calls_at_fn(cs, k));
            assert(parts[k] == at.flatten());
            let (j, z) = lemma_flatten_index(at, y);
            let per_dim = Seq::new(DIM as nat, inner_call_fn(cs, k, j));
            assert(at[j] == per_dim.flatten());
            let (dim, w) = lemma_flatten_index(per_dim, z);
            assert(per_dim[dim] == inner_call(cs, k, j, dim));
            assert(w == 0);
        }
    }

    /// Each call across chunk faces joins two different chunks and stands where its first
    /// chunk, dimension and second position put it.
    proof fn lemma_cross_calls_pos(&self)
        requires
            self.wf(),
        ensures
            ({
                let cs = self.chunks_view();
                let ol = chunk_counts(self.lens_view(), self.dim_elem_count_view());
                let calls = Seq::new(cs.len(), cross_calls_at_fn(cs, ol)).flatten();
                forall|x: int|
                    0 <= x < calls.len() ==> (#[trigger] calls[x]).2 != calls[x].0 && x == cross_pos(
                        cs,
                        ol,
                        calls[x].0,
                        calls[x].4,
                        calls[x].3,
                    )
            }),
    {
        let cs = self.chunks_view();
        let ol = chunk_counts(self.lens_view(), self.dim_elem_count_view());
        let parts = Seq::new(cs.len(), cross_calls_at_fn(cs, ol));
        let calls = parts.flatten();
        assert forall|x: int| 0 <= x < calls.len() implies (#[trigger] calls[x]).2 != calls[x].0
            && x == cross_pos(cs, ol, calls[x].0, calls[x].4, calls[x].3) by {
            let (ka, y) = lemma_flatten_index(parts, x);
            self.lemma_chunk_facts(ka);
            let per_dim = Seq::new(DIM as nat, cross_calls_dim_fn(cs, ol, ka));
            assert(parts[ka] == per_dim.flatten());
            let (dim, z) = lemma_flatten_index(per_dim, y);
            assert(per_dim[dim] == cross_calls_dim(cs, ol, ka, dim));
            let ta = radix_digits(ka, ol);
            assert(ta[dim] + 1 < ol[dim]);
            let tb = ta.update(dim, ta[dim] + 1);
            assert(digits_in_range(tb, ol));
            lemma_value_digits(tb, ol);
            let kb = radix_value(tb, ol);
            let at = Seq::new(radix_prod(lens_of_chunk(cs, kb)) as nat, cross_call_fn(cs, ka, kb, dim));
            assert(per_dim[dim] == at.flatten());
            let (j, w) = lemma_flatten_index(at, z);
            assert(at[j] == cross_call(cs, ka, kb, dim, j));
            assert(w == 0);
            assert(radix_digits(kb, ol) != ta) by {
                assert(radix_digits(kb, ol)[dim] != ta[dim]);
            }
        }
    }

    /// No pair of neighbouring indexes is visited twice: two calls of [pair_calls] that start at
    /// the same index along the same dimension are the same call.
    pub proof fn lemma_pair_calls_once(&self)
        requires
            self.wf(),
        ensures
            ({
                let calls = pair_calls(
                    self.chunks_view(),
                    chunk_counts(self.lens_view(), self.dim_elem_count_view()),
                );
                forall|x: int, y: int|
                    0 <= x < calls.len() && 0 <= y < calls.len() && (#[trigger] calls[x]).4
                        == (#[trigger] calls[y]).4 && self.index_of_position(calls[x].0, calls[x].1)
                        == self.index_of_position(calls[y].0, calls[y].1) ==> x == y
            }),
    {
        let cs = self.chunks_view();
        let l = self.lens_view();
        let d = self.dim_elem_count_view();
        let ol = chunk_counts(l, d);
        let calls = pair_calls(cs, ol);
        let inner = Seq::new(cs.len(), inner_calls_in_fn(cs)).flatten();
        let cross = Seq::new(cs.len(), cross_calls_at_fn(cs, ol)).flatten();
        self.lemma_iter_covers();
        self.lemma_pair_calls_neighbours();
        self.lemma_inner_calls_pos();
        self.lemma_cross_calls_pos();
        assert forall|x: int, y: int|
            0 <= x < calls.len() && 0 <= y < calls.len() && (#[trigger] calls[x]).4
                == (#[trigger] calls[y]).4 && self.index_of_position(calls[x].0, calls[x].1)
                == self.index_of_position(calls[y].0, calls[y].1) implies x == y by {
            let ex = calls[x];
            let ey = calls[y];
            assert(self.is_neighbour_call(ex));
            assert(self.is_neighbour_call(ey));
            let vs = chunk_values(cs);
            assert(vs[ex.0].len() == cs[ex.0].values_view().len());
            assert(vs[ey.0].len() == cs[ey.0].values_view().len());
            assert(vs[ex.2].len() == cs[ex.2].values_view().len());
            assert(vs[ey.2].len() == cs[ey.2].values_view().len());
            let pa = self.index_of_position(ex.0, ex.1);
            assert(chunk_order(l, d, ol, self.index_of_position(ex.0, ex.1)) == (ex.0, ex.1));
            assert(chunk_order(l, d, ol, self.index_of_position(ey.0, ey.1)) == (ey.0, ey.1));
            assert(chunk_order(l, d, ol, self.index_of_position(ex.2, ex.3)) == (ex.2, ex.3));
            assert(chunk_order(l, d, ol, self.index_of_position(ey.2, ey.3)) == (ey.2, ey.3));
            assert(ex.0 == ey.0 && ex.1 == ey.1);
            assert(ex.2 == ey.2 && ex.3 == ey.3);
            if x < inner.len() {
                assert(ex == inner[x]);
                if y < inner.len() {
                    assert(ey == inner[y]);
                } else {
                    assert(ey == cross[y - inner.len()]);
                }
            } else {
                assert(ex == cross[x - inner.len()]);
                if y < inner.len() {
                    assert(ey == inner[y]);
                } else {
                    assert(ey == cross[y - inner.len()]);
                }
            }
        }
    }
}

/// `func` was called on the two values that call `e` names, with the call's dimension.
pub open spec fn called_on<const DIM: usize, T, F: Fn(&T, &T, usize)>(
    func: F,
    cs: Seq<NDimArray<NDimIndexerU<DIM>, DIM, T>>,
    e: (int, int, int, int, int),
) -> bool {
    call_ensures(func, (&cs[e.0].values_view()[e.1], &cs[e.2].values_view()[e.3], e.4 as usize), ())
}

impl<const DIM: usize, T> NDimChunkArray<DIM, T> {
    /// Where `func` was called on every call of [pair_calls], it was called on every pair of
    /// neighbouring values inside the bounds, the value at an index and the value one step up
    /// along a dimension, with that dimension.
    proof fn lemma_called_on_neighbours<F: Fn(&T, &T, usize)>(&self, func: F)
        requires
            self.wf(),
            forall|x: int|
                0 <= x < pair_calls(
                    self.chunks_view(),
                    chunk_counts(self.lens_view(), self.dim_elem_count_view()),
                ).len() ==> called_on(
                    func,
                    self.chunks_view(),
                    #[trigger] pair_calls(
                        self.chunks_view(),
                        chunk_counts(self.lens_view(), self.dim_elem_count_view()),
                    )[x],
                ),
        ensures
            forall|a: Seq<int>, dim: int|
                0 <= dim < DIM && self.in_bounds(a) && self.in_bounds(#[trigger] step_up_int(a, dim))
                    ==> call_ensures(
                    func,
                    (&self.value_at(a), &self.value_at(step_up_int(a, dim)), dim as usize),
                    (),
                ),
    {
        let cs = self.chunks_view();
        let calls = pair_calls(cs, chunk_counts(self.lens_view(), self.dim_elem_count_view()));
        self.lemma_iter_covers();
        self.lemma_pair_calls_neighbours();
        assert forall|a: Seq<int>, dim: int|
            0 <= dim < DIM && self.in_bounds(a) && self.in_bounds(#[trigger] step_up_int(a, dim))
                implies call_ensures(
                func,
                (&self.value_at(a), &self.value_at(step_up_int(a, dim)), dim as usize),
                (),
            ) by {
            assert(a.len() == DIM);
            let x = self.lemma_pair_call_at(a, dim);
            let e = calls[x];
            assert(called_on(func, cs, e));
            assert(self.is_neighbour_call(e));
            let vs = chunk_values(cs);
            assert(vs[e.0] == cs[e.0].values_view());
            assert(vs[e.2] == cs[e.2].values_view());
            assert(cs[e.0].values_view()[e.1] == self.value_at(a));
            assert(self.index_of_position(e.2, e.3) == step_up_int(a, dim));
            assert(cs[e.2].values_view()[e.3] == self.value_at(step_up_int(a, dim)));
        }
    }
}

/// A pair of one phase of an unsigned indexer joins two compressed indexes whose digits differ by
/// one step up along the phase's dimension.
proof fn lemma_u_phase_pair<const DIM: usize>(
    idx: NDimIndexerU<DIM>,
    dim: int,
    rem: int,
    pair: (usize, usize, usize),
)
    requires
        idx.ndim_wf(),
        0 <= dim < DIM,
        pair.0 < idx.ndim_length(),
        crate::structures::n_dim_array::phase_pair_ok::<DIM, NDimIndexerU<DIM>>(idx, dim, rem, pair),
    ensures
        all_positive(idx.lens_view()),
        pair.1 < idx.length_view(),
        pair.2 == dim,
        radix_digits(pair.0 as int, idx.lens_view())[dim] + 1 < idx.lens_view()[dim],
        radix_digits(pair.1 as int, idx.lens_view()) == radix_digits(
            pair.0 as int,
            idx.lens_view(),
        ).update(dim, radix_digits(pair.0 as int, idx.lens_view())[dim] + 1),
        radix_digits(pair.0 as int, idx.lens_view())[dim] % 2 != rem,
{
    let lens = idx.lens_view();
    idx.lemma_length();
    crate::structures::n_dim_index::lemma_positive_of_positive_prod(lens);
    lemma_digits_value(pair.0 as int, lens);
    crate::structures::n_dim_index_u::lemma_digits_len(pair.0 as int, lens);
    let c = radix_digits(pair.0 as int, lens);
    let p = crate::structures::n_dim_array::decompressed::<DIM, NDimIndexerU<DIM>>(idx, pair.0 as int);
    let q = crate::structures::n_dim_array::step_up(p, dim);
    let c2 = c.update(dim, c[dim] + 1);
    let lr = idx.ndim_lens();
    assert forall|i: int| 0 <= i < DIM implies #[trigger] ints_of_isize(q)[i] == c2[i] && 0 <= c2[i]
        < lens[i] by {
        assert(0 <= c[i] < lens[i]);
        assert(lens[i] <= isize::MAX);
        assert(p[i] == c[i] as isize);
        assert(lr[i].start <= q[i] < lr[i].end);
    }
    assert(ints_of_isize(q) =~= c2);
    assert(ints_of_isize(q)[dim] == c2[dim] && 0 <= c2[dim] < lens[dim]);
    assert(p[dim] as int == c[dim]);
    assert(digits_in_range(c2, lens));
    lemma_value_bound(c2, lens);
    lemma_value_digits(c2, lens);
}

/// A compressed index of an unsigned indexer whose digit along `dim` is not the last one, and
/// whose remainder by 2 there is not `rem`, starts a pair of the phase that leaves out `rem`.
proof fn lemma_u_phase_index<const DIM: usize>(idx: NDimIndexerU<DIM>, dim: int, rem: int, c: int)
    requires
        idx.ndim_wf(),
        0 <= dim < DIM,
        0 <= c < idx.ndim_length(),
        radix_digits(c, idx.lens_view())[dim] + 1 < idx.lens_view()[dim],
        radix_digits(c, idx.lens_view())[dim] % 2 != rem,
    ensures
        crate::structures::n_dim_array::phase_index_ok::<DIM, NDimIndexerU<DIM>>(idx, dim, rem, c),
{
    let lens = idx.lens_view();
    idx.lemma_length();
    crate::structures::n_dim_index::lemma_positive_of_positive_prod(lens);
    lemma_digits_value(c, lens);
    crate::structures::n_dim_index_u::lemma_digits_len(c, lens);
    let cd = radix_digits(c, lens);
    let p = crate::structures::n_dim_array::decompressed::<DIM, NDimIndexerU<DIM>>(idx, c);
    let q = crate::structures::n_dim_array::step_up(p, dim);
    let lr = idx.ndim_lens();
    assert forall|i: int| 0 <= i < DIM implies lr[i].start <= #[trigger] q[i] < lr[i].end by {
        assert(0 <= cd[i] < lens[i]);
        assert(lens[i] <= isize::MAX);
        assert(p[i] == cd[i] as isize);
    }
    assert(crate::structures::n_dim_index::ranges_contain(q, lr));
    assert(p[dim] as int == cd[dim]);
}

impl<const DIM: usize, T> NDimChunkArray<DIM, T> {
    /// Every pair of a phase inside the chunks names two values at neighbouring indexes, along
    /// the phase's dimension.
    pub proof fn lemma_inner_phase_neighbours(&self, dim: int, rem: int)
        requires
            self.wf(),
            0 <= dim < DIM,
        ensures
            ({
                let ps = inner_phase_of(self.chunks_view(), dim, rem);
                forall|x: int|
                    0 <= x < ps.len() ==> self.is_neighbour_call(call_of_usizes(#[trigger] ps[x]))
                        && ps[x].4 == dim && ps[x].0 == ps[x].2 && radix_digits(
                        ps[x].1 as int,
                        lens_of_chunk(self.chunks_view(), ps[x].0 as int),
                    )[dim] % 2 != rem
            }),
    {
        let cs = self.chunks_view();
        let parts = Seq::new(cs.len(), chunk_phase_fn(cs, dim, rem));
        let ps = parts.flatten();
        assert forall|x: int| 0 <= x < ps.len() implies self.is_neighbour_call(
            call_of_usizes(#[trigger] ps[x]),
        ) && ps[x].4 == dim && ps[x].0 == ps[x].2 && radix_digits(
            ps[x].1 as int,
            lens_of_chunk(self.chunks_view(), ps[x].0 as int),
        )[dim] % 2 != rem by {
            let (k, y) = lemma_flatten_index(parts, x);
            self.lemma_chunk_facts(k);
            self.values.indexer_view().lemma_length();
            let idx = cs[k].indexer_view();
            let pp = crate::structures::n_dim_array::phase_pairs::<DIM, NDimIndexerU<DIM>>(
                idx,
                dim,
                rem,
                idx.ndim_length(),
            );
            assert(parts[k] == chunk_phase(cs, k, dim, rem));
            crate::structures::n_dim_array::lemma_phase_pairs_set::<DIM, NDimIndexerU<DIM>>(
                idx,
                dim,
                rem,
            );
            let pair = pp[y];
            lemma_u_phase_pair(idx, dim, rem, pair);
            idx.lemma_length();
            self.lemma_inner_neighbour(k, pair.0 as int, pair.1 as int, dim);
            assert(ps[x] == (k as usize, pair.0, k as usize, pair.1, pair.2));
        }
    }

    /// Every pair of a phase across chunk faces names two values at neighbouring indexes, along
    /// the phase's dimension.
    pub proof fn lemma_cross_phase_neighbours(&self, dim: int, rem: int)
        requires
            self.wf(),
            0 <= dim < DIM,
        ensures
            ({
                let ps = cross_phase_of(self.chunks_view(), self.grid_view(), dim, rem);
                forall|x: int|
                    0 <= x < ps.len() ==> self.is_neighbour_call(call_of_usizes(#[trigger] ps[x]))
                        && ps[x].4 == dim && ps[x].0 != ps[x].2 && radix_digits(
                        ps[x].0 as int,
                        chunk_counts(self.lens_view(), self.dim_elem_count_view()),
                    )[dim] % 2 != rem
            }),
    {
        let cs = self.chunks_view();
        let grid = self.grid_view();
        let gp = crate::structures::n_dim_array::phase_pairs::<DIM, NDimIndexerU<DIM>>(
            grid,
            dim,
            rem,
            grid.ndim_length(),
        );
        let parts = Seq::new(gp.len(), face_calls_fn(cs, grid, dim, rem));
        let ps = parts.flatten();
        assert(self.values.wf());
        grid.lemma_length();
        crate::structures::n_dim_array::lemma_phase_pairs_set::<DIM, NDimIndexerU<DIM>>(grid, dim, rem);
        assert forall|x: int| 0 <= x < ps.len() implies self.is_neighbour_call(
            call_of_usizes(#[trigger] ps[x]),
        ) && ps[x].4 == dim && ps[x].0 != ps[x].2 && radix_digits(
            ps[x].0 as int,
            chunk_counts(self.lens_view(), self.dim_elem_count_view()),
        )[dim] % 2 != rem by {
            let (i, y) = lemma_flatten_index(parts, x);
            let cp = gp[i];
            lemma_u_phase_pair(grid, dim, rem, cp);
            let ka = cp.0 as int;
            let kb = cp.1 as int;
            self.lemma_chunk_facts(ka);
            self.lemma_chunk_facts(kb);
            let fc = Seq::new(radix_prod(lens_of_chunk(cs, kb)) as nat, face_call_fn(cs, ka, kb, dim));
            assert(parts[i] == fc.flatten());
            let (j, w) = lemma_flatten_index(fc, y);
            assert(fc[j] == face_call(cs, ka, kb, dim, j));
            assert(radix_digits(j, lens_of_chunk(cs, kb))[dim] == 0);
            self.lemma_cross_neighbour(ka, kb, dim, j);
            let la = lens_of_chunk(cs, ka);
            let ca = radix_digits(j, lens_of_chunk(cs, kb)).update(dim, la[dim] - 1);
            lemma_value_bound(ca, la);
            assert(ps[x] == (ka as usize, radix_value(ca, la) as usize, kb as usize, j as usize, dim as usize));
        }
    }
}

impl<const DIM: usize, T> NDimChunkArray<DIM, T> {
    /// The phase of [Self::pair_schedule] that holds the pair of `a` and `a` one step up along
    /// `dim`: inside the chunks (`res.0`) or across a chunk face, leaving out remainder
    /// `1 - res.1`, at position `res.2`.
    proof fn lemma_phase_of_pair(&self, a: Seq<int>, dim: int) -> (res: (bool, int, int))
        requires
            self.wf(),
            a.len() == DIM,
            0 <= dim < DIM,
            self.in_bounds(a),
            self.in_bounds(step_up_int(a, dim)),
        ensures
            0 <= res.1 < 2,
            res.0 ==> {
                let ps = inner_phase_of(self.chunks_view(), dim, 1 - res.1);
                &&& 0 <= res.2 < ps.len()
                &&& ps[res.2].4 == dim
                &&& self.index_of_position(ps[res.2].0 as int, ps[res.2].1 as int) == a
            },
            !res.0 ==> {
                let ps = cross_phase_of(self.chunks_view(), self.grid_view(), dim, 1 - res.1);
                &&& 0 <= res.2 < ps.len()
                &&& ps[res.2].4 == dim
                &&& self.index_of_position(ps[res.2].0 as int, ps[res.2].1 as int) == a
            },
    {
        let cs = self.chunks_view();
        let l = self.lens_view();
        let d = self.dim_elem_count_view();
        let ol = chunk_counts(l, d);
        self.lemma_iter_covers();
        let b = step_up_int(a, dim);
        assert(b.len() == DIM);
        let (ka, ja) = chunk_order(l, d, ol, a);
        lemma_chunk_order_facts(l, d, a);
        self.lemma_chunk_facts(ka);
        let ta = Seq::new(a.len(), |i: int| a[i] / d);
        let ca = Seq::new(a.len(), |i: int| a[i] % d);
        let cl = chunk_lens(l, d, ta);
        assert(lens_of_chunk(cs, ka) == cl);
        self.values.indexer_view().lemma_length();
        if ca[dim] + 1 < cl[dim] {
            let r = ca[dim] % 2;
            let rem = 1 - r;
            let idx = cs[ka].indexer_view();
            idx.lemma_length();
            let pp = crate::structures::n_dim_array::phase_pairs::<DIM, NDimIndexerU<DIM>>(
                idx,
                dim,
                rem,
                idx.ndim_length(),
            );
            crate::structures::n_dim_array::lemma_phase_pairs_set::<DIM, NDimIndexerU<DIM>>(
                idx,
                dim,
                rem,
            );
            lemma_u_phase_index(idx, dim, rem, ja);
            let y = choose|y: int| 0 <= y < pp.len() && pp[y].0 == ja;
            let parts = Seq::new(cs.len(), chunk_phase_fn(cs, dim, rem));
            assert(parts[ka] == chunk_phase(cs, ka, dim, rem));
            assert(parts[ka].len() == pp.len());
            let x = lemma_flatten_has(parts, ka, y);
            assert(parts.flatten()[x] == (ka as usize, pp[y].0, ka as usize, pp[y].1, pp[y].2));
            (true, r, x)
        } else {
            lemma_chunk_order_facts(l, d, b);
            let (kb, jb) = chunk_order(l, d, ol, b);
            let tb = Seq::new(b.len(), |i: int| b[i] / d);
            let cb = Seq::new(b.len(), |i: int| b[i] % d);
            assert(0 <= ca[dim] < cl[dim]);
            assert(a[dim] == ta[dim] * d + ca[dim]);
            if ta[dim] == l[dim] / d {
                vstd::arithmetic::div_mod::lemma_fundamental_div_mod(l[dim], d);
                assert(l[dim] == ta[dim] * d + l[dim] % d) by (nonlinear_arith)
                    requires
                        l[dim] == d * (l[dim] / d) + l[dim] % d,
                        ta[dim] == l[dim] / d,
                ;
                assert(b[dim] == l[dim]);
                assert(false);
            }
            assert(cl[dim] == d);
            assert(b[dim] == (ta[dim] + 1) * d + 0) by (nonlinear_arith)
                requires
                    b[dim] == a[dim] + 1,
                    a[dim] == ta[dim] * d + (d - 1),
            ;
            vstd::arithmetic::div_mod::lemma_fundamental_div_mod_converse(b[dim], d, ta[dim] + 1, 0);
            assert(tb =~= ta.update(dim, ta[dim] + 1));
            self.lemma_chunk_facts(kb);
            assert(cb[dim] == 0);
            let grid = self.grid_view();
            let r = ta[dim] % 2;
            let rem = 1 - r;
            grid.lemma_length();
            let gp = crate::structures::n_dim_array::phase_pairs::<DIM, NDimIndexerU<DIM>>(
                grid,
                dim,
                rem,
                grid.ndim_length(),
            );
            crate::structures::n_dim_array::lemma_phase_pairs_set::<DIM, NDimIndexerU<DIM>>(
                grid,
                dim,
                rem,
            );
            assert(self.values.wf());
            lemma_u_phase_index(grid, dim, rem, ka);
            let i = choose|i: int| 0 <= i < gp.len() && gp[i].0 == ka;
            let cp = gp[i];
            lemma_u_phase_pair(grid, dim, rem, cp);
            lemma_digits_value(cp.1 as int, ol);
            assert(cp.1 as int == kb);
            self.lemma_cross_neighbour(ka, kb, dim, jb);
            let fc = Seq::new(radix_prod(lens_of_chunk(cs, kb)) as nat, face_call_fn(cs, ka, kb, dim));
            assert(fc[jb] == face_call(cs, ka, kb, dim, jb));
            assert(radix_digits(jb, lens_of_chunk(cs, kb)) == cb);
            assert(fc[jb].len() == 1);
            let x1 = lemma_flatten_has(fc, jb, 0);
            let parts = Seq::new(gp.len(), face_calls_fn(cs, grid, dim, rem));
            assert(parts[i] == fc.flatten());
            let x = lemma_flatten_has(parts, i, x1);
            let la = lens_of_chunk(cs, ka);
            let cav = cb.update(dim, la[dim] - 1);
            lemma_value_bound(cav, la);
            let e = (ka, radix_value(cav, la), kb, jb, dim);
            assert(parts.flatten()[x] == (ka as usize, radix_value(cav, la) as usize, kb as usize, jb as usize, dim as usize));
            assert(self.is_neighbour_call(e));
            assert(self.index_of_position(kb, jb) == b);
            let p = self.index_of_position(e.0, e.1);
            assert(p =~= a) by {
                assert(step_up_int(p, dim) == b);
                assert forall|q: int| 0 <= q < DIM implies p[q] == a[q] by {
                    assert(step_up_int(p, dim)[q] == b[q]);
                }
            }
            (false, r, x)
        }
    }
}

/// No two entries of `ps` share a value: the values an entry names, position `e.1` of chunk `e.0`
/// and position `e.3` of chunk `e.2`, are named by no other entry.
pub open spec fn calls_disjoint(ps: Seq<(usize, usize, usize, usize, usize)>) -> bool {
    forall|x: int, y: int|
        0 <= x < ps.len() && 0 <= y < ps.len() && x != y ==> {
            let ex = #[trigger] ps[x];
            let ey = #[trigger] ps[y];
            &&& (ex.0, ex.1) != (ey.0, ey.1)
            &&& (ex.0, ex.1) != (ey.2, ey.3)
            &&& (ex.2, ex.3) != (ey.0, ey.1)
            &&& (ex.2, ex.3) != (ey.2, ey.3)
        }
}

impl<const DIM: usize, T> NDimChunkArray<DIM, T> {
    /// The pairs of a phase inside the chunks share no value, so they can be worked on at once.
    pub proof fn lemma_inner_phase_disjoint(&self, dim: int, rem: int)
        requires
            self.wf(),
            0 <= dim < DIM,
            rem == 0 || rem == 1,
        ensures
            calls_disjoint(inner_phase_of(self.chunks_view(), dim, rem)),
    {
        let cs = self.chunks_view();
        let parts = Seq::new(cs.len(), chunk_phase_fn(cs, dim, rem));
        let ps = parts.flatten();
        self.values.indexer_view().lemma_length();
        assert(self.values.wf());
        assert forall|x: int, y: int| 0 <= x < ps.len() && 0 <= y < ps.len() && x != y implies {
            let ex = #[trigger] ps[x];
            let ey = #[trigger] ps[y];
            &&& (ex.0, ex.1) != (ey.0, ey.1)
            &&& (ex.0, ex.1) != (ey.2, ey.3)
            &&& (ex.2, ex.3) != (ey.0, ey.1)
            &&& (ex.2, ex.3) != (ey.2, ey.3)
        } by {
            let (k1, y1) = lemma_flatten_index(parts, x);
            let (k2, y2) = lemma_flatten_index(parts, y);
            assert(parts[k1] == chunk_phase(cs, k1, dim, rem));
            assert(parts[k2] == chunk_phase(cs, k2, dim, rem));
            if k1 == k2 {
                assert(y1 != y2);
                let idx = cs[k1].indexer_view();
                assert(cs[k1].wf());
                assert forall|i: int| 0 <= i < DIM implies #[trigger] idx.ndim_lens()[i].start >= 0 by {}
                crate::structures::n_dim_array::lemma_phase_pairs_disjoint::<DIM, NDimIndexerU<DIM>>(
                    idx,
                    dim,
                    rem,
                );
                let pp = crate::structures::n_dim_array::phase_pairs::<DIM, NDimIndexerU<DIM>>(
                    idx,
                    dim,
                    rem,
                    idx.ndim_length(),
                );
                assert(pp[y1].0 != pp[y2].0 && pp[y1].0 != pp[y2].1 && pp[y1].1 != pp[y2].1
                    && pp[y2].0 != pp[y1].1);
            } else {
                assert((k1 as usize) as int == k1);
                assert((k2 as usize) as int == k2);
            }
        }
    }

    /// Entry `x` of a phase across chunk faces comes from pair `res.0` of the chunk grid's phase
    /// and position `res.1` of its upper chunk, and stands where those put it.
    proof fn lemma_cross_phase_entry(&self, dim: int, rem: int, x: int) -> (res: (int, int))
        requires
            self.wf(),
            0 <= dim < DIM,
            0 <= x < cross_phase_of(self.chunks_view(), self.grid_view(), dim, rem).len(),
        ensures
            ({
                let cs = self.chunks_view();
                let grid = self.grid_view();
                let gp = crate::structures::n_dim_array::phase_pairs::<DIM, NDimIndexerU<DIM>>(
                    grid,
                    dim,
                    rem,
                    grid.ndim_length(),
                );
                let parts = Seq::new(gp.len(), face_calls_fn(cs, grid, dim, rem));
                let e = cross_phase_of(cs, grid, dim, rem)[x];
                &&& 0 <= res.0 < gp.len()
                &&& e.0 == gp[res.0].0
                &&& e.2 == gp[res.0].1
                &&& gp[res.0].0 != gp[res.0].1
                &&& e.3 as int == res.1
                &&& x == parts.take(res.0).flatten().len() + Seq::new(
                    radix_prod(lens_of_chunk(cs, gp[res.0].1 as int)) as nat,
                    face_call_fn(cs, gp[res.0].0 as int, gp[res.0].1 as int, dim),
                ).take(res.1).flatten().len()
            }),
    {
        let cs = self.chunks_view();
        let grid = self.grid_view();
        let gp = crate::structures::n_dim_array::phase_pairs::<DIM, NDimIndexerU<DIM>>(
            grid,
            dim,
            rem,
            grid.ndim_length(),
        );
        let parts = Seq::new(gp.len(), face_calls_fn(cs, grid, dim, rem));
        assert(self.values.wf());
        grid.lemma_length();
        crate::structures::n_dim_array::lemma_phase_pairs_set::<DIM, NDimIndexerU<DIM>>(grid, dim, rem);
        let (i, z) = lemma_flatten_index(parts, x);
        let cp = gp[i];
        lemma_u_phase_pair(grid, dim, rem, cp);
        self.lemma_chunk_facts(cp.1 as int);
        let fc = Seq::new(
            radix_prod(lens_of_chunk(cs, cp.1 as int)) as nat,
            face_call_fn(cs, cp.0 as int, cp.1 as int, dim),
        );
        assert(parts[i] == fc.flatten());
        let (j, w) = lemma_flatten_index(fc, z);
        assert(fc[j] == face_call(cs, cp.0 as int, cp.1 as int, dim, j));
        assert(w == 0);
        crate::structures::n_dim_index_u::lemma_digits_len(cp.0 as int, grid.lens_view());
        assert(radix_digits(cp.1 as int, grid.lens_view())[dim] != radix_digits(cp.0 as int, grid.lens_view())[dim]);
        (i, j)
    }

    /// The pairs of a phase across chunk faces share no value, so they can be worked on at once.
    pub proof fn lemma_cross_phase_disjoint(&self, dim: int, rem: int)
        requires
            self.wf(),
            0 <= dim < DIM,
            rem == 0 || rem == 1,
        ensures
            calls_disjoint(cross_phase_of(self.chunks_view(), self.grid_view(), dim, rem)),
    {
        let cs = self.chunks_view();
        let grid = self.grid_view();
        let gp = crate::structures::n_dim_array::phase_pairs::<DIM, NDimIndexerU<DIM>>(
            grid,
            dim,
            rem,
            grid.ndim_length(),
        );
        let ps = cross_phase_of(cs, grid, dim, rem);
        assert(self.values.wf());
        assert forall|i: int| 0 <= i < DIM implies #[trigger] grid.ndim_lens()[i].start >= 0 by {}
        crate::structures::n_dim_array::lemma_phase_pairs_disjoint::<DIM, NDimIndexerU<DIM>>(
            grid,
            dim,
            rem,
        );
        assert forall|x: int, y: int| 0 <= x < ps.len() && 0 <= y < ps.len() && x != y implies {
            let ex = #[trigger] ps[x];
            let ey = #[trigger] ps[y];
            &&& (ex.0, ex.1) != (ey.0, ey.1)
            &&& (ex.0, ex.1) != (ey.2, ey.3)
            &&& (ex.2, ex.3) != (ey.0, ey.1)
            &&& (ex.2, ex.3) != (ey.2, ey.3)
        } by {
            let (i1, j1) = self.lemma_cross_phase_entry(dim, rem, x);
            let (i2, j2) = self.lemma_cross_phase_entry(dim, rem, y);
            if i1 != i2 {
                assert(gp[i1].0 != gp[i2].0 && gp[i1].0 != gp[i2].1 && gp[i1].1 != gp[i2].1
                    && gp[i2].0 != gp[i1].1);
            } else {
                assert(j1 != j2);
                if ps[x].1 == ps[y].1 {
                    self.lemma_cross_phase_same_start(dim, rem, x, y);
                }
            }
        }
    }

    /// Two entries of a phase across chunk faces that start at the same position of the same
    /// chunk end at the same position.
    proof fn lemma_cross_phase_same_start(&self, dim: int, rem: int, x: int, y: int)
        requires
            self.wf(),
            0 <= dim < DIM,
            0 <= x < cross_phase_of(self.chunks_view(), self.grid_view(), dim, rem).len(),
            0 <= y < cross_phase_of(self.chunks_view(), self.grid_view(), dim, rem).len(),
            cross_phase_of(self.chunks_view(), self.grid_view(), dim, rem)[x].0
                == cross_phase_of(self.chunks_view(), self.grid_view(), dim, rem)[y].0,
            cross_phase_of(self.chunks_view(), self.grid_view(), dim, rem)[x].1
                == cross_phase_of(self.chunks_view(), self.grid_view(), dim, rem)[y].1,
        ensures
            cross_phase_of(self.chunks_view(), self.grid_view(), dim, rem)[x].2
                == cross_phase_of(self.chunks_view(), self.grid_view(), dim, rem)[y].2,
            cross_phase_of(self.chunks_view(), self.grid_view(), dim, rem)[x].3
                == cross_phase_of(self.chunks_view(), self.grid_view(), dim, rem)[y].3,
    {
        let cs = self.chunks_view();
        let l = self.lens_view();
        let d = self.dim_elem_count_view();
        let ol = chunk_counts(l, d);
        let ps = cross_phase_of(cs, self.grid_view(), dim, rem);
        self.lemma_cross_phase_neighbours(dim, rem);
        self.lemma_iter_covers();
        let nx = call_of_usizes(ps[x]);
        let ny = call_of_usizes(ps[y]);
        assert(self.is_neighbour_call(nx));
        assert(self.is_neighbour_call(ny));
        let vs = chunk_values(cs);
        assert(vs[nx.2].len() == cs[nx.2].values_view().len());
        assert(vs[ny.2].len() == cs[ny.2].values_view().len());
        assert(chunk_order(l, d, ol, self.index_of_position(nx.2, nx.3)) == (nx.2, nx.3));
        assert(chunk_order(l, d, ol, self.index_of_position(ny.2, ny.3)) == (ny.2, ny.3));
    }
}

/// Phase `p` of [NDimChunkArray::pair_schedule]: for `p < 2 * DIM` the phase inside the chunks
/// along `p / 2` leaving out remainder `1 - p % 2`, else the phase across chunk faces along
/// `(p - 2 * DIM) / 2` leaving out remainder `1 - (p - 2 * DIM) % 2`.
pub open spec fn schedule_phase<const DIM: usize, T>(
    cs: Seq<NDimArray<NDimIndexerU<DIM>, DIM, T>>,
    grid: NDimIndexerU<DIM>,
    p: int,
) -> Seq<(usize, usize, usize, usize, usize)> {
    if p < 2 * DIM {
        inner_phase_of(cs, p / 2, 1 - p % 2)
    } else {
        cross_phase_of(cs, grid, (p - 2 * DIM) / 2, 1 - (p - 2 * DIM) % 2)
    }
}

impl<const DIM: usize, T> NDimChunkArray<DIM, T> {
    /// Two calls that start at the same stored value along the same dimension end at the same
    /// stored value.
    proof fn lemma_same_start_same_end(&self, e1: (int, int, int, int, int), e2: (int, int, int, int, int))
        requires
            self.wf(),
            self.is_neighbour_call(e1),
            self.is_neighbour_call(e2),
            e1.0 == e2.0,
            e1.1 == e2.1,
            e1.4 == e2.4,
        ensures
            e1.2 == e2.2,
            e1.3 == e2.3,
    {
        let cs = self.chunks_view();
        let l = self.lens_view();
        let d = self.dim_elem_count_view();
        let ol = chunk_counts(l, d);
        self.lemma_iter_covers();
        let vs = chunk_values(cs);
        assert(vs[e1.2].len() == cs[e1.2].values_view().len());
        assert(vs[e2.2].len() == cs[e2.2].values_view().len());
        assert(chunk_order(l, d, ol, self.index_of_position(e1.2, e1.3)) == (e1.2, e1.3));
        assert(chunk_order(l, d, ol, self.index_of_position(e2.2, e2.3)) == (e2.2, e2.3));
    }

    /// Each entry of a phase of the schedule is a neighbour call along the phase's dimension;
    /// inside the chunks it stays in one chunk, across faces it joins two, and the remainder by 2
    /// of its digit along that dimension, in its chunk or in the chunk grid, is not the one the
    /// phase leaves out.
    proof fn lemma_schedule_entry(&self, p: int, x: int)
        requires
            self.wf(),
            0 <= p < 4 * DIM,
            0 <= x < schedule_phase(self.chunks_view(), self.grid_view(), p).len(),
        ensures
            ({
                let e = schedule_phase(self.chunks_view(), self.grid_view(), p)[x];
                let q = if p < 2 * DIM { p } else { p - 2 * DIM };
                &&& self.is_neighbour_call(call_of_usizes(e))
                &&& e.4 == q / 2
                &&& (p < 2 * DIM) == (e.0 == e.2)
                &&& p < 2 * DIM ==> radix_digits(
                    e.1 as int,
                    lens_of_chunk(self.chunks_view(), e.0 as int),
                )[q / 2] % 2 != 1 - q % 2
                &&& p >= 2 * DIM ==> radix_digits(
                    e.0 as int,
                    chunk_counts(self.lens_view(), self.dim_elem_count_view()),
                )[q / 2] % 2 != 1 - q % 2
            }),
    {
        if p < 2 * DIM {
            self.lemma_inner_phase_neighbours(p / 2, 1 - p % 2);
        } else {
            self.lemma_cross_phase_neighbours((p - 2 * DIM) / 2, 1 - (p - 2 * DIM) % 2);
        }
    }

    /// No pair of neighbouring values comes twice in the schedule: two entries of the phases
    /// that start at the same stored value along the same dimension are the same entry of the
    /// same phase.
    pub proof fn lemma_schedule_once(&self)
        requires
            self.wf(),
        ensures
            forall|p1: int, x1: int, p2: int, x2: int|
                0 <= p1 < 4 * DIM && 0 <= p2 < 4 * DIM && 0 <= x1 < schedule_phase(
                    self.chunks_view(),
                    self.grid_view(),
                    p1,
                ).len() && 0 <= x2 < schedule_phase(self.chunks_view(), self.grid_view(), p2).len()
                    && (#[trigger] schedule_phase(self.chunks_view(), self.grid_view(), p1)[x1]).4
                    == (#[trigger] schedule_phase(self.chunks_view(), self.grid_view(), p2)[x2]).4
                    && schedule_phase(self.chunks_view(), self.grid_view(), p1)[x1].0
                    == schedule_phase(self.chunks_view(), self.grid_view(), p2)[x2].0
                    && schedule_phase(self.chunks_view(), self.grid_view(), p1)[x1].1
                    == schedule_phase(self.chunks_view(), self.grid_view(), p2)[x2].1 ==> p1 == p2 && x1
                    == x2,
    {
        let cs = self.chunks_view();
        let grid = self.grid_view();
        assert forall|p1: int, x1: int, p2: int, x2: int|
            0 <= p1 < 4 * DIM && 0 <= p2 < 4 * DIM && 0 <= x1 < schedule_phase(cs, grid, p1).len()
                && 0 <= x2 < schedule_phase(cs, grid, p2).len() && (#[trigger] schedule_phase(
                cs,
                grid,
                p1,
            )[x1]).4 == (#[trigger] schedule_phase(cs, grid, p2)[x2]).4 && schedule_phase(
                cs,
                grid,
                p1,
            )[x1].0 == schedule_phase(cs, grid, p2)[x2].0 && schedule_phase(cs, grid, p1)[x1].1
                == schedule_phase(cs, grid, p2)[x2].1 implies p1 == p2 && x1 == x2 by {
            let e1 = schedule_phase(cs, grid, p1)[x1];
            let e2 = schedule_phase(cs, grid, p2)[x2];
            self.lemma_schedule_entry(p1, x1);
            self.lemma_schedule_entry(p2, x2);
            self.lemma_same_start_same_end(call_of_usizes(e1), call_of_usizes(e2));
            if p1 == p2 {
                if p1 < 2 * DIM {
                    self.lemma_inner_phase_disjoint(p1 / 2, 1 - p1 % 2);
                } else {
                    self.lemma_cross_phase_disjoint((p1 - 2 * DIM) / 2, 1 - (p1 - 2 * DIM) % 2);
                }
                if x1 != x2 {
                    assert((e1.0, e1.1) != (e2.0, e2.1));
                }
            }
        }
    }
}

/// Iterates the values of an [NDimChunkArray].
pub struct NDimChunkArrayIter<'a, const DIM: usize, T> {
    chunks: &'a Vec<NDimArray<NDimIndexerU<DIM>, DIM, T>>,
    chunk: usize,
    item: usize,
}

impl<'a, const DIM: usize, T> NDimChunkArrayIter<'a, DIM, T> {
    /// The values still to be returned, in order.
    pub closed spec fn remaining(&self) -> Seq<T> {
        let vs = chunk_values(self.chunks@);
        if self.chunk < vs.len() {
            vs[self.chunk as int].skip(self.item as int) + vs.skip(self.chunk + 1).flatten()
        } else {
            Seq::empty()
        }
    }

    /// The position lies in a chunk, at or before its end.
    pub closed spec fn wf(&self) -> bool {
        self.chunk < self.chunks@.len() ==> self.item <= self.chunks@[self.chunk as int].values_view().len()
    }

    /// Returns the next value, or `None` once all are returned.
    pub fn next(&mut self) -> (res: Option<&'a T>)
        requires
            old(self).wf(),
        ensures
            final(self).wf(),
            old(self).remaining().len() == 0 ==> res is None && final(self).remaining().len() == 0,
            old(self).remaining().len() > 0 ==> (res matches Some(v) && *v == old(self).remaining()[0]
                && final(self).remaining() == old(self).remaining().drop_first()),
    {
        let ghost r0 = self.remaining();
        loop
            invariant
                self.wf(),
                self.remaining() == r0,
                r0 == old(self).remaining(),
            decreases self.chunks@.len() - self.chunk,
        {
            if self.chunk >= self.chunks.len() {
                return None;
            }
            let ch = &self.chunks[self.chunk];
            let vals = ch.values();
            if self.item < vals.len() {
                let v = &vals[self.item];
                proof {
                    let vs = chunk_values(self.chunks@);
                    assert(vs[self.chunk as int] == vals@);
                    assert(vals@.skip(self.item as int).drop_first() =~= vals@.skip(self.item + 1));
                    assert((vals@.skip(self.item as int) + vs.skip(self.chunk + 1).flatten()).drop_first()
                        =~= vals@.skip(self.item + 1) + vs.skip(self.chunk + 1).flatten());
                }
                self.item = self.item + 1;
                return Some(v);
            }
            proof {
                let vs = chunk_values(self.chunks@);
                assert(vals@.skip(self.item as int) =~= Seq::<T>::empty());
                if self.chunk + 1 < vs.len() {
                    assert(vs.skip(self.chunk + 1).drop_first() =~= vs.skip(self.chunk + 2));
                    assert(vs.skip(self.chunk + 1)[0] == vs[self.chunk + 1]);
                    assert(vs[self.chunk + 1].skip(0) =~= vs[self.chunk + 1]);
                } else {
                    assert(vs.skip(self.chunk + 1) =~= Seq::<Seq<T>>::empty());
                }
                assert(Seq::<T>::empty() + vs.skip(self.chunk + 1).flatten() =~= vs.skip(self.chunk + 1).flatten());
            }
            self.chunk = self.chunk + 1;
            self.item = 0;
        }
    }
}

} // verus!
