//! [NDimArray]: values stored in compressed order, addressed by n-dimensional indexes.
use vstd::prelude::*;
use crate::structures::mixed_radix::ints_of_isize;
use crate::structures::n_dim_index::{ranges_contain, NDimIndex, TNDimIndexer};

verus! {

broadcast use vstd::array::group_array_axioms;

/// Arrays whose coordinates read as the same integers are equal.
pub proof fn lemma_index_eq<const DIM: usize>(a: NDimIndex<DIM>, b: NDimIndex<DIM>)
    requires
        ints_of_isize(a@) == ints_of_isize(b@),
    ensures
        a == b,
{
    assert(a@.len() == DIM && b@.len() == DIM);
    assert forall|i: int| 0 <= i < DIM implies a[i] == b[i] by {
        assert(ints_of_isize(a@)[i] == ints_of_isize(b@)[i]);
        assert(ints_of_isize(a@)[i] == a@[i] as int);
        assert(ints_of_isize(b@)[i] == b@[i] as int);
    }
    assert(a =~= b);
}

/// Values laid out in the compressed order of an indexer.
pub struct NDimArray<TIndexer, const DIM: usize, T> {
    values: Vec<T>,
    n_dim_index: TIndexer,
}

impl<TIndexer: TNDimIndexer<DIM>, const DIM: usize, T> NDimArray<TIndexer, DIM, T> {
    /// The values in compressed order.
    pub closed spec fn values_view(&self) -> Seq<T> {
        self.values@
    }

    /// The indexer.
    pub closed spec fn indexer_view(&self) -> TIndexer {
        self.n_dim_index
    }

    /// The indexer is well formed and holds one value per compressed index.
    pub open spec fn wf(&self) -> bool {
        &&& self.indexer_view().ndim_wf()
        &&& self.values_view().len() == self.indexer_view().ndim_length()
    }

    /// The value at an index inside the ranges.
    pub open spec fn value_at(&self, indexes: Seq<isize>) -> T {
        self.values_view()[self.indexer_view().ndim_compress(indexes)]
    }

    /// Builds the array by calling `func` on every index inside the ranges, in compressed order.
    pub fn from_fn<F: Fn(NDimIndex<DIM>) -> T>(n_dim_index: TIndexer, func: F) -> (res: Self)
        requires
            n_dim_index.ndim_wf(),
            forall|a: NDimIndex<DIM>|
                ranges_contain(a@, n_dim_index.ndim_lens()) ==> call_requires(func, (a,)),
        ensures
            res.wf(),
            res.indexer_view() == n_dim_index,
            forall|a: NDimIndex<DIM>|
                ranges_contain(a@, n_dim_index.ndim_lens()) ==> call_ensures(
                    func,
                    (a,),
                    #[trigger] res.value_at(a@),
                ),
    {
        let length = n_dim_index.length();
        let mut values: Vec<T> = Vec::new();
        let mut c: usize = 0;
        while c < length
            invariant
                0 <= c <= length,
                length == n_dim_index.ndim_length(),
                n_dim_index.ndim_wf(),
                values@.len() == c,
                forall|a: NDimIndex<DIM>|
                    ranges_contain(a@, n_dim_index.ndim_lens()) ==> call_requires(func, (a,)),
                forall|k: int, a: NDimIndex<DIM>|
                    #![trigger ints_of_isize(a@), values@[k]]
                    0 <= k < c && ints_of_isize(a@) == n_dim_index.ndim_decompress(k)
                        ==> call_ensures(func, (a,), values@[k]),
            decreases length - c,
        {
            let idx = n_dim_index.decompress_index(c);
            let v = func(idx);
            values.push(v);
            proof {
                assert forall|k: int, a: NDimIndex<DIM>|
                    #![trigger ints_of_isize(a@), values@[k]]
                    0 <= k < c + 1 && ints_of_isize(a@) == n_dim_index.ndim_decompress(k)
                        implies call_ensures(func, (a,), values@[k]) by {
                    if k == c {
                        lemma_index_eq(a, idx);
                    }
                }
            }
            c = c + 1;
        }
        let res = NDimArray { values, n_dim_index };
        proof {
            assert forall|a: NDimIndex<DIM>|
                ranges_contain(a@, n_dim_index.ndim_lens()) implies call_ensures(
                func,
                (a,),
                #[trigger] res.value_at(a@),
            ) by {
                n_dim_index.lemma_ndim_roundtrip(a@);
                let k = n_dim_index.ndim_compress(a@);
                assert(ints_of_isize(a@) == n_dim_index.ndim_decompress(k));
                assert(res.values@[k] == values@[k]);
            }
        }
        res
    }

    /// Wraps an indexer and its values.
    pub fn new(n_dim_index: TIndexer, values: Vec<T>) -> (res: Self)
        ensures
            res.indexer_view() == n_dim_index,
            res.values_view() == values@,
    {
        NDimArray { values, n_dim_index }
    }

    /// The indexer and the values.
    pub fn unwrap_ref(&self) -> (res: (&TIndexer, &Vec<T>))
        ensures
            *res.0 == self.indexer_view(),
            res.1@ == self.values_view(),
    {
        (&self.n_dim_index, &self.values)
    }

    /// The indexer.
    pub fn n_dim_index(&self) -> (res: &TIndexer)
        ensures
            *res == self.indexer_view(),
    {
        &self.n_dim_index
    }

    /// The value at a compressed index, or `None` where it is not below the length.
    pub fn get_with_compressed(&self, index: usize) -> (res: Option<&T>)
        requires
            self.wf(),
        ensures
            res.is_some() == (index < self.indexer_view().ndim_length()),
            res matches Some(v) ==> *v == self.values_view()[index as int],
    {
        if !self.n_dim_index.contains_compressed(index) {
            return None;
        }
        Some(&self.values[index])
    }

    /// The values in compressed order.
    pub fn values(&self) -> (res: &Vec<T>)
        ensures
            res@ == self.values_view(),
    {
        &self.values
    }

    /// The value at an index, or `None` where it lies outside the ranges.
    pub fn get(&self, indexes: &NDimIndex<DIM>) -> (res: Option<&T>)
        requires
            self.wf(),
        ensures
            res.is_some() == ranges_contain(indexes@, self.indexer_view().ndim_lens()),
            res matches Some(v) ==> *v == self.value_at(indexes@),
    {
        if self.n_dim_index.contains(indexes) {
            let c = self.n_dim_index.compress_index(indexes);
            Some(&self.values[c])
        } else {
            None
        }
    }

    /// Replaces the value at an index inside the ranges, returning whether it did.
    pub fn set(&mut self, indexes: &NDimIndex<DIM>, value: T) -> (res: bool)
        requires
            old(self).wf(),
        ensures
            final(self).wf(),
            final(self).indexer_view() == old(self).indexer_view(),
            res == ranges_contain(indexes@, old(self).indexer_view().ndim_lens()),
            res ==> final(self).values_view() == old(self).values_view().update(
                old(self).indexer_view().ndim_compress(indexes@),
                value,
            ),
            !res ==> final(self).values_view() == old(self).values_view(),
    {
        if self.n_dim_index.contains(indexes) {
            let c = self.n_dim_index.compress_index(indexes);
            self.values.set(c, value);
            true
        } else {
            false
        }
    }

    /// The values in compressed order, mutably.
    pub fn values_mut(&mut self) -> (res: &mut Vec<T>)
        ensures
            res@ == old(self).values_view(),
            final(self).values_view() == final(res)@,
            final(self).indexer_view() == old(self).indexer_view(),
    {
        &mut self.values
    }

    /// The indexer and the values, the values mutably.
    pub fn unwrap_mut(&mut self) -> (res: (&TIndexer, &mut Vec<T>))
        ensures
            *res.0 == old(self).indexer_view(),
            res.1@ == old(self).values_view(),
            final(self).values_view() == final(res.1)@,
            final(self).indexer_view() == old(self).indexer_view(),
    {
        (&self.n_dim_index, &mut self.values)
    }

    /// The value at a compressed index mutably, or `None` where it is not below the length.
    pub fn get_mut_with_compressed(&mut self, index: usize) -> (res: Option<&mut T>)
        requires
            old(self).wf(),
        ensures
            res.is_some() == (index < old(self).indexer_view().ndim_length()),
            final(self).indexer_view() == old(self).indexer_view(),
            res matches Some(v) ==> *v == old(self).values_view()[index as int]
                && final(self).values_view() == old(self).values_view().update(index as int, *final(v)),
            res is None ==> final(self).values_view() == old(self).values_view(),
    {
        if !self.n_dim_index.contains_compressed(index) {
            return None;
        }
        Some(&mut self.values[index])
    }

    /// The value at an index mutably, or `None` where it lies outside the ranges.
    pub fn get_mut(&mut self, indexes: &NDimIndex<DIM>) -> (res: Option<&mut T>)
        requires
            old(self).wf(),
        ensures
            res.is_some() == ranges_contain(indexes@, old(self).indexer_view().ndim_lens()),
            final(self).indexer_view() == old(self).indexer_view(),
            res matches Some(v) ==> *v == old(self).value_at(indexes@)
                && final(self).values_view() == old(self).values_view().update(
                old(self).indexer_view().ndim_compress(indexes@),
                *final(v),
            ),
            res is None ==> final(self).values_view() == old(self).values_view(),
    {
        if !self.n_dim_index.contains(indexes) {
            return None;
        }
        let c = self.n_dim_index.compress_index(indexes);
        Some(&mut self.values[c])
    }

    /// Calls `func` on every value with its index, in compressed order: once it returns, `func`
    /// has been called on the value at every index inside the ranges, with that index.
    pub fn for_each<F: Fn(&T, NDimIndex<DIM>)>(&self, func: &F)
        requires
            self.wf(),
            forall|v: &T, a: NDimIndex<DIM>|
                ranges_contain(a@, self.indexer_view().ndim_lens()) ==> call_requires(
                    *func,
                    (v, a),
                ),
        ensures
            forall|a: NDimIndex<DIM>|
                #[trigger] ranges_contain(a@, self.indexer_view().ndim_lens()) ==> call_ensures(
                    *func,
                    (&self.value_at(a@), a),
                    (),
                ),
    {
        let length = self.n_dim_index.length();
        let ghost idx0 = self.indexer_view();
        let mut c: usize = 0;
        while c < length
            invariant
                0 <= c <= length,
                self.wf(),
                idx0 == self.indexer_view(),
                length == self.indexer_view().ndim_length(),
                forall|v: &T, a: NDimIndex<DIM>|
                    ranges_contain(a@, self.indexer_view().ndim_lens()) ==> call_requires(
                        *func,
                        (v, a),
                    ),
                forall|k: int, a: NDimIndex<DIM>|
                    #![trigger ints_of_isize(a@), idx0.ndim_decompress(k)]
                    0 <= k < c && ints_of_isize(a@) == idx0.ndim_decompress(k) ==> call_ensures(
                        *func,
                        (&self.values_view()[k], a),
                        (),
                    ),
            decreases length - c,
        {
            let idx = self.n_dim_index.decompress_index(c);
            func(&self.values[c], idx);
            proof {
                assert forall|k: int, a: NDimIndex<DIM>|
                    #![trigger ints_of_isize(a@), idx0.ndim_decompress(k)]
                    0 <= k < c + 1 && ints_of_isize(a@) == idx0.ndim_decompress(k) implies call_ensures(
                        *func,
                        (&self.values_view()[k], a),
                        (),
                    ) by {
                    if k == c {
                        lemma_index_eq(a, idx);
                    }
                }
            }
            c = c + 1;
        }
        proof {
            assert forall|a: NDimIndex<DIM>|
                #[trigger] ranges_contain(a@, idx0.ndim_lens()) implies call_ensures(
                    *func,
                    (&self.value_at(a@), a),
                    (),
                ) by {
                idx0.lemma_ndim_roundtrip(a@);
                let k = idx0.ndim_compress(a@);
                assert(ints_of_isize(a@) == idx0.ndim_decompress(k));
                assert(self.values_view()[k] == self.value_at(a@));
            }
        }
    }

    /// Calls `func` on every value, mutably, with its index, in compressed order: each value
    /// becomes what `func` may leave of it when called on it with its index.
    pub fn for_each_mut<F: Fn(&mut T, NDimIndex<DIM>)>(&mut self, func: &F)
        requires
            old(self).wf(),
            forall|v: &mut T, a: NDimIndex<DIM>|
                ranges_contain(a@, old(self).indexer_view().ndim_lens()) ==> call_requires(
                    *func,
                    (v, a),
                ),
        ensures
            final(self).wf(),
            final(self).indexer_view() == old(self).indexer_view(),
            forall|a: NDimIndex<DIM>|
                #[trigger] ranges_contain(a@, old(self).indexer_view().ndim_lens()) ==> exists|
                    v: &mut T,
                |
                    *v == old(self).value_at(a@) && *final(v) == final(self).value_at(a@)
                        && call_ensures(*func, (v, a), ()),
    {
        let length = self.n_dim_index.length();
        let ghost idx0 = self.indexer_view();
        let ghost vals0 = self.values_view();
        let mut c: usize = 0;
        while c < length
            invariant
                0 <= c <= length,
                self.wf(),
                self.indexer_view() == idx0,
                length == idx0.ndim_length(),
                vals0 == old(self).values_view(),
                idx0 == old(self).indexer_view(),
                forall|v: &mut T, a: NDimIndex<DIM>|
                    ranges_contain(a@, idx0.ndim_lens()) ==> call_requires(*func, (v, a)),
                forall|k: int| c <= k < length ==> #[trigger] self.values_view()[k] == vals0[k],
                forall|k: int, a: NDimIndex<DIM>|
                    #![trigger ints_of_isize(a@), idx0.ndim_decompress(k)]
                    0 <= k < c && ints_of_isize(a@) == idx0.ndim_decompress(k) ==> exists|
                        v: &mut T,
                    |
                        *v == vals0[k] && *final(v) == self.values_view()[k] && call_ensures(
                            *func,
                            (v, a),
                            (),
                        ),
            decreases length - c,
        {
            let idx = self.n_dim_index.decompress_index(c);
            let ghost before = self.values_view();
            let r = &mut self.values[c];
            let ghost rg = r;
            func(r, idx);
            proof {
                assert(self.values_view() == before.update(c as int, *final(rg)));
                assert forall|k: int, a: NDimIndex<DIM>|
                    #![trigger ints_of_isize(a@), idx0.ndim_decompress(k)]
                    0 <= k < c + 1 && ints_of_isize(a@) == idx0.ndim_decompress(k) implies exists|
                        v: &mut T,
                    |
                        *v == vals0[k] && *final(v) == self.values_view()[k] && call_ensures(
                            *func,
                            (v, a),
                            (),
                        ) by {
                    if k == c {
                        lemma_index_eq(a, idx);
                    } else {
                        assert(self.values_view()[k] == before[k]);
                    }
                }
            }
            c = c + 1;
        }
        proof {
            assert forall|a: NDimIndex<DIM>|
                #[trigger] ranges_contain(a@, idx0.ndim_lens()) implies exists|v: &mut T|
                *v == old(self).value_at(a@) && *final(v) == self.value_at(a@) && call_ensures(
                    *func,
                    (v, a),
                    (),
                ) by {
                idx0.lemma_ndim_roundtrip(a@);
                let k = idx0.ndim_compress(a@);
                assert(ints_of_isize(a@) == idx0.ndim_decompress(k));
                assert(self.values_view()[k] == self.value_at(a@));
            }
        }
    }
}


/// `x % 2` as Rust computes it on a signed integer: the sign follows `x`.
pub open spec fn rust_rem2(x: int) -> int {
    if x >= 0 {
        x % 2
    } else {
        -((-x) % 2)
    }
}

/// `p` one step further along dimension `dim`.
pub open spec fn step_up(p: Seq<isize>, dim: int) -> Seq<isize> {
    p.update(dim, (p[dim] + 1) as isize)
}

/// The index of a compressed index, as `isize` coordinates.
pub open spec fn decompressed<const DIM: usize, TIndexer: TNDimIndexer<DIM>>(
    idx: TIndexer,
    c: int,
) -> Seq<isize> {
    Seq::new(DIM as nat, |i: int| idx.ndim_decompress(c)[i] as isize)
}

/// The pairs of one phase, among the first `upto` compressed indexes: each index whose coordinate
/// `dim` has a remainder by 2 other than `rem`, with its neighbour one step up along `dim` when
/// that neighbour is inside the ranges, as `(compressed index, neighbour's compressed index, dim)`.
pub open spec fn phase_pairs<const DIM: usize, TIndexer: TNDimIndexer<DIM>>(
    idx: TIndexer,
    dim: int,
    rem: int,
    upto: int,
) -> Seq<(usize, usize, usize)>
    decreases upto,
{
    if upto <= 0 {
        Seq::empty()
    } else {
        let prev = phase_pairs(idx, dim, rem, upto - 1);
        let p = decompressed::<DIM, TIndexer>(idx, upto - 1);
        if rust_rem2(p[dim] as int) != rem && ranges_contain(step_up(p, dim), idx.ndim_lens()) {
            prev.push(((upto - 1) as usize, idx.ndim_compress(step_up(p, dim)) as usize, dim as usize))
        } else {
            prev
        }
    }
}

/// The pairs of dimensions `0..dims`, dimension by dimension, each in two phases: first the
/// indexes whose coordinate has a remainder other than 1, then those with a remainder other than
/// 0.
pub open spec fn pair_phases<const DIM: usize, TIndexer: TNDimIndexer<DIM>>(
    idx: TIndexer,
    dims: int,
) -> Seq<(usize, usize, usize)>
    decreases dims,
{
    if dims <= 0 {
        Seq::empty()
    } else {
        pair_phases(idx, dims - 1) + phase_pairs(idx, dims - 1, 1, idx.ndim_length())
            + phase_pairs(idx, dims - 1, 0, idx.ndim_length())
    }
}

/// A pair of one phase, as [phase_pairs] makes it: its first index has a remainder other than
/// `rem` along `dim`, and its second is the first one step up along `dim`, inside the ranges.
pub open spec fn phase_pair_ok<const DIM: usize, TIndexer: TNDimIndexer<DIM>>(
    idx: TIndexer,
    dim: int,
    rem: int,
    pair: (usize, usize, usize),
) -> bool {
    let p = decompressed::<DIM, TIndexer>(idx, pair.0 as int);
    &&& rust_rem2(p[dim] as int) != rem
    &&& ranges_contain(step_up(p, dim), idx.ndim_lens())
    &&& pair.1 == idx.ndim_compress(step_up(p, dim))
    &&& pair.2 == dim
}

/// Whether compressed index `c` starts a pair of the phase along `dim` that leaves out remainder
/// `rem`: its coordinate `dim` has a remainder by 2 (Rust's, negative for negative coordinates)
/// other than `rem`, and the index one step up along `dim` is inside the ranges.
pub open spec fn phase_index_ok<const DIM: usize, TIndexer: TNDimIndexer<DIM>>(
    idx: TIndexer,
    dim: int,
    rem: int,
    c: int,
) -> bool {
    let p = decompressed::<DIM, TIndexer>(idx, c);
    &&& rust_rem2(p[dim] as int) != rem
    &&& ranges_contain(step_up(p, dim), idx.ndim_lens())
}

/// The pairs of one phase, stated directly: each compressed index `c` below the length that
/// [phase_index_ok] admits starts exactly one pair, `(c, the compressed index of c one step up
/// along dim, dim)`, no other index starts one, and the pairs come in increasing order of `c`.
pub proof fn lemma_phase_pairs_set<const DIM: usize, TIndexer: TNDimIndexer<DIM>>(
    idx: TIndexer,
    dim: int,
    rem: int,
)
    requires
        idx.ndim_wf(),
        0 <= dim < DIM,
    ensures
        ({
            let ps = phase_pairs::<DIM, TIndexer>(idx, dim, rem, idx.ndim_length());
            &&& forall|a: int|
                0 <= a < ps.len() ==> #[trigger] ps[a].0 < idx.ndim_length() && phase_pair_ok::<
                    DIM,
                    TIndexer,
                >(idx, dim, rem, ps[a])
            &&& forall|a: int, b: int| 0 <= a < b < ps.len() ==> #[trigger] ps[a].0 < #[trigger] ps[b].0
            &&& forall|c: int|
                0 <= c < idx.ndim_length() ==> (#[trigger] phase_index_ok::<DIM, TIndexer>(
                    idx,
                    dim,
                    rem,
                    c,
                ) <==> exists|a: int| 0 <= a < ps.len() && ps[a].0 == c)
        }),
{
    let ps = phase_pairs::<DIM, TIndexer>(idx, dim, rem, idx.ndim_length());
    lemma_phase_pairs_shape::<DIM, TIndexer>(idx, dim, rem, idx.ndim_length());
    assert forall|c: int| 0 <= c < idx.ndim_length() implies (#[trigger] phase_index_ok::<
        DIM,
        TIndexer,
    >(idx, dim, rem, c) <==> exists|a: int| 0 <= a < ps.len() && ps[a].0 == c) by {
        if exists|a: int| 0 <= a < ps.len() && ps[a].0 == c {
            let a = choose|a: int| 0 <= a < ps.len() && ps[a].0 == c;
            assert(phase_pair_ok::<DIM, TIndexer>(idx, dim, rem, ps[a]));
        }
    }
}

/// The pairs among the first `upto` compressed indexes are well made and in increasing order of
/// their first index.
proof fn lemma_phase_pairs_shape<const DIM: usize, TIndexer: TNDimIndexer<DIM>>(
    idx: TIndexer,
    dim: int,
    rem: int,
    upto: int,
)
    requires
        idx.ndim_wf(),
        0 <= dim < DIM,
        upto <= idx.ndim_length(),
    ensures
        ({
            let ps = phase_pairs::<DIM, TIndexer>(idx, dim, rem, upto);
            &&& forall|a: int|
                0 <= a < ps.len() ==> #[trigger] ps[a].0 < upto && phase_pair_ok::<DIM, TIndexer>(
                    idx,
                    dim,
                    rem,
                    ps[a],
                )
            &&& forall|a: int, b: int| 0 <= a < b < ps.len() ==> #[trigger] ps[a].0 < #[trigger] ps[b].0
            &&& forall|c: int|
                0 <= c < upto && #[trigger] phase_index_ok::<DIM, TIndexer>(idx, dim, rem, c)
                    ==> exists|a: int| 0 <= a < ps.len() && ps[a].0 == c
        }),
    decreases upto,
{
    if upto > 0 {
        lemma_phase_pairs_shape::<DIM, TIndexer>(idx, dim, rem, upto - 1);
        idx.lemma_ndim_compressed_roundtrip(upto - 1);
        let p = decompressed::<DIM, TIndexer>(idx, upto - 1);
        let prev = phase_pairs::<DIM, TIndexer>(idx, dim, rem, upto - 1);
        let ps = phase_pairs::<DIM, TIndexer>(idx, dim, rem, upto);
        if rust_rem2(p[dim] as int) != rem && ranges_contain(step_up(p, dim), idx.ndim_lens()) {
            idx.lemma_ndim_roundtrip(step_up(p, dim));
            let x = ((upto - 1) as usize, idx.ndim_compress(step_up(p, dim)) as usize, dim as usize);
            assert(ps == prev.push(x));
            assert(x.0 as int == upto - 1);
            assert(phase_pair_ok::<DIM, TIndexer>(idx, dim, rem, x));
            assert forall|a: int| 0 <= a < ps.len() implies #[trigger] ps[a].0 < upto
                && phase_pair_ok::<DIM, TIndexer>(idx, dim, rem, ps[a]) by {
                if a < prev.len() {
                    assert(ps[a] == prev[a]);
                }
            }
            assert forall|a: int, b: int| 0 <= a < b < ps.len() implies #[trigger] ps[a].0
                < #[trigger] ps[b].0 by {
                assert(ps[a] == prev[a]);
                if b < prev.len() {
                    assert(ps[b] == prev[b]);
                }
            }
            assert forall|c: int|
                0 <= c < upto && #[trigger] phase_index_ok::<DIM, TIndexer>(idx, dim, rem, c)
                    implies exists|a: int| 0 <= a < ps.len() && ps[a].0 == c by {
                if c < upto - 1 {
                    let a = choose|a: int| 0 <= a < prev.len() && prev[a].0 == c;
                    assert(ps[a] == prev[a]);
                } else {
                    assert(ps[prev.len() as int] == x);
                }
            }
        } else {
            assert(ps == prev);
            assert forall|c: int|
                0 <= c < upto && #[trigger] phase_index_ok::<DIM, TIndexer>(idx, dim, rem, c)
                    implies exists|a: int| 0 <= a < ps.len() && ps[a].0 == c by {
                if c == upto - 1 {
                    assert(false);
                }
            }
        }
    }
}

/// Every pair of [pair_phases] joins an index inside the ranges and its neighbour one step up
/// along the pair's dimension, one of the first `dims`; and every index whose neighbour one step
/// up along one of those dimensions lies inside the ranges starts a pair along it.
pub proof fn lemma_pair_phases_cover<const DIM: usize, TIndexer: TNDimIndexer<DIM>>(
    idx: TIndexer,
    dims: int,
)
    requires
        idx.ndim_wf(),
        0 <= dims <= DIM,
    ensures
        ({
            let ps = pair_phases::<DIM, TIndexer>(idx, dims);
            &&& forall|x: int|
                0 <= x < ps.len() ==> {
                    let p = decompressed::<DIM, TIndexer>(idx, (#[trigger] ps[x]).0 as int);
                    &&& ps[x].0 < idx.ndim_length()
                    &&& ps[x].2 < dims
                    &&& ranges_contain(step_up(p, ps[x].2 as int), idx.ndim_lens())
                    &&& ps[x].1 == idx.ndim_compress(step_up(p, ps[x].2 as int))
                }
            &&& forall|c: int, dim: int|
                0 <= c < idx.ndim_length() && 0 <= dim < dims && #[trigger] ranges_contain(
                    step_up(decompressed::<DIM, TIndexer>(idx, c), dim),
                    idx.ndim_lens(),
                ) ==> exists|x: int| 0 <= x < ps.len() && ps[x].0 == c && ps[x].2 == dim
        }),
    decreases dims,
{
    if dims > 0 {
        lemma_pair_phases_cover::<DIM, TIndexer>(idx, dims - 1);
        let prev = pair_phases::<DIM, TIndexer>(idx, dims - 1);
        let n = idx.ndim_length();
        let pa = phase_pairs::<DIM, TIndexer>(idx, dims - 1, 1, n);
        let pb = phase_pairs::<DIM, TIndexer>(idx, dims - 1, 0, n);
        let ps = pair_phases::<DIM, TIndexer>(idx, dims);
        assert(ps == prev + pa + pb);
        lemma_phase_pairs_set::<DIM, TIndexer>(idx, dims - 1, 1);
        lemma_phase_pairs_set::<DIM, TIndexer>(idx, dims - 1, 0);
        assert forall|x: int| 0 <= x < ps.len() implies {
            let p = decompressed::<DIM, TIndexer>(idx, (#[trigger] ps[x]).0 as int);
            &&& ps[x].0 < idx.ndim_length()
            &&& ps[x].2 < dims
            &&& ranges_contain(step_up(p, ps[x].2 as int), idx.ndim_lens())
            &&& ps[x].1 == idx.ndim_compress(step_up(p, ps[x].2 as int))
        } by {
            if x < prev.len() {
                assert(ps[x] == prev[x]);
            } else if x < prev.len() + pa.len() {
                assert(ps[x] == pa[x - prev.len()]);
            } else {
                assert(ps[x] == pb[x - prev.len() - pa.len()]);
            }
        }
        assert forall|c: int, dim: int|
            0 <= c < idx.ndim_length() && 0 <= dim < dims && #[trigger] ranges_contain(
                step_up(decompressed::<DIM, TIndexer>(idx, c), dim),
                idx.ndim_lens(),
            ) implies exists|x: int| 0 <= x < ps.len() && ps[x].0 == c && ps[x].2 == dim by {
            if dim < dims - 1 {
                let x = choose|x: int| 0 <= x < prev.len() && prev[x].0 == c && prev[x].2 == dim;
                assert(ps[x] == prev[x]);
            } else {
                let p = decompressed::<DIM, TIndexer>(idx, c);
                if rust_rem2(p[dim] as int) != 1 {
                    assert(phase_index_ok::<DIM, TIndexer>(idx, dim, 1, c));
                    let a = choose|a: int| 0 <= a < pa.len() && pa[a].0 == c;
                    assert(ps[prev.len() + a] == pa[a]);
                } else {
                    assert(phase_index_ok::<DIM, TIndexer>(idx, dim, 0, c));
                    let a = choose|a: int| 0 <= a < pb.len() && pb[a].0 == c;
                    assert(ps[prev.len() + pa.len() + a] == pb[a]);
                }
            }
        }
    }
}

/// Within one phase no compressed index takes part in two pairs, and no pair joins an index
/// with itself, when no range reaches below zero: the pairs of a phase can be worked on at once.
#[verifier::spinoff_prover]
pub proof fn lemma_phase_pairs_disjoint<const DIM: usize, TIndexer: TNDimIndexer<DIM>>(
    idx: TIndexer,
    dim: int,
    rem: int,
)
    requires
        idx.ndim_wf(),
        0 <= dim < DIM,
        rem == 0 || rem == 1,
        forall|i: int| 0 <= i < DIM ==> #[trigger] idx.ndim_lens()[i].start >= 0,
    ensures
        ({
            let ps = phase_pairs::<DIM, TIndexer>(idx, dim, rem, idx.ndim_length());
            &&& forall|a: int| 0 <= a < ps.len() ==> #[trigger] ps[a].0 != ps[a].1
            &&& forall|a: int, b: int|
                0 <= a < ps.len() && 0 <= b < ps.len() && a != b ==> {
                    &&& #[trigger] ps[a].0 != #[trigger] ps[b].0
                    &&& ps[a].0 != ps[b].1
                    &&& ps[a].1 != ps[b].1
                }
        }),
{
    let n = idx.ndim_length();
    let ps = phase_pairs::<DIM, TIndexer>(idx, dim, rem, n);
    lemma_phase_pairs_shape::<DIM, TIndexer>(idx, dim, rem, n);
    assert forall|a: int| 0 <= a < ps.len() implies #[trigger] ps[a].0 != ps[a].1 by {
        lemma_pair_not_self::<DIM, TIndexer>(idx, dim, rem, ps[a]);
    }
    assert forall|a: int, b: int|
        0 <= a < ps.len() && 0 <= b < ps.len() && a != b implies {
            &&& #[trigger] ps[a].0 != #[trigger] ps[b].0
            &&& ps[a].0 != ps[b].1
            &&& ps[a].1 != ps[b].1
        } by {
        assert(ps[a].0 != ps[b].0) by {
            if a < b {
                assert(ps[a].0 < ps[b].0);
            } else {
                assert(ps[b].0 < ps[a].0);
            }
        }
        lemma_pair_not_chained::<DIM, TIndexer>(idx, dim, rem, ps[a], ps[b]);
        lemma_pair_seconds_differ::<DIM, TIndexer>(idx, dim, rem, ps[a], ps[b]);
    }
}

/// The decompressed form of a compressed index below the length lies inside the ranges, and its
/// coordinates are those of the decompressed integers.
proof fn lemma_decompressed_facts<const DIM: usize, TIndexer: TNDimIndexer<DIM>>(idx: TIndexer, c: int)
    requires
        idx.ndim_wf(),
        0 <= c < idx.ndim_length(),
    ensures
        ranges_contain(decompressed::<DIM, TIndexer>(idx, c), idx.ndim_lens()),
        idx.ndim_compress(decompressed::<DIM, TIndexer>(idx, c)) == c,
        forall|i: int| 0 <= i < DIM ==> #[trigger] decompressed::<DIM, TIndexer>(idx, c)[i] as int
            == idx.ndim_decompress(c)[i],
{
    idx.lemma_ndim_compressed_roundtrip(c);
    let q = decompressed::<DIM, TIndexer>(idx, c);
    assert forall|i: int| 0 <= i < DIM implies #[trigger] q[i] as int == idx.ndim_decompress(c)[i] by {
        assert(idx.ndim_lens()[i].start <= idx.ndim_decompress(c)[i] < idx.ndim_lens()[i].end);
    }
    assert(q =~= Seq::new(DIM as nat, |i: int| idx.ndim_decompress(c)[i] as isize));
}

/// The index whose compressed form is the compressed form of an index inside the ranges is that index.
proof fn lemma_decompressed_of_compress<const DIM: usize, TIndexer: TNDimIndexer<DIM>>(
    idx: TIndexer,
    q: Seq<isize>,
)
    requires
        idx.ndim_wf(),
        ranges_contain(q, idx.ndim_lens()),
        q.len() == DIM,
    ensures
        0 <= idx.ndim_compress(q) < idx.ndim_length(),
        decompressed::<DIM, TIndexer>(idx, idx.ndim_compress(q)) == q,
{
    idx.lemma_ndim_roundtrip(q);
    let c = idx.ndim_compress(q);
    lemma_decompressed_facts::<DIM, TIndexer>(idx, c);
    let d = decompressed::<DIM, TIndexer>(idx, c);
    assert forall|i: int| 0 <= i < DIM implies d[i] == q[i] by {
        assert(d[i] as int == idx.ndim_decompress(c)[i]);
        assert(ints_of_isize(q)[i] == q[i] as int);
    }
    assert(d =~= q);
}

/// No pair of a phase joins an index with itself.
proof fn lemma_pair_not_self<const DIM: usize, TIndexer: TNDimIndexer<DIM>>(
    idx: TIndexer,
    dim: int,
    rem: int,
    pa: (usize, usize, usize),
)
    requires
        idx.ndim_wf(),
        0 <= dim < DIM,
        pa.0 < idx.ndim_length(),
        phase_pair_ok::<DIM, TIndexer>(idx, dim, rem, pa),
    ensures
        pa.0 != pa.1,
{
    let p = decompressed::<DIM, TIndexer>(idx, pa.0 as int);
    let q = step_up(p, dim);
    lemma_decompressed_facts::<DIM, TIndexer>(idx, pa.0 as int);
    lemma_decompressed_of_compress::<DIM, TIndexer>(idx, q);
    if pa.0 == pa.1 {
        assert(q[dim] == p[dim]);
        assert(false);
    }
}

/// The first index of one pair is never the second index of another pair of the same phase.
proof fn lemma_pair_not_chained<const DIM: usize, TIndexer: TNDimIndexer<DIM>>(
    idx: TIndexer,
    dim: int,
    rem: int,
    pa: (usize, usize, usize),
    pb: (usize, usize, usize),
)
    requires
        idx.ndim_wf(),
        0 <= dim < DIM,
        rem == 0 || rem == 1,
        forall|i: int| 0 <= i < DIM ==> #[trigger] idx.ndim_lens()[i].start >= 0,
        pa.0 < idx.ndim_length(),
        pb.0 < idx.ndim_length(),
        phase_pair_ok::<DIM, TIndexer>(idx, dim, rem, pa),
        phase_pair_ok::<DIM, TIndexer>(idx, dim, rem, pb),
    ensures
        pa.0 != pb.1,
{
    let p = decompressed::<DIM, TIndexer>(idx, pa.0 as int);
    let r = decompressed::<DIM, TIndexer>(idx, pb.0 as int);
    let q = step_up(r, dim);
    lemma_decompressed_facts::<DIM, TIndexer>(idx, pa.0 as int);
    lemma_decompressed_facts::<DIM, TIndexer>(idx, pb.0 as int);
    lemma_decompressed_of_compress::<DIM, TIndexer>(idx, q);
    if pa.0 == pb.1 {
        assert(p == q);
        assert(idx.ndim_lens()[dim].start >= 0);
        assert(0 <= r[dim]);
        assert(0 <= q[dim]);
        assert(q[dim] == r[dim] + 1);
        assert(rust_rem2(p[dim] as int) != rust_rem2(r[dim] as int));
        assert(false);
    }
}

/// Two pairs of one phase with different first indexes have different second indexes.
proof fn lemma_pair_seconds_differ<const DIM: usize, TIndexer: TNDimIndexer<DIM>>(
    idx: TIndexer,
    dim: int,
    rem: int,
    pa: (usize, usize, usize),
    pb: (usize, usize, usize),
)
    requires
        idx.ndim_wf(),
        0 <= dim < DIM,
        pa.0 < idx.ndim_length(),
        pb.0 < idx.ndim_length(),
        pa.0 != pb.0,
        phase_pair_ok::<DIM, TIndexer>(idx, dim, rem, pa),
        phase_pair_ok::<DIM, TIndexer>(idx, dim, rem, pb),
    ensures
        pa.1 != pb.1,
{
    let p = decompressed::<DIM, TIndexer>(idx, pa.0 as int);
    let r = decompressed::<DIM, TIndexer>(idx, pb.0 as int);
    lemma_decompressed_facts::<DIM, TIndexer>(idx, pa.0 as int);
    lemma_decompressed_facts::<DIM, TIndexer>(idx, pb.0 as int);
    lemma_decompressed_of_compress::<DIM, TIndexer>(idx, step_up(p, dim));
    lemma_decompressed_of_compress::<DIM, TIndexer>(idx, step_up(r, dim));
    if pa.1 == pb.1 {
        assert(step_up(p, dim) == step_up(r, dim));
        assert(p[dim] == r[dim]) by {
            assert(step_up(p, dim)[dim] == step_up(r, dim)[dim]);
        }
        assert(p =~= r) by {
            assert forall|i: int| 0 <= i < DIM implies p[i] == r[i] by {
                if i != dim {
                    assert(step_up(p, dim)[i] == step_up(r, dim)[i]);
                }
            }
        }
        assert(false);
    }
}

impl<TIndexer: TNDimIndexer<DIM>, const DIM: usize, T> NDimArray<TIndexer, DIM, T> {
    /// One phase of [Self::pair_schedule].
    fn phase_schedule(&self, dim: usize, rem: isize, out: &mut Vec<(usize, usize, usize)>)
        requires
            self.wf(),
            dim < DIM,
            rem == 0 || rem == 1,
        ensures
            final(out)@ == old(out)@ + phase_pairs(
                self.indexer_view(),
                dim as int,
                rem as int,
                self.indexer_view().ndim_length(),
            ),
    {
        let length = self.n_dim_index.length();
        let ghost start = out@;
        let mut c: usize = 0;
        while c < length
            invariant
                0 <= c <= length,
                self.wf(),
                dim < DIM,
                length == self.indexer_view().ndim_length(),
                out@ == start + phase_pairs(self.indexer_view(), dim as int, rem as int, c as int),
            decreases length - c,
        {
            let p = self.n_dim_index.decompress_index(c);
            let ghost pd = decompressed::<DIM, TIndexer>(self.indexer_view(), c as int);
            proof {
                assert(p@ =~= pd) by {
                    assert forall|i: int| 0 <= i < DIM implies p@[i] == pd[i] by {
                        assert(ints_of_isize(p@)[i] == p@[i] as int);
                    }
                }
            }
            let r = p[dim].checked_rem(2).unwrap();
            if r != rem {
                let mut p2 = p;
                p2[dim] = p[dim] + 1;
                proof {
                    assert(p2@ =~= step_up(pd, dim as int));
                }
                if self.n_dim_index.contains(&p2) {
                    let c2 = self.n_dim_index.compress_index(&p2);
                    out.push((c, c2, dim));
                }
            }
            c = c + 1;
        }
    }

    /// The pairs of one phase of [Self::pair_schedule]: along `dim`, from the indexes whose
    /// coordinate there has a remainder by 2 other than `rem`.
    pub fn pair_phase(&self, dim: usize, rem: isize) -> (res: Vec<(usize, usize, usize)>)
        requires
            self.wf(),
            dim < DIM,
            rem == 0 || rem == 1,
        ensures
            res@ == phase_pairs(
                self.indexer_view(),
                dim as int,
                rem as int,
                self.indexer_view().ndim_length(),
            ),
    {
        let mut out: Vec<(usize, usize, usize)> = Vec::new();
        self.phase_schedule(dim, rem, &mut out);
        assert(out@ =~= phase_pairs(
            self.indexer_view(),
            dim as int,
            rem as int,
            self.indexer_view().ndim_length(),
        ));
        out
    }

    /// The pairs of neighbouring values, as compressed indexes and the dimension along which they
    /// are neighbours, in the phases of [pair_phases]; the pairs of one phase are meant to be run at
    /// once, the phases in turn.
    pub fn pair_schedule(&self) -> (res: Vec<(usize, usize, usize)>)
        requires
            self.wf(),
        ensures
            res@ == pair_phases::<DIM, TIndexer>(self.indexer_view(), DIM as int),
    {
        let mut out: Vec<(usize, usize, usize)> = Vec::new();
        let mut dim: usize = 0;
        while dim < DIM
            invariant
                0 <= dim <= DIM,
                self.wf(),
                out@ == pair_phases::<DIM, TIndexer>(self.indexer_view(), dim as int),
            decreases DIM - dim,
        {
            self.phase_schedule(dim, 1, &mut out);
            self.phase_schedule(dim, 0, &mut out);
            dim = dim + 1;
        }
        out
    }
}

} // verus!
