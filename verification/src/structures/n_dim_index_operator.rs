//! [NDimIndexOperator]: an n-dimensional index kept together with its compressed form.
use vstd::prelude::*;
use crate::structures::mixed_radix::{ints_of_isize, radix_prod, radix_value};
use crate::structures::n_dim_index::{
    compress_spec, decompress_spec, range_extents, ranges_contain, rel_digits, NDimIndex,
    NDimIndexer,
};

verus! {

/// Changing one digit changes the value by the change times the product of the lower radices.
pub proof fn lemma_value_update(d: Seq<int>, r: Seq<int>, k: int, x: int)
    requires
        d.len() == r.len(),
        0 <= k < d.len(),
    ensures
        radix_value(d.update(k, x), r) == radix_value(d, r) + radix_prod(r.take(k)) * (x - d[k]),
    decreases k,
{
    if k == 0 {
        assert(d.update(0, x).drop_first() =~= d.drop_first());
        assert(r.take(0) =~= Seq::<int>::empty());
    } else {
        let d1 = d.drop_first();
        let r1 = r.drop_first();
        assert(d.update(k, x).drop_first() =~= d1.update(k - 1, x));
        lemma_value_update(d1, r1, k - 1, x);
        assert(r.take(k).drop_first() =~= r1.take(k - 1));
        let v1 = radix_value(d1, r1);
        let p = radix_prod(r1.take(k - 1));
        assert(r[0] * (v1 + p * (x - d[k])) == r[0] * v1 + (r[0] * p) * (x - d[k]))
            by (nonlinear_arith);
    }
}

/// Moving a coordinate of the range `start..end` by `n`, wrapping within the range, and then by
/// `-n` gives the coordinate back, and the two carries cancel ([NDimIndexOperator::move_n_at_dim]).
pub proof fn lemma_move_n_at_dim_inverse(start: int, end: int, x: int, n: int)
    requires
        start <= x < end,
    ensures
        ({
            let ext = end - start;
            let o1 = x + n - start;
            let x1 = start + o1 % ext;
            let o2 = x1 + (-n) - start;
            &&& start + o2 % ext == x
            &&& o1 / ext + o2 / ext == 0
        }),
{
    let ext = end - start;
    let o1 = x + n - start;
    let q1 = o1 / ext;
    let r1 = o1 % ext;
    vstd::arithmetic::div_mod::lemma_fundamental_div_mod(o1, ext);
    let o2 = start + r1 + (-n) - start;
    assert(o2 == (-q1) * ext + (x - start)) by (nonlinear_arith)
        requires
            o1 == ext * q1 + r1,
            o1 == x + n - start,
            o2 == r1 - n,
    ;
    vstd::arithmetic::div_mod::lemma_fundamental_div_mod_converse(o2, ext, -q1, x - start);
}

/// Floor division and the matching non-negative remainder.
fn floor_div_rem(x: isize, m: isize) -> (res: (isize, isize))
    requires
        m > 0,
    ensures
        res.0 == x / m,
        res.1 == x % m,
        0 <= res.1 < m,
{
    if x >= 0 {
        let q = ((x as usize) / (m as usize)) as isize;
        let r = ((x as usize) % (m as usize)) as isize;
        proof {
            vstd::arithmetic::div_mod::lemma_fundamental_div_mod(x as int, m as int);
            vstd::arithmetic::div_mod::lemma_div_pos_is_pos(x as int, m as int);
            assert(q as int * m as int <= x) by (nonlinear_arith)
                requires
                    x == m * q + r,
                    r >= 0,
            ;
            assert(q as int <= x) by (nonlinear_arith)
                requires
                    q as int * m as int <= x,
                    m >= 1,
                    q >= 0,
            ;
        }
        (q, r)
    } else {
        let a = -(x + 1);
        let qa = ((a as usize) / (m as usize)) as isize;
        let ra = ((a as usize) % (m as usize)) as isize;
        proof {
            vstd::arithmetic::div_mod::lemma_fundamental_div_mod(a as int, m as int);
            vstd::arithmetic::div_mod::lemma_div_pos_is_pos(a as int, m as int);
            assert(qa as int * m as int <= a) by (nonlinear_arith)
                requires
                    a == m * qa + ra,
                    ra >= 0,
            ;
            assert(qa as int <= a) by (nonlinear_arith)
                requires
                    qa as int * m as int <= a,
                    m >= 1,
                    qa >= 0,
            ;
        }
        let q = -qa - 1;
        let r = m - 1 - ra;
        proof {
            assert(x == q * m + r) by (nonlinear_arith)
                requires
                    a == m * qa + ra,
                    a == -(x + 1),
                    q == -qa - 1,
                    r == m - 1 - ra,
            ;
            vstd::arithmetic::div_mod::lemma_fundamental_div_mod_converse(
                x as int,
                m as int,
                q as int,
                r as int,
            );
        }
        (q, r)
    }
}

/// An index inside an [NDimIndexer]'s ranges, with its compressed form kept in step.
#[derive(Clone, Copy)]
pub struct NDimIndexOperator<'a, const DIM: usize> {
    indexer: &'a NDimIndexer<DIM>,
    index: NDimIndex<DIM>,
    compressed: usize,
}

impl<'a, const DIM: usize> NDimIndexOperator<'a, DIM> {
    /// The indexer the index lives in.
    pub closed spec fn indexer_view(&self) -> NDimIndexer<DIM> {
        *self.indexer
    }

    /// The indexer.
    pub fn indexer(&self) -> (res: &'a NDimIndexer<DIM>)
        ensures
            *res == self.indexer_view(),
    {
        self.indexer
    }

    /// The index.
    pub closed spec fn index_view(&self) -> Seq<int> {
        ints_of_isize(self.index@)
    }

    /// The compressed index.
    pub closed spec fn compressed_view(&self) -> int {
        self.compressed as int
    }

    /// The indexer is well formed, the index lies inside its ranges, and the compressed
    /// index is the index compressed.
    pub closed spec fn wf(&self) -> bool {
        &&& self.indexer.wf()
        &&& ranges_contain(self.index@, self.indexer.lens_view())
        &&& self.compressed == compress_spec(self.index@, self.indexer.lens_view())
    }

    /// A well formed operator's compressed index lies below the length, and its index has one
    /// coordinate per dimension, each inside its range.
    pub proof fn lemma_wf_bounds(&self)
        requires
            self.wf(),
        ensures
            self.indexer_view().wf(),
            0 <= self.compressed_view() < self.indexer_view().length_view(),
            self.index_view().len() == DIM,
            forall|i: int|
                0 <= i < DIM ==> self.indexer_view().lens_view()[i].start <= #[trigger] self.index_view()[i]
                    < self.indexer_view().lens_view()[i].end,
    {
        self.indexer.lemma_index_roundtrip(self.index@);
        assert forall|i: int| 0 <= i < DIM implies self.indexer_view().lens_view()[i].start
            <= #[trigger] self.index_view()[i] < self.indexer_view().lens_view()[i].end by {
            assert(self.index_view()[i] == self.index@[i] as int);
        }
    }

    /// The compressed index is the index, read back as `isize` coordinates, compressed.
    pub proof fn lemma_compressed_of_view(&self)
        requires
            self.wf(),
        ensures
            self.compressed_view() == compress_spec(
                self.index_view().map_values(|x: int| x as isize),
                self.indexer_view().lens_view(),
            ),
    {
        assert(self.index_view().map_values(|x: int| x as isize) =~= self.index@);
    }

    /// The operator at `index`, or `None` where the index lies outside the ranges.
    pub fn from_index(indexer: &'a NDimIndexer<DIM>, index: NDimIndex<DIM>) -> (res: Option<Self>)
        requires
            indexer.wf(),
        ensures
            res.is_some() == ranges_contain(index@, indexer.lens_view()),
            res matches Some(op) ==> op.wf() && op.indexer_view() == *indexer && op.index_view()
                == ints_of_isize(index@) && op.compressed_view() == compress_spec(
                index@,
                indexer.lens_view(),
            ),
    {
        if !indexer.contains(&index) {
            return None;
        }
        proof {
            indexer.lemma_index_roundtrip(index@);
            indexer.lemma_wf_facts();
            assert forall|i: int| 0 <= i < DIM implies indexer.lens_view()[i].start
                <= #[trigger] index@[i] && index@[i] - indexer.lens_view()[i].start
                <= isize::MAX by {
                assert(indexer.lens_view()[i].end - indexer.lens_view()[i].start <= isize::MAX);
            }
        }
        let compressed = indexer.compress_index(&index);
        Some(NDimIndexOperator { indexer, index, compressed })
    }

    /// The operator at compressed index `compressed`, or `None` where it is not below the length.
    pub fn from_compressed(indexer: &'a NDimIndexer<DIM>, compressed: usize) -> (res: Option<Self>)
        requires
            indexer.wf(),
        ensures
            res.is_some() == (compressed < indexer.length_view()),
            res matches Some(op) ==> op.wf() && op.indexer_view() == *indexer && op.index_view()
                == decompress_spec(compressed as int, indexer.lens_view())
                && op.compressed_view() == compressed,
    {
        if !indexer.contains_compressed(compressed) {
            return None;
        }
        proof {
            indexer.lemma_compressed_roundtrip(compressed as int);
            indexer.lemma_wf_facts();
        }
        let index = indexer.decompress_index(compressed);
        proof {
            let l = indexer.lens_view();
            let dec = decompress_spec(compressed as int, l);
            assert(rel_digits(index@, l) =~= Seq::new(DIM as nat, |i: int| dec[i] - l[i].start));
            assert forall|i: int| 0 <= i < DIM implies l[i].start <= #[trigger] index@[i]
                < l[i].end by {
                assert(index@[i] as int == ints_of_isize(index@)[i]);
            }
            assert(ranges_contain(index@, l));
            assert(compress_spec(index@, l) == compressed);
        }
        Some(NDimIndexOperator { indexer, index, compressed })
    }

    /// The index.
    pub fn get(&self) -> (res: &NDimIndex<DIM>)
        ensures
            ints_of_isize(res@) == self.index_view(),
    {
        &self.index
    }

    /// The compressed index.
    pub fn get_compressed(&self) -> (res: usize)
        ensures
            res == self.compressed_view(),
    {
        self.compressed
    }

    /// Moves `n` steps along the last dimension, carrying into the earlier ones and wrapping
    /// around the whole range; returns the number of times it wrapped (negative backwards).
    pub fn move_n_carry(&mut self, n: isize) -> (res: isize)
        requires
            old(self).wf(),
            DIM > 0,
            old(self).indexer_view().length_view() <= isize::MAX,
            isize::MIN <= n * old(self).indexer_view().steps_view()[DIM - 1] <= isize::MAX,
            isize::MIN <= old(self).compressed_view() + n * old(
                self,
            ).indexer_view().steps_view()[DIM - 1] <= isize::MAX,
        ensures
            final(self).wf(),
            final(self).indexer_view() == old(self).indexer_view(),
            ({
                let v = old(self).compressed_view() + n * old(self).indexer_view().steps_view()[DIM
                    - 1];
                let len = old(self).indexer_view().length_view();
                &&& res == v / len
                &&& final(self).compressed_view() == v % len
                &&& final(self).index_view() == decompress_spec(
                    v % len,
                    old(self).indexer_view().lens_view(),
                )
            }),
    {
        self.move_n_carry_at_dim(DIM - 1, n)
    }

    /// Moves `n` steps along dimension `dim_idx`, carrying into the earlier dimensions and
    /// wrapping around the whole range; returns the number of times it wrapped.
    pub fn move_n_carry_at_dim(&mut self, dim_idx: usize, n: isize) -> (res: isize)
        requires
            old(self).wf(),
            dim_idx < DIM,
            old(self).indexer_view().length_view() <= isize::MAX,
            isize::MIN <= n * old(self).indexer_view().steps_view()[dim_idx as int] <= isize::MAX,
            isize::MIN <= old(self).compressed_view() + n * old(
                self,
            ).indexer_view().steps_view()[dim_idx as int] <= isize::MAX,
        ensures
            final(self).wf(),
            final(self).indexer_view() == old(self).indexer_view(),
            ({
                let v = old(self).compressed_view() + n * old(
                    self,
                ).indexer_view().steps_view()[dim_idx as int];
                let len = old(self).indexer_view().length_view();
                &&& res == v / len
                &&& final(self).compressed_view() == v % len
                &&& final(self).index_view() == decompress_spec(
                    v % len,
                    old(self).indexer_view().lens_view(),
                )
            }),
    {
        let steps = self.indexer.steps();
        let step = steps[dim_idx];
        let length = self.indexer.length();
        proof {
            self.indexer.lemma_index_roundtrip(self.index@);
            self.indexer.lemma_wf_facts();
            self.indexer.lemma_step_le_length(dim_idx as int);
            assert(steps@.map_values(|x: usize| x as int)[dim_idx as int] == step as int);
            assert(step as int == self.indexer.steps_view()[dim_idx as int]);
            vstd::arithmetic::mul::lemma_mul_is_commutative(n as int, step as int);
        }
        let v = (self.compressed as isize) + n * (step as isize);
        let (q, r) = floor_div_rem(v, length as isize);
        let compressed = r as usize;
        proof {
            self.indexer.lemma_compressed_roundtrip(compressed as int);
        }
        let index = self.indexer.decompress_index(compressed);
        proof {
            let l = self.indexer.lens_view();
            let dec = decompress_spec(compressed as int, l);
            assert(rel_digits(index@, l) =~= Seq::new(DIM as nat, |i: int| dec[i] - l[i].start));
            assert forall|i: int| 0 <= i < DIM implies l[i].start <= #[trigger] index@[i]
                < l[i].end by {
                assert(index@[i] as int == ints_of_isize(index@)[i]);
            }
        }
        self.index = index;
        self.compressed = compressed;
        q
    }

    /// Moves `n` steps along dimension `dim_idx`, wrapping within that dimension only;
    /// returns the number of times it wrapped.
    pub fn move_n_at_dim(&mut self, dim_idx: usize, n: isize) -> (res: isize)
        requires
            old(self).wf(),
            dim_idx < DIM,
            isize::MIN <= old(self).index_view()[dim_idx as int] + n <= isize::MAX,
            isize::MIN <= old(self).index_view()[dim_idx as int] + n - old(
                self,
            ).indexer_view().lens_view()[dim_idx as int].start <= isize::MAX,
        ensures
            final(self).wf(),
            final(self).indexer_view() == old(self).indexer_view(),
            ({
                let range = old(self).indexer_view().lens_view()[dim_idx as int];
                let offset = old(self).index_view()[dim_idx as int] + n - range.start;
                let ext = range.end - range.start;
                &&& res == offset / ext
                &&& final(self).index_view() == old(self).index_view().update(
                    dim_idx as int,
                    range.start + offset % ext,
                )
            }),
    {
        let range = &self.indexer.lens()[dim_idx];
        let start = range.start;
        proof {
            self.indexer.lemma_wf_facts();
            self.indexer.lemma_index_roundtrip(self.index@);
            assert(range.end - range.start <= isize::MAX);
            assert(range_extents(self.indexer.lens_view())[dim_idx as int] > 0);
        }
        let ext = range.end - range.start;
        proof {
            assert(start <= self.index@[dim_idx as int] < range.end);
            assert(self.index_view()[dim_idx as int] == self.index@[dim_idx as int]);
        }
        let offset = self.index[dim_idx] + n - start;
        let (c, r) = floor_div_rem(offset, ext);
        let new_coord = start + r;
        self.set_coordinate(dim_idx, new_coord);
        c
    }

    /// Sets the coordinate at dimension `dim_idx` to `n`, which must lie in that dimension's range.
    pub fn set_n_at_dim(&mut self, dim_idx: usize, n: isize)
        requires
            old(self).wf(),
            dim_idx < DIM,
            old(self).indexer_view().lens_view()[dim_idx as int].start <= n < old(
                self,
            ).indexer_view().lens_view()[dim_idx as int].end,
        ensures
            final(self).wf(),
            final(self).indexer_view() == old(self).indexer_view(),
            final(self).index_view() == old(self).index_view().update(dim_idx as int, n as int),
    {
        self.set_coordinate(dim_idx, n);
    }

    /// Sets one coordinate and moves the compressed index by the same amount.
    fn set_coordinate(&mut self, dim_idx: usize, n: isize)
        requires
            old(self).wf(),
            dim_idx < DIM,
            old(self).indexer.lens_view()[dim_idx as int].start <= n < old(
                self,
            ).indexer.lens_view()[dim_idx as int].end,
        ensures
            final(self).wf(),
            final(self).indexer == old(self).indexer,
            final(self).index@ == old(self).index@.update(dim_idx as int, n),
    {
        let ghost l = self.indexer.lens_view();
        let ghost e = range_extents(l);
        let ghost old_index = self.index@;
        let ghost k = DIM - 1 - dim_idx;
        let steps = self.indexer.steps();
        let step = steps[dim_idx];
        let start = self.indexer.lens()[dim_idx].start;
        let cur = self.index[dim_idx];
        proof {
            self.indexer.lemma_index_roundtrip(self.index@);
            self.indexer.lemma_wf_facts();
            assert(steps@.map_values(|x: usize| x as int)[dim_idx as int] == step as int);
            assert(l[dim_idx as int].end - l[dim_idx as int].start <= isize::MAX);
            let new_index = old_index.update(dim_idx as int, n);
            let d = rel_digits(old_index, l);
            assert(rel_digits(new_index, l).reverse() =~= d.reverse().update(
                k,
                n - start,
            ));
            lemma_value_update(d.reverse(), e.reverse(), k, n - start);
            assert(e.skip(dim_idx + 1).reverse() =~= e.reverse().take(k));
            assert(step as int == radix_prod(e.reverse().take(k)));
            assert(d.reverse()[k] == cur - start);
            assert(ranges_contain(new_index, l)) by {
                assert forall|i: int| 0 <= i < DIM implies l[i].start <= #[trigger] new_index[i]
                    < l[i].end by {
                    if i != dim_idx {
                        assert(new_index[i] == old_index[i]);
                    }
                }
            }
            self.indexer.lemma_index_roundtrip(new_index);
        }
        if n >= cur {
            let delta = (n - cur) as usize;
            proof {
                assert(step * delta == radix_prod(e.reverse().take(k)) * (n - cur))
                    by (nonlinear_arith)
                    requires
                        step as int == radix_prod(e.reverse().take(k)),
                        delta as int == n - cur,
                ;
            }
            self.compressed = self.compressed + step * delta;
        } else {
            let delta = (cur - n) as usize;
            proof {
                assert(step * delta == -(radix_prod(e.reverse().take(k)) * (n - cur)))
                    by (nonlinear_arith)
                    requires
                        step as int == radix_prod(e.reverse().take(k)),
                        delta as int == cur - n,
                ;
            }
            self.compressed = self.compressed - step * delta;
        }
        self.index[dim_idx] = n;
    }
}

} // verus!
