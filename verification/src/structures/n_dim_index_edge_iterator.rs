//! [NDimIndexEdgeIterator]: walks the face of an indexer's box where one coordinate is fixed at
//! its first or its last value.
use vstd::prelude::*;
use crate::structures::dim_dir::DimDir;
use crate::structures::mixed_radix::{
    ints_of_isize, all_positive, lemma_digits_value, radix_digits, radix_prod,
};
use vstd::arithmetic::div_mod::{
    lemma_fundamental_div_mod, lemma_fundamental_div_mod_converse, lemma_div_pos_is_pos,
    lemma_mod_pos_bound,
};
use crate::structures::n_dim_index::{
    NDimIndex, NDimIndexer, compress_spec, decompress_spec, range_extents, ranges_contain,
};
use crate::structures::n_dim_index_operator::NDimIndexOperator;
use crate::structures::n_dim_index_u::lemma_digits_len;

verus! {

broadcast use vstd::array::group_array_axioms;

/// The integer coordinates as `isize`.
pub open spec fn as_isizes(p: Seq<int>) -> Seq<isize> {
    p.map_values(|x: int| x as isize)
}

/// Where one step of the walk goes from compressed index `c`, or `None` where the walk ends: one
/// step forward in compressed order; on the positive face a coordinate `dim` that wrapped to its
/// range's start is put back to `restricted`; on the negative face a coordinate `dim` that moved
/// off its range's start is put back to it and the step is carried into dimension `dim - 1`
/// instead.
pub open spec fn edge_step<const DIM: usize>(
    idx: NDimIndexer<DIM>,
    dim: int,
    positive: bool,
    restricted: int,
    c: int,
) -> Option<Seq<int>> {
    let len = idx.length_view();
    let l = idx.lens_view();
    let v1 = c + idx.steps_view()[DIM - 1];
    if v1 >= len {
        None
    } else {
        let p1 = decompress_spec(v1, l);
        if positive {
            Some(
                if p1[dim] == l[dim].start {
                    p1.update(dim, restricted)
                } else {
                    p1
                },
            )
        } else if p1[dim] != l[dim].start {
            if dim == 0 {
                None
            } else {
                let v3 = compress_spec(as_isizes(p1.update(dim, l[dim].start as int)), l)
                    + idx.steps_view()[dim - 1];
                if v3 >= len {
                    None
                } else {
                    Some(decompress_spec(v3, l))
                }
            }
        } else {
            Some(p1)
        }
    }
}

/// Walks the indexes whose coordinate `dim_dir.dim` is its last value (positive direction) or its
/// first value (negative direction).
pub struct NDimIndexEdgeIterator<'a, const DIM: usize> {
    operator: NDimIndexOperator<'a, DIM>,
    dim_dir: DimDir,
    ended: bool,
    started: bool,
    dim_restricted: isize,
}

impl<'a, const DIM: usize> NDimIndexEdgeIterator<'a, DIM> {
    /// The indexer walked.
    pub closed spec fn indexer_view(&self) -> NDimIndexer<DIM> {
        self.operator.indexer_view()
    }

    /// The index the walk is at.
    pub closed spec fn index_view(&self) -> Seq<int> {
        self.operator.index_view()
    }

    /// The compressed index the walk is at.
    pub closed spec fn compressed_view(&self) -> int {
        self.operator.compressed_view()
    }

    /// The face.
    pub closed spec fn dim_dir_view(&self) -> DimDir {
        self.dim_dir
    }

    /// The fixed coordinate.
    pub closed spec fn restricted_view(&self) -> int {
        self.dim_restricted as int
    }

    /// Whether the walk has ended.
    pub closed spec fn ended_view(&self) -> bool {
        self.ended
    }

    /// Whether the start has been yielded.
    pub closed spec fn started_view(&self) -> bool {
        self.started
    }

    /// The operator is well formed, the face names a dimension, every range is non-empty, and
    /// the fixed coordinate is the face's value.
    pub closed spec fn wf(&self) -> bool {
        &&& self.operator.wf()
        &&& self.dim_dir.dim < DIM
        &&& DIM > 0
        &&& forall|i: int|
            0 <= i < DIM ==> #[trigger] self.operator.indexer_view().lens_view()[i].start
                < self.operator.indexer_view().lens_view()[i].end
        &&& self.operator.indexer_view().lens_view()[self.dim_dir.dim as int].start
            <= self.dim_restricted < self.operator.indexer_view().lens_view()[self.dim_dir.dim as int].end
        &&& self.dim_restricted == face_value(
            self.operator.indexer_view(),
            self.dim_dir.dim as int,
            self.dim_dir.dir_positive,
        )
    }

    /// The compressed index is that of the index.
    proof fn lemma_compressed_agrees(&self)
        requires
            self.wf(),
        ensures
            self.compressed_view() == compress_spec(
                as_isizes(self.index_view()),
                self.indexer_view().lens_view(),
            ),
    {
        self.operator.lemma_compressed_of_view();
        assert(as_isizes(self.index_view()) =~= self.index_view().map_values(|x: int| x as isize));
    }

    /// Starts at the index with every coordinate at its range's start but coordinate `dim_dir.dim`,
    /// which is its last value for the positive direction and its first for the negative one;
    /// that index is the first one yielded. Every range must be non-empty.
    pub fn new(indexer: &'a NDimIndexer<DIM>, dim_dir: DimDir) -> (res: Self)
        requires
            indexer.wf(),
            DIM > 0,
            dim_dir.dim < DIM,
            forall|i: int|
                0 <= i < DIM ==> #[trigger] indexer.lens_view()[i].start < indexer.lens_view()[i].end,
        ensures
            res.wf(),
            !res.ended_view(),
            !res.started_view(),
            res.indexer_view() == *indexer,
            res.dim_dir_view() == dim_dir,
            res.restricted_view() == face_value(*indexer, dim_dir.dim as int, dim_dir.dir_positive),
            res.index_view() == Seq::new(
                DIM as nat,
                |i: int| if i == dim_dir.dim {
                    res.restricted_view()
                } else {
                    indexer.lens_view()[i].start as int
                },
            ),
            res.compressed_view() == compress_spec(as_isizes(res.index_view()), indexer.lens_view()),
    {
        let dim = dim_dir.dim;
        let lens = indexer.lens();
        proof {
            assert(lens@[dim as int].start < lens@[dim as int].end);
        }
        let dim_restricted = if dim_dir.dir_positive {
            lens[dim].end - 1
        } else {
            lens[dim].start
        };
        let mut start: NDimIndex<DIM> = [0isize; DIM];
        let mut i: usize = 0;
        while i < DIM
            invariant
                0 <= i <= DIM,
                lens@ == indexer.lens_view(),
                forall|j: int| 0 <= j < i ==> #[trigger] start@[j] == lens@[j].start,
            decreases DIM - i,
        {
            start[i] = lens[i].start;
            i = i + 1;
        }
        start[dim] = dim_restricted;
        proof {
            indexer.lemma_wf_facts();
            assert forall|i: int| 0 <= i < DIM implies indexer.lens_view()[i].start
                <= #[trigger] start@[i] < indexer.lens_view()[i].end by {
                assert(indexer.lens_view()[i].start < indexer.lens_view()[i].end);
            }
            assert(ranges_contain(start@, indexer.lens_view()));
        }
        let operator = NDimIndexOperator::from_index(indexer, start).unwrap();
        let res = Self { operator, dim_dir, ended: false, started: false, dim_restricted };
        proof {
            res.operator.lemma_compressed_of_view();
            assert(as_isizes(res.index_view()) =~= res.index_view().map_values(|x: int| x as isize));
            assert(ints_of_isize(start@) =~= Seq::new(
                DIM as nat,
                |i: int| if i == dim_dir.dim {
                    res.restricted_view()
                } else {
                    indexer.lens_view()[i].start as int
                },
            ));
        }
        res
    }

    /// The first call returns the start and its compressed index. Each later call takes one step
    /// of the walk ([edge_step]) and returns the index and compressed index it reaches; it
    /// returns `None`, and ends the walk, where [edge_step] ends it. The compressed index
    /// returned is always that of the index returned.
    pub fn next(&mut self) -> (res: Option<(NDimIndex<DIM>, usize)>)
        requires
            old(self).wf(),
        ensures
            final(self).wf(),
            final(self).indexer_view() == old(self).indexer_view(),
            final(self).dim_dir_view() == old(self).dim_dir_view(),
            final(self).restricted_view() == old(self).restricted_view(),
            final(self).started_view(),
            final(self).compressed_view() == compress_spec(
                as_isizes(final(self).index_view()),
                final(self).indexer_view().lens_view(),
            ),
            old(self).ended_view() ==> res is None && final(self).ended_view(),
            !old(self).ended_view() && !old(self).started_view() ==> {
                &&& !final(self).ended_view()
                &&& final(self).index_view() == old(self).index_view()
                &&& res matches Some(r) && ints_of_isize(r.0@) == old(self).index_view() && r.1
                    == old(self).compressed_view()
            },
            !old(self).ended_view() && old(self).started_view() ==> match edge_step(
                old(self).indexer_view(),
                old(self).dim_dir_view().dim as int,
                old(self).dim_dir_view().dir_positive,
                old(self).restricted_view(),
                old(self).compressed_view(),
            ) {
                None => res is None && final(self).ended_view(),
                Some(p) => {
                    &&& !final(self).ended_view()
                    &&& final(self).index_view() == p
                    &&& res matches Some(r) && ints_of_isize(r.0@) == p && r.1
                        == final(self).compressed_view()
                },
            },
    {
        proof {
            self.operator.lemma_compressed_of_view();
            assert(as_isizes(self.index_view()) =~= self.index_view().map_values(|x: int| x as isize));
        }
        if self.ended {
            self.started = true;
            return None;
        }
        if !self.started {
            self.started = true;
            let index = *self.operator.get();
            return Some((index, self.operator.get_compressed()));
        }
        let dim = self.dim_dir.dim;
        let indexer = self.operator.indexer();
        let ghost idx = self.operator.indexer_view();
        let ghost l = idx.lens_view();
        let len = indexer.length();
        proof {
            self.operator.lemma_wf_bounds();
            idx.lemma_wf_facts();
            idx.lemma_step_le_length((DIM - 1) as int);
        }
        let step = indexer.steps()[DIM - 1];
        let c0 = self.operator.get_compressed();
        if c0 >= len - step {
            self.ended = true;
            proof {
                self.lemma_compressed_agrees();
            }
            return None;
        }
        self.operator = NDimIndexOperator::from_compressed(indexer, c0 + step).unwrap();
        if self.dim_dir.dir_positive {
            if self.operator.get()[dim] == indexer.lens()[dim].start {
                self.operator.set_n_at_dim(dim, self.dim_restricted);
            }
        } else {
            if self.operator.get()[dim] != indexer.lens()[dim].start {
                if 1 <= dim {
                    self.operator.set_n_at_dim(dim, self.dim_restricted);
                    proof {
                        self.operator.lemma_compressed_of_view();
                        assert(as_isizes(self.index_view()) =~= self.index_view().map_values(
                            |x: int| x as isize,
                        ));
                        self.operator.lemma_wf_bounds();
                        idx.lemma_step_le_length(dim - 1);
                    }
                    let step_up = indexer.steps()[dim - 1];
                    let c2 = self.operator.get_compressed();
                    if c2 >= len - step_up {
                        self.ended = true;
                        proof {
                            self.lemma_compressed_agrees();
                        }
                        return None;
                    }
                    self.operator = NDimIndexOperator::from_compressed(indexer, c2 + step_up).unwrap();
                } else {
                    self.ended = true;
                    proof {
                        self.lemma_compressed_agrees();
                    }
                    return None;
                }
            }
        }
        let index = *self.operator.get();
        proof {
            self.lemma_compressed_agrees();
        }
        Some((index, self.operator.get_compressed()))
    }
}

impl<const DIM: usize> NDimIndexer<DIM> {
    /// The walk over the face `dim_dir` ([NDimIndexEdgeIterator::new]).
    pub fn edge_iter(&self, dim_dir: DimDir) -> (res: NDimIndexEdgeIterator<'_, DIM>)
        requires
            self.wf(),
            DIM > 0,
            dim_dir.dim < DIM,
            forall|i: int|
                0 <= i < DIM ==> #[trigger] self.lens_view()[i].start < self.lens_view()[i].end,
        ensures
            res.wf(),
            !res.ended_view(),
            !res.started_view(),
            res.indexer_view() == *self,
            res.dim_dir_view() == dim_dir,
            res.restricted_view() == face_value(*self, dim_dir.dim as int, dim_dir.dir_positive),
            res.index_view() == Seq::new(
                DIM as nat,
                |i: int| if i == dim_dir.dim {
                    res.restricted_view()
                } else {
                    self.lens_view()[i].start as int
                },
            ),
            res.compressed_view() == compress_spec(as_isizes(res.index_view()), self.lens_view()),
    {
        NDimIndexEdgeIterator::new(self, dim_dir)
    }
}

/// One more than `v` has, at each digit, the digit of `v`, one more than it, or 0.
proof fn lemma_digits_succ(v: int, r: Seq<int>, k: int)
    requires
        all_positive(r),
        0 <= v,
        v + 1 < radix_prod(r),
        0 <= k < r.len(),
    ensures
        radix_digits(v + 1, r)[k] == radix_digits(v, r)[k] || radix_digits(v + 1, r)[k]
            == radix_digits(v, r)[k] + 1 || radix_digits(v + 1, r)[k] == 0,
    decreases k,
{
    let r0 = r[0];
    assert(r0 > 0);
    let r1 = r.drop_first();
    lemma_fundamental_div_mod(v, r0);
    lemma_mod_pos_bound(v, r0);
    lemma_div_pos_is_pos(v, r0);
    let q = v / r0;
    let m = v % r0;
    if m + 1 < r0 {
        lemma_fundamental_div_mod_converse(v + 1, r0, q, m + 1);
    } else {
        assert(v + 1 == (q + 1) * r0 + 0) by (nonlinear_arith)
            requires
                v == r0 * q + m,
                m + 1 == r0,
        ;
        lemma_fundamental_div_mod_converse(v + 1, r0, q + 1, 0);
    }
    lemma_digits_len(v + 1, r);
    lemma_digits_len(v, r);
    lemma_digits_len((v + 1) / r0, r1);
    lemma_digits_len(q, r1);
    if k > 0 {
        assert(radix_digits(v + 1, r)[k] == radix_digits((v + 1) / r0, r1)[k - 1]);
        assert(radix_digits(v, r)[k] == radix_digits(q, r1)[k - 1]);
        if m + 1 >= r0 {
            assert(all_positive(r1)) by {
                assert forall|i: int| 0 <= i < r1.len() implies #[trigger] r1[i] > 0 by {
                    assert(r1[i] == r[i + 1]);
                }
            }
            assert(radix_prod(r) == r0 * radix_prod(r1));
            assert(q + 1 < radix_prod(r1)) by (nonlinear_arith)
                requires
                    v + 1 < r0 * radix_prod(r1),
                    v + 1 == (q + 1) * r0,
                    r0 > 0,
            ;
            lemma_digits_succ(q, r1, k - 1);
        }
    }
}

/// Adding the place value of digit `m` changes none of the digits below it.
proof fn lemma_digits_add_place(v: int, r: Seq<int>, m: int, t: int)
    requires
        all_positive(r),
        0 <= v,
        0 <= t < m <= r.len(),
    ensures
        radix_digits(v + radix_prod(r.take(m)), r)[t] == radix_digits(v, r)[t],
    decreases m,
{
    let r0 = r[0];
    assert(r0 > 0);
    let r1 = r.drop_first();
    assert(r.take(m).drop_first() =~= r1.take(m - 1));
    let p1 = radix_prod(r1.take(m - 1));
    assert(radix_prod(r.take(m)) == r0 * p1);
    lemma_fundamental_div_mod(v, r0);
    lemma_mod_pos_bound(v, r0);
    lemma_div_pos_is_pos(v, r0);
    let q = v / r0;
    let rm = v % r0;
    assert(v + r0 * p1 == (q + p1) * r0 + rm) by (nonlinear_arith)
        requires
            v == r0 * q + rm,
    ;
    lemma_fundamental_div_mod_converse(v + r0 * p1, r0, q + p1, rm);
    lemma_digits_len(v + r0 * p1, r);
    lemma_digits_len(v, r);
    lemma_digits_len(q + p1, r1);
    lemma_digits_len(q, r1);
    if t > 0 {
        assert(all_positive(r1)) by {
            assert forall|i: int| 0 <= i < r1.len() implies #[trigger] r1[i] > 0 by {
                assert(r1[i] == r[i + 1]);
            }
        }
        assert(radix_digits(v + r0 * p1, r)[t] == radix_digits(q + p1, r1)[t - 1]);
        assert(radix_digits(v, r)[t] == radix_digits(q, r1)[t - 1]);
        lemma_digits_add_place(q, r1, m - 1, t - 1);
    }
}

/// The fixed coordinate of a face: the last value of dimension `dim` for the positive face, the
/// first for the negative one.
pub open spec fn face_value<const DIM: usize>(idx: NDimIndexer<DIM>, dim: int, positive: bool) -> int {
    if positive {
        idx.lens_view()[dim].end - 1
    } else {
        idx.lens_view()[dim].start as int
    }
}

/// The walk never leaves its face: from an index on the face, a step that does not end the walk
/// reaches an index on the face again.
pub proof fn lemma_edge_step_on_face<const DIM: usize>(
    idx: NDimIndexer<DIM>,
    dim: int,
    positive: bool,
    c: int,
)
    requires
        idx.wf(),
        0 <= dim < DIM,
        forall|i: int|
            0 <= i < DIM ==> #[trigger] idx.lens_view()[i].start < idx.lens_view()[i].end,
        0 <= c < idx.length_view(),
        decompress_spec(c, idx.lens_view())[dim] == face_value(idx, dim, positive),
    ensures
        edge_step(idx, dim, positive, face_value(idx, dim, positive), c) matches Some(p) ==> p[dim]
            == face_value(idx, dim, positive),
{
    let l = idx.lens_view();
    let e = range_extents(l);
    let r = e.reverse();
    let len = idx.length_view();
    let fv = face_value(idx, dim, positive);
    idx.lemma_wf_facts();
    assert(all_positive(e)) by {
        assert forall|i: int| 0 <= i < e.len() implies #[trigger] e[i] > 0 by {
            assert(l[i].start < l[i].end);
        }
    }
    assert(all_positive(r)) by {
        assert forall|i: int| 0 <= i < r.len() implies #[trigger] r[i] > 0 by {
            assert(r[i] == e[e.len() - 1 - i]);
        }
    }
    assert(e.skip(DIM as int).reverse() =~= Seq::<int>::empty());
    assert(idx.steps_view()[DIM - 1] == 1);
    let k = DIM - 1 - dim;
    let v1 = c + 1;
    if v1 < len {
        lemma_digits_value(v1, r);
        lemma_digits_value(c, r);
        let p1 = decompress_spec(v1, l);
        assert(p1[dim] == radix_digits(v1, r)[k] + l[dim].start);
        assert(decompress_spec(c, l)[dim] == radix_digits(c, r)[k] + l[dim].start);
        assert(r[k] == e[dim]);
        if positive {
            lemma_digits_succ(c, r, k);
        } else if p1[dim] != l[dim].start && dim != 0 {
            let q = p1.update(dim, l[dim].start as int);
            let qi = as_isizes(q);
            assert forall|i: int| 0 <= i < DIM implies l[i].start <= #[trigger] qi[i] < l[i].end by {
                if i != dim {
                    let j = DIM - 1 - i;
                    assert(p1[i] == radix_digits(v1, r)[j] + l[i].start);
                    assert(0 <= radix_digits(v1, r)[j] < r[j]);
                    assert(r[j] == e[i]);
                }
            }
            assert(ranges_contain(qi, l));
            idx.lemma_index_roundtrip(qi);
            let w = compress_spec(qi, l);
            assert(ints_of_isize(qi)[dim] == l[dim].start);
            let m = DIM - dim;
            assert(e.skip(dim).reverse() =~= r.take(m));
            let v3 = w + idx.steps_view()[dim - 1];
            assert(v3 == w + radix_prod(r.take(m)));
            lemma_digits_add_place(w, r, m, k);
            assert(decompress_spec(w, l)[dim] == radix_digits(w, r)[k] + l[dim].start);
            assert(decompress_spec(v3, l)[dim] == radix_digits(v3, r)[k] + l[dim].start);
        }
    }
}

} // verus!
