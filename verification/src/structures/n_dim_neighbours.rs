//! Looking up a value of an [NDimArray] together with its neighbours along every dimension.
use vstd::prelude::*;
use crate::collections::shifted_array::array_from_vec;
use crate::structures::mixed_radix::ints_of_isize;
use crate::structures::n_dim_array::NDimArray;
use crate::structures::n_dim_index::{NDimIndex, NDimIndexer, TNDimIndexer, ranges_contain};
use crate::structures::n_dim_index_operator::NDimIndexOperator;

verus! {

/// A value and, per dimension, what was found one step up and one step down, with the indexes.
#[derive(Debug)]
pub struct NDimArrayGetWithNeiborhoodsResult<const DIM: usize, T, TNeiborhood> {
    pub cur: T,
    pub neiborhoods: [((TNeiborhood, NDimIndex<DIM>), (TNeiborhood, NDimIndex<DIM>)); DIM],
}

/// `index` moved one step along `dim`, wrapping within that dimension's range.
pub open spec fn step_wrapped<const DIM: usize>(idx: NDimIndexer<DIM>, index: Seq<int>, dim: int) -> Seq<
    int,
> {
    let r = idx.lens_view()[dim];
    let ext = r.end - r.start;
    index.update(dim, r.start + (index[dim] + 1 - r.start) % ext)
}

/// Whether the step along `dim` wrapped: the coordinate was the last of its range.
pub open spec fn step_wraps<const DIM: usize>(idx: NDimIndexer<DIM>, index: Seq<int>, dim: int) -> bool {
    index[dim] + 1 == idx.lens_view()[dim].end
}

/// `for_neighbour` may return `res` when shown an operator at `at` over the array's indexer.
pub open spec fn neighbour_result<'a, const DIM: usize, T, F, R>(
    f: F,
    array: &NDimArray<NDimIndexer<DIM>, DIM, T>,
    at: Seq<int>,
    dim: int,
    up: bool,
    wrapped: bool,
    res: R,
) -> bool where F: Fn(&NDimArray<NDimIndexer<DIM>, DIM, T>, &NDimIndexOperator<'a, DIM>, usize, bool, bool) -> R {
    exists|o: NDimIndexOperator<'a, DIM>|
        #![trigger o.index_view()]
        o.wf() && o.indexer_view() == array.indexer_view() && o.index_view() == at && call_ensures(
            f,
            (array, &o, dim as usize, up, wrapped),
            res,
        )
}

impl<const DIM: usize, T> NDimArray<NDimIndexer<DIM>, DIM, T> {
    /// The value at `index`, if inside the ranges, and for each dimension what `for_neighbour`
    /// makes of the step up along it (the index one step up, wrapping within the dimension, and
    /// whether it wrapped) and of the index itself taken as the step down (flagged with the same
    /// wrap), each with `index`.
    pub fn get_with_neiborhoods_generic<'a, F, R>(&'a self, index: &NDimIndex<DIM>, for_neighbour: F) -> (res:
        Option<NDimArrayGetWithNeiborhoodsResult<DIM, &'a T, R>>) where
        F: Fn(&NDimArray<NDimIndexer<DIM>, DIM, T>, &NDimIndexOperator<'a, DIM>, usize, bool, bool) -> R,

        requires
            self.wf(),
            forall|a: &NDimArray<NDimIndexer<DIM>, DIM, T>, o: &NDimIndexOperator<'a, DIM>, d: usize, u: bool, w: bool|
                call_requires(for_neighbour, (a, o, d, u, w)),
            forall|d: int|
                0 <= d < DIM && index@[d] + 1 == self.indexer_view().lens_view()[d].end ==> #[trigger] self.indexer_view().lens_view()[d].start
                    > isize::MIN,
        ensures
            res is Some <==> ranges_contain(index@, self.indexer_view().lens_view()),
            res matches Some(r) ==> {
                &&& *r.cur == self.value_at(index@)
                &&& forall|d: int|
                    0 <= d < DIM ==> {
                        let n = #[trigger] r.neiborhoods@[d];
                        &&& neighbour_result(
                            for_neighbour,
                            self,
                            step_wrapped(self.indexer_view(), ints_of_isize(index@), d),
                            d,
                            true,
                            step_wraps(self.indexer_view(), ints_of_isize(index@), d),
                            n.0.0,
                        )
                        &&& n.0.1 == *index
                        &&& neighbour_result(
                            for_neighbour,
                            self,
                            ints_of_isize(index@),
                            d,
                            false,
                            step_wraps(self.indexer_view(), ints_of_isize(index@), d),
                            n.1.0,
                        )
                        &&& n.1.1 == *index
                    }
            },
    {
        let op_may = NDimIndexOperator::from_index(self.n_dim_index(), *index);
        match op_may {
            None => None,
            Some(op) => {
                let c = op.get_compressed();
                proof {
                    op.lemma_wf_bounds();
                }
                let cur = self.get_with_compressed(c).unwrap();
                let mut neiborhoods: Vec<((R, NDimIndex<DIM>), (R, NDimIndex<DIM>))> = Vec::new();
                let mut dim: usize = 0;
                while dim < DIM
                    invariant
                        0 <= dim <= DIM,
                        op.wf(),
                        op.indexer_view() == self.indexer_view(),
                        op.index_view() == ints_of_isize(index@),
                        neiborhoods@.len() == dim,
                        forall|a: &NDimArray<NDimIndexer<DIM>, DIM, T>, o: &NDimIndexOperator<'a, DIM>, d: usize, u: bool, w: bool|
                            call_requires(for_neighbour, (a, o, d, u, w)),
                        forall|d: int|
                            0 <= d < DIM && index@[d] + 1 == self.indexer_view().lens_view()[d].end ==> #[trigger] self.indexer_view().lens_view()[d].start
                                > isize::MIN,
                        forall|d: int| 0 <= d < dim ==> {
                            let n = #[trigger] neiborhoods@[d];
                            &&& neighbour_result(
                                for_neighbour,
                                self,
                                step_wrapped(self.indexer_view(), ints_of_isize(index@), d),
                                d,
                                true,
                                step_wraps(self.indexer_view(), ints_of_isize(index@), d),
                                n.0.0,
                            )
                            &&& n.0.1 == *index
                            &&& neighbour_result(
                                for_neighbour,
                                self,
                                ints_of_isize(index@),
                                d,
                                false,
                                step_wraps(self.indexer_view(), ints_of_isize(index@), d),
                                n.1.0,
                            )
                            &&& n.1.1 == *index
                        },
                    decreases DIM - dim,
                {
                    let mut nindex_0 = op;
                    let nindex_1 = op;
                    proof {
                        op.lemma_wf_bounds();
                        self.indexer_view().lemma_wf_facts();
                        assert(op.index_view()[dim as int] == index@[dim as int]);
                        assert(self.indexer_view().lens_view()[dim as int].end - self.indexer_view().lens_view()[dim as int].start <= isize::MAX);
                    }
                    let c_0 = nindex_0.move_n_at_dim(dim, 1);
                    let res_0 = for_neighbour(self, &nindex_0, dim, true, c_0 != 0);
                    let ghost at0 = nindex_0.index_view();
                    proof {
                        nindex_0.lemma_wf_bounds();
                        let r = self.indexer_view().lens_view()[dim as int];
                        let ext = r.end - r.start;
                        assert(ext > 0);
                        vstd::arithmetic::div_mod::lemma_fundamental_div_mod(index@[dim as int] + 1 - r.start, ext);
                        if index@[dim as int] + 1 == r.end {
                            vstd::arithmetic::div_mod::lemma_fundamental_div_mod_converse(index@[dim as int] + 1 - r.start, ext, 1, 0);
                        } else {
                            vstd::arithmetic::div_mod::lemma_fundamental_div_mod_converse(index@[dim as int] + 1 - r.start, ext, 0, index@[dim as int] + 1 - r.start);
                        }
                        assert(at0 == step_wrapped(self.indexer_view(), ints_of_isize(index@), dim as int));
                        assert((c_0 != 0) == step_wraps(self.indexer_view(), ints_of_isize(index@), dim as int));
                        assert(nindex_0.index_view() == at0);
                        assert(at0[dim as int] == r.start || at0[dim as int] == index@[dim as int] + 1);
                    }
                    let c_1 = nindex_0.move_n_at_dim(dim, -1);
                    let res_1 = for_neighbour(self, &nindex_1, dim, false, c_1 != 0);
                    proof {
                        let r = self.indexer_view().lens_view()[dim as int];
                        let ext = r.end - r.start;
                        let y = at0[dim as int];
                        vstd::arithmetic::div_mod::lemma_fundamental_div_mod(y - 1 - r.start, ext);
                        if y == r.start {
                            vstd::arithmetic::div_mod::lemma_fundamental_div_mod_converse(y - 1 - r.start, ext, -1, ext - 1);
                        } else {
                            vstd::arithmetic::div_mod::lemma_fundamental_div_mod_converse(y - 1 - r.start, ext, 0, y - 1 - r.start);
                        }
                        assert((c_1 != 0) == step_wraps(self.indexer_view(), ints_of_isize(index@), dim as int));
                        assert(nindex_0.index_view() =~= ints_of_isize(index@));
                        assert(neighbour_result(
                            for_neighbour,
                            self,
                            at0,
                            dim as int,
                            true,
                            c_0 != 0,
                            res_0,
                        ));
                        assert(nindex_1.index_view() == ints_of_isize(index@));
                        assert(neighbour_result(
                            for_neighbour,
                            self,
                            ints_of_isize(index@),
                            dim as int,
                            false,
                            c_1 != 0,
                            res_1,
                        ));
                    }
                    let i0 = *nindex_0.get();
                    let i1 = *nindex_1.get();
                    proof {
                        crate::structures::n_dim_array::lemma_index_eq(i0, *index);
                        crate::structures::n_dim_array::lemma_index_eq(i1, *index);
                    }
                    neiborhoods.push(((res_0, i0), (res_1, i1)));
                    dim = dim + 1;
                }
                Some(
                    NDimArrayGetWithNeiborhoodsResult {
                        cur,
                        neiborhoods: array_from_vec(neiborhoods),
                    },
                )
            },
        }
    }

    /// The value at `index`, if inside the ranges, and for each dimension the value one step up
    /// and the value at `index` itself (standing for the step down), each `None` where the step up
    /// wraps.
    pub fn get_with_neiborhoods<'a>(&'a self, index: &NDimIndex<DIM>) -> (res: Option<
        NDimArrayGetWithNeiborhoodsResult<DIM, &'a T, Option<&'a T>>,
    >)
        requires
            self.wf(),
            forall|d: int|
                0 <= d < DIM && index@[d] + 1 == self.indexer_view().lens_view()[d].end ==> #[trigger] self.indexer_view().lens_view()[d].start
                    > isize::MIN,
        ensures
            res is Some <==> ranges_contain(index@, self.indexer_view().lens_view()),
            res matches Some(r) ==> {
                &&& *r.cur == self.value_at(index@)
                &&& forall|d: int|
                    0 <= d < DIM ==> {
                        let n = #[trigger] r.neiborhoods@[d];
                        let wraps = step_wraps(self.indexer_view(), ints_of_isize(index@), d);
                        &&& (n.0.0 is None) == wraps
                        &&& n.0.0 matches Some(v) ==> *v == self.value_at(
                            step_wrapped(self.indexer_view(), ints_of_isize(index@), d).map_values(
                                |x: int| x as isize,
                            ),
                        )
                        &&& (n.1.0 is None) == wraps
                        &&& n.1.0 matches Some(v) ==> *v == self.value_at(index@)
                        &&& n.0.1 == *index
                        &&& n.1.1 == *index
                    }
            },
    {
        let f = |s: &NDimArray<NDimIndexer<DIM>, DIM, T>, i: &NDimIndexOperator<'a, DIM>, d: usize, u: bool, c: bool| -> (r: Option<&'a T>)
            requires
                self.wf(),
            ensures
                c ==> r is None,
                !c ==> (r is Some <==> ranges_contain(
                    i.index_view().map_values(|x: int| x as isize),
                    self.indexer_view().lens_view(),
                )),
                !c ==> (r matches Some(v) ==> *v == self.value_at(
                    i.index_view().map_values(|x: int| x as isize),
                )),
            {
                if c {
                    None
                } else {
                    let p = *i.get();
                    proof {
                        assert(p@ =~= i.index_view().map_values(|x: int| x as isize));
                    }
                    self.get(&p)
                }
            };
        let res = self.get_with_neiborhoods_generic(index, f);
        proof {
            if res is Some {
                let r = res->0;
                assert forall|d: int| 0 <= d < DIM implies {
                    let n = #[trigger] r.neiborhoods@[d];
                    let wraps = step_wraps(self.indexer_view(), ints_of_isize(index@), d);
                    &&& (n.0.0 is None) == wraps
                    &&& n.0.0 matches Some(v) ==> *v == self.value_at(
                        step_wrapped(self.indexer_view(), ints_of_isize(index@), d).map_values(
                            |x: int| x as isize,
                        ),
                    )
                    &&& (n.1.0 is None) == wraps
                    &&& n.1.0 matches Some(v) ==> *v == self.value_at(index@)
                    &&& n.0.1 == *index
                    &&& n.1.1 == *index
                } by {
                    let n = r.neiborhoods@[d];
                    let at0 = step_wrapped(self.indexer_view(), ints_of_isize(index@), d);
                    let wraps = step_wraps(self.indexer_view(), ints_of_isize(index@), d);
                    let o0 = choose|o: NDimIndexOperator<'a, DIM>|
                        #![trigger o.index_view()]
                        o.wf() && o.indexer_view() == self.indexer_view() && o.index_view() == at0
                            && call_ensures(f, (self, &o, d as usize, true, wraps), n.0.0);
                    let o1 = choose|o: NDimIndexOperator<'a, DIM>|
                        #![trigger o.index_view()]
                        o.wf() && o.indexer_view() == self.indexer_view() && o.index_view()
                            == ints_of_isize(index@) && call_ensures(
                            f,
                            (self, &o, d as usize, false, wraps),
                            n.1.0,
                        );
                    o0.lemma_wf_bounds();
                    o1.lemma_wf_bounds();
                    assert(ranges_contain(at0.map_values(|x: int| x as isize), self.indexer_view().lens_view()));
                    assert(ints_of_isize(index@).map_values(|x: int| x as isize) =~= index@);
                }
            }
        }
        res
    }

    /// The value at `index`, if inside the ranges, and for each dimension the value one step up
    /// (wrapping within the dimension) and the value at `index` itself (standing for the step
    /// down), whether the step wraps or not.
    pub fn get_with_neiborhoods_loop<'a>(&'a self, index: &NDimIndex<DIM>) -> (res: Option<
        NDimArrayGetWithNeiborhoodsResult<DIM, &'a T, Option<&'a T>>,
    >)
        requires
            self.wf(),
            forall|d: int|
                0 <= d < DIM && index@[d] + 1 == self.indexer_view().lens_view()[d].end ==> #[trigger] self.indexer_view().lens_view()[d].start
                    > isize::MIN,
        ensures
            res is Some <==> ranges_contain(index@, self.indexer_view().lens_view()),
            res matches Some(r) ==> {
                &&& *r.cur == self.value_at(index@)
                &&& forall|d: int|
                    0 <= d < DIM ==> {
                        let n = #[trigger] r.neiborhoods@[d];
                        &&& n.0.0 matches Some(v) && *v == self.value_at(
                            step_wrapped(self.indexer_view(), ints_of_isize(index@), d).map_values(
                                |x: int| x as isize,
                            ),
                        )
                        &&& n.1.0 matches Some(v) && *v == self.value_at(index@)
                        &&& n.0.1 == *index
                        &&& n.1.1 == *index
                    }
            },
    {
        let f = |s: &NDimArray<NDimIndexer<DIM>, DIM, T>, i: &NDimIndexOperator<'a, DIM>, d: usize, u: bool, c: bool| -> (r: Option<&'a T>)
            requires
                self.wf(),
            ensures
                r is Some <==> ranges_contain(
                    i.index_view().map_values(|x: int| x as isize),
                    self.indexer_view().lens_view(),
                ),
                r matches Some(v) ==> *v == self.value_at(
                    i.index_view().map_values(|x: int| x as isize),
                ),
            {
                let p = *i.get();
                proof {
                    assert(p@ =~= i.index_view().map_values(|x: int| x as isize));
                }
                self.get(&p)
            };
        let res = self.get_with_neiborhoods_generic(index, f);
        proof {
            if res is Some {
                let r = res->0;
                assert forall|d: int| 0 <= d < DIM implies {
                    let n = #[trigger] r.neiborhoods@[d];
                    &&& n.0.0 matches Some(v) && *v == self.value_at(
                        step_wrapped(self.indexer_view(), ints_of_isize(index@), d).map_values(
                            |x: int| x as isize,
                        ),
                    )
                    &&& n.1.0 matches Some(v) && *v == self.value_at(index@)
                    &&& n.0.1 == *index
                    &&& n.1.1 == *index
                } by {
                    let n = r.neiborhoods@[d];
                    let at0 = step_wrapped(self.indexer_view(), ints_of_isize(index@), d);
                    let wraps = step_wraps(self.indexer_view(), ints_of_isize(index@), d);
                    let o0 = choose|o: NDimIndexOperator<'a, DIM>|
                        #![trigger o.index_view()]
                        o.wf() && o.indexer_view() == self.indexer_view() && o.index_view() == at0
                            && call_ensures(f, (self, &o, d as usize, true, wraps), n.0.0);
                    let o1 = choose|o: NDimIndexOperator<'a, DIM>|
                        #![trigger o.index_view()]
                        o.wf() && o.indexer_view() == self.indexer_view() && o.index_view()
                            == ints_of_isize(index@) && call_ensures(
                            f,
                            (self, &o, d as usize, false, wraps),
                            n.1.0,
                        );
                    o0.lemma_wf_bounds();
                    o1.lemma_wf_bounds();
                    assert(ranges_contain(at0.map_values(|x: int| x as isize), self.indexer_view().lens_view()));
                    assert(ints_of_isize(index@).map_values(|x: int| x as isize) =~= index@);
                }
            }
        }
        res
    }
}

} // verus!
