//! Doubly grids: the doubly slices of [crate::structures::doubly_slice_layers] in every
//! dimension at once, and layers of n-dimensional arrays over them.
use vstd::prelude::*;
use vstd::arithmetic::power2::{pow2, lemma_pow2_pos, lemma_pow2_adds};
use vstd::arithmetic::div_mod::{lemma_fundamental_div_mod, lemma_fundamental_div_mod_converse};
use core::ops::{Range, RangeInclusive};
use crate::collections::shifted_array::array_from_vec;
use crate::structures::doubly_slice_layers::{
    DoublySliceIndex, doubly_slice_layers_overlap, find_range_at_doubly_slice_i, floor_shr,
    is_covering_layer,
};
use crate::structures::n_dim_array::NDimArray;
use crate::structures::mixed_radix::radix_prod;
use crate::structures::n_dim_index::{NDimIndex, NDimIndexer, TNDimIndexer, range_extents, ranges_contain};

verus! {

/// The lower bound of an inclusive range.
///
/// Trusted: std documents `RangeInclusive::start` as returning the lower bound, and leaves what
/// it returns after the range was iterated to exhaustion unspecified; so is it here.
pub assume_specification<Idx>[ RangeInclusive::<Idx>::start ](r: &RangeInclusive<Idx>) -> (res:
    &Idx)
    ensures
        !r@.exhausted ==> *res == r@.start,
;

/// The upper bound of an inclusive range.
///
/// Trusted: std documents `RangeInclusive::end` as returning the upper bound, and leaves what it
/// returns after the range was iterated to exhaustion unspecified; so is it here.
pub assume_specification<Idx>[ RangeInclusive::<Idx>::end ](r: &RangeInclusive<Idx>) -> (res:
    &Idx)
    ensures
        !r@.exhausted ==> *res == r@.end,
;

/// Cell `pos` of layer `layer`: in every dimension, slice `pos[i]` of that layer.
#[derive(Clone, Copy, PartialEq, Eq, Debug)]
pub struct DoublyGridIndex<const DIM: usize> {
    pub layer: isize,
    pub pos: [isize; DIM],
}

/// One n-dimensional array per layer.
pub struct DoublyGridLayers<const DIM: usize, T> {
    pub values: Vec<NDimArray<NDimIndexer<DIM>, DIM, T>>,
}

/// A range whose smallest covering slice can be found: ordered ends on one side of zero, at most
/// about half the `isize` span apart.
pub open spec fn slice_findable(r: RangeInclusive<isize>) -> bool {
    &&& !r@.exhausted
    &&& r@.start <= r@.end
    &&& r@.end - r@.start + 1 <= isize::MAX / 2 + 1
    &&& r@.start >= 0 || r@.end < 0
}

/// The layer at which the ends `x0` and `x1` first fall in one slice.
pub open spec fn covering_layer(x0: int, x1: int) -> nat {
    choose|l: nat| is_covering_layer(x0, x1, l)
}

/// The highest covering layer among the first `n` ranges of `rect`, 0 when there is none.
pub open spec fn rect_layer(rect: Seq<RangeInclusive<isize>>, n: int) -> nat
    decreases n,
{
    if n <= 0 {
        0
    } else {
        let l = covering_layer(rect[n - 1]@.start as int, rect[n - 1]@.end as int);
        let m = rect_layer(rect, n - 1);
        if l > m {
            l
        } else {
            m
        }
    }
}

/// The slice of layer `l` that holds the lower bound of `r` holds its upper bound too.
pub open spec fn covers_at(r: RangeInclusive<isize>, l: nat) -> bool {
    floor_shr(r@.start as int, l) == floor_shr(r@.end as int, l)
}

/// At layer `l` every range of `rect` lies in one slice.
pub open spec fn covers_all(rect: Seq<RangeInclusive<isize>>, l: nat) -> bool {
    forall|i: int| 0 <= i < rect.len() ==> covers_at(#[trigger] rect[i], l)
}

/// Every range has at most one position, the upper bound below `isize::MAX`.
pub open spec fn lens_at_most_one(lens: Seq<RangeInclusive<isize>>) -> bool {
    forall|i: int|
        0 <= i < lens.len() ==> {
            &&& !(#[trigger] lens[i])@.exhausted
            &&& lens[i]@.start - 1 <= lens[i]@.end <= lens[i]@.start
            &&& lens[i]@.end < isize::MAX
        }
}

/// A layer has one covering layer only.
proof fn lemma_covering_layer_unique(x0: int, x1: int, a: nat, b: nat)
    requires
        is_covering_layer(x0, x1, a),
        is_covering_layer(x0, x1, b),
    ensures
        a == b,
{
    if a < b {
        assert(floor_shr(x0, a) != floor_shr(x1, a));
    } else if b < a {
        assert(floor_shr(x0, b) != floor_shr(x1, b));
    }
}

/// Cutting down to layer `a` and then by `b` more layers is cutting down to layer `a + b`.
proof fn lemma_floor_shr_compose(x: int, a: nat, b: nat)
    ensures
        floor_shr(floor_shr(x, a), b) == floor_shr(x, a + b),
{
    let c = pow2(a) as int;
    let d = pow2(b) as int;
    lemma_pow2_pos(a);
    lemma_pow2_pos(b);
    lemma_pow2_adds(a, b);
    let q1 = x / c;
    let r1 = x % c;
    let q2 = q1 / d;
    let r2 = q1 % d;
    lemma_fundamental_div_mod(x, c);
    lemma_fundamental_div_mod(q1, d);
    assert(x == (c * d) * q2 + (c * r2 + r1)) by (nonlinear_arith)
        requires
            x == c * q1 + r1,
            q1 == d * q2 + r2,
    ;
    assert(0 <= c * r2 + r1 < c * d) by (nonlinear_arith)
        requires
            0 <= r1 < c,
            0 <= r2 < d,
            c > 0,
    ;
    assert(x == q2 * (c * d) + (c * r2 + r1)) by (nonlinear_arith)
        requires
            x == (c * d) * q2 + (c * r2 + r1),
    ;
    lemma_fundamental_div_mod_converse(x, c * d, q2, c * r2 + r1);
}

/// For each dimension, the slices of layer `current_layer` that overlap the target cell, for a
/// layer at or above the target's: the one slice that contains it.
pub fn find_doubly_grid_layers_overlap<const DIM: usize>(
    target: DoublyGridIndex<DIM>,
    current_layer: isize,
) -> (res: [Range<isize>; DIM])
    requires
        target.layer <= current_layer,
        current_layer - target.layer < isize::BITS,
        forall|i: int|
            0 <= i < DIM ==> floor_shr(
                #[trigger] target.pos@[i] as int,
                (current_layer - target.layer) as nat,
            ) < isize::MAX,
    ensures
        forall|i: int|
            0 <= i < DIM ==> {
                &&& (#[trigger] res@[i]).start == floor_shr(
                    target.pos@[i] as int,
                    (current_layer - target.layer) as nat,
                )
                &&& res@[i].end == res@[i].start + 1
            },
{
    let mut out: Vec<Range<isize>> = Vec::new();
    let mut i: usize = 0;
    while i < DIM
        invariant
            0 <= i <= DIM,
            out@.len() == i,
            target.layer <= current_layer,
            current_layer - target.layer < isize::BITS,
            forall|k: int|
                0 <= k < DIM ==> floor_shr(
                    #[trigger] target.pos@[k] as int,
                    (current_layer - target.layer) as nat,
                ) < isize::MAX,
            forall|k: int|
                0 <= k < i ==> {
                    &&& (#[trigger] out@[k]).start == floor_shr(
                        target.pos@[k] as int,
                        (current_layer - target.layer) as nat,
                    )
                    &&& out@[k].end == out@[k].start + 1
                },
        decreases DIM - i,
    {
        let r = doubly_slice_layers_overlap(
            DoublySliceIndex { layer: target.layer, pos: target.pos[i] },
            current_layer,
        );
        out.push(r);
        i = i + 1;
    }
    array_from_vec(out)
}

/// The smallest cell that covers the box `rect`: the highest of the covering layers of its
/// ranges, and in each dimension the slice of that layer that holds the range.
pub fn find_rect_object_at_doubly_grid_layers_i<const DIM: usize>(
    rect: [RangeInclusive<isize>; DIM],
) -> (res: DoublyGridIndex<DIM>)
    requires
        forall|i: int| 0 <= i < DIM ==> slice_findable(#[trigger] rect@[i]),
        forall|i: int|
            0 <= i < DIM ==> floor_shr(
                (#[trigger] rect@[i])@.start as int,
                rect_layer(rect@, DIM as int),
            ) < isize::MAX,
    ensures
        res.layer == rect_layer(rect@, DIM as int),
        forall|i: int|
            0 <= i < DIM ==> #[trigger] res.pos@[i] == floor_shr(
                rect@[i]@.start as int,
                res.layer as nat,
            ),
        res.layer >= 0,
        covers_all(rect@, res.layer as nat),
        forall|k: nat| k < res.layer ==> !#[trigger] covers_all(rect@, k),
{
    let mut slices: Vec<DoublySliceIndex> = Vec::new();
    let mut max_layer: isize = 0;
    let mut i: usize = 0;
    while i < DIM
        invariant
            0 <= i <= DIM,
            slices@.len() == i,
            forall|k: int| 0 <= k < DIM ==> slice_findable(#[trigger] rect@[k]),
            max_layer == rect_layer(rect@, i as int),
            0 <= max_layer < isize::BITS,
            forall|k: int|
                0 <= k < i ==> {
                    &&& 0 <= (#[trigger] slices@[k]).layer <= max_layer
                    &&& slices@[k].layer == covering_layer(
                        rect@[k]@.start as int,
                        rect@[k]@.end as int,
                    )
                    &&& slices@[k].pos == floor_shr(
                        rect@[k]@.start as int,
                        slices@[k].layer as nat,
                    )
                    &&& is_covering_layer(
                        rect@[k]@.start as int,
                        rect@[k]@.end as int,
                        slices@[k].layer as nat,
                    )
                },
            max_layer == 0 || exists|k: int| 0 <= k < i && (#[trigger] slices@[k]).layer == max_layer,
        decreases DIM - i,
    {
        let r = RangeInclusive::new(*rect[i].start(), *rect[i].end());
        let s = find_range_at_doubly_slice_i(r);
        proof {
            let x0 = rect@[i as int]@.start as int;
            let x1 = rect@[i as int]@.end as int;
            lemma_covering_layer_unique(x0, x1, s.layer as nat, covering_layer(x0, x1));
        }
        let ghost old_slices = slices@;
        let ghost old_max = max_layer;
        if s.layer > max_layer {
            max_layer = s.layer;
        }
        slices.push(s);
        proof {
            if max_layer == s.layer {
                assert(slices@[i as int] == s);
            } else if max_layer != 0 {
                let w = choose|w: int| 0 <= w < i && (#[trigger] old_slices[w]).layer == old_max;
                assert(slices@[w] == old_slices[w]);
            }
        }
        i = i + 1;
    }
    proof {
        assert forall|k: int| 0 <= k < DIM implies covers_at(#[trigger] rect@[k], max_layer as nat) by {
            let x0 = rect@[k]@.start as int;
            let x1 = rect@[k]@.end as int;
            let l = slices@[k].layer as nat;
            lemma_floor_shr_compose(x0, l, (max_layer - l) as nat);
            lemma_floor_shr_compose(x1, l, (max_layer - l) as nat);
        }
        assert forall|k: nat| k < max_layer implies !#[trigger] covers_all(rect@, k) by {
            let w = choose|w: int| 0 <= w < DIM && (#[trigger] slices@[w]).layer == max_layer;
            assert(!covers_at(rect@[w], k));
        }
    }
    let mut pos: [isize; DIM] = [0isize; DIM];
    let mut j: usize = 0;
    while j < DIM
        invariant
            0 <= j <= DIM,
            slices@.len() == DIM,
            max_layer == rect_layer(rect@, DIM as int),
            0 <= max_layer < isize::BITS,
            forall|k: int|
                0 <= k < DIM ==> floor_shr(
                    (#[trigger] rect@[k])@.start as int,
                    rect_layer(rect@, DIM as int),
                ) < isize::MAX,
            forall|k: int|
                0 <= k < DIM ==> {
                    &&& 0 <= (#[trigger] slices@[k]).layer <= max_layer
                    &&& slices@[k].pos == floor_shr(
                        rect@[k]@.start as int,
                        slices@[k].layer as nat,
                    )
                },
            forall|k: int|
                0 <= k < j ==> #[trigger] pos@[k] == floor_shr(
                    rect@[k]@.start as int,
                    max_layer as nat,
                ),
            covers_all(rect@, max_layer as nat),
            forall|k: nat| k < max_layer ==> !#[trigger] covers_all(rect@, k),
        decreases DIM - j,
    {
        let s = slices[j];
        proof {
            let x0 = rect@[j as int]@.start as int;
            lemma_floor_shr_compose(x0, s.layer as nat, (max_layer - s.layer) as nat);
        }
        let r = doubly_slice_layers_overlap(s, max_layer);
        pos[j] = r.start;
        j = j + 1;
    }
    DoublyGridIndex { layer: max_layer, pos }
}

impl<const DIM: usize, T> DoublyGridLayers<DIM, T> {
    /// Every layer is a well formed array.
    pub open spec fn wf(&self) -> bool {
        forall|l: int| 0 <= l < self.values@.len() ==> (#[trigger] self.values@[l]).wf()
    }

    /// The layers, from layer 0 on, of the box `lens`, each value made by `genfn` from its cell.
    /// Each further layer halves the ranges of the one before, rounding outwards, until every
    /// range has at most one position; since halving never brings a range of two or more
    /// positions down to one, only boxes whose ranges have at most one position are accepted, and
    /// they make one layer.
    pub fn new<F: Fn(DoublyGridIndex<DIM>) -> T>(lens: [RangeInclusive<isize>; DIM], genfn: F) -> (res:
        Self)
        requires
            lens_at_most_one(lens@),
            forall|a: NDimIndex<DIM>| call_requires(genfn, (DoublyGridIndex { layer: 0, pos: a },)),
        ensures
            res.wf(),
            res.values@.len() == 1,
            forall|i: int|
                0 <= i < DIM ==> {
                    &&& (#[trigger] res.values@[0].indexer_view().lens_view()[i]).start
                        == lens@[i]@.start
                    &&& res.values@[0].indexer_view().lens_view()[i].end == lens@[i]@.end + 1
                },
            forall|a: NDimIndex<DIM>|
                ranges_contain(a@, res.values@[0].indexer_view().lens_view()) ==> call_ensures(
                    genfn,
                    (DoublyGridIndex { layer: 0, pos: a },),
                    #[trigger] res.values@[0].value_at(a@),
                ),
    {
        let mut ranges: Vec<Range<isize>> = Vec::new();
        let mut i: usize = 0;
        while i < DIM
            invariant
                0 <= i <= DIM,
                ranges@.len() == i,
                lens_at_most_one(lens@),
                forall|k: int|
                    0 <= k < i ==> {
                        &&& (#[trigger] ranges@[k]).start == lens@[k]@.start
                        &&& ranges@[k].end == lens@[k]@.end + 1
                    },
            decreases DIM - i,
        {
            let start = *lens[i].start();
            let end = *lens[i].end();
            proof {
                assert(!lens@[i as int]@.exhausted);
            }
            ranges.push(start..end + 1);
            i = i + 1;
        }
        let ranges_arr: [Range<isize>; DIM] = array_from_vec(ranges);
        proof {
            lemma_small_extents_prod(ranges_arr@);
        }
        let indexer = NDimIndexer::new_len(ranges_arr);
        let g = &genfn;
        let layer_fn = |index: NDimIndex<DIM>| -> (r: T)
            requires
                call_requires(g, (DoublyGridIndex { layer: 0, pos: index },)),
            ensures
                call_ensures(g, (DoublyGridIndex { layer: 0, pos: index },), r),
            { g(DoublyGridIndex { layer: 0, pos: index }) };
        let layer_values = NDimArray::from_fn(indexer, layer_fn);
        let mut values: Vec<NDimArray<NDimIndexer<DIM>, DIM, T>> = Vec::new();
        values.push(layer_values);
        Self { values }
    }

    /// The value at a cell, or `None` where its layer or its position lies outside the layers.
    pub fn get_doubly_grid_index(&self, index: DoublyGridIndex<DIM>) -> (res: Option<&T>)
        requires
            self.wf(),
        ensures
            res is Some <==> 0 <= index.layer < self.values@.len() && ranges_contain(
                index.pos@,
                self.values@[index.layer as int].indexer_view().lens_view(),
            ),
            res matches Some(v) ==> *v == self.values@[index.layer as int].value_at(index.pos@),
    {
        if index.layer < 0 || index.layer as usize >= self.values.len() {
            return None;
        }
        self.values[index.layer as usize].get(&index.pos)
    }

    /// The value at a cell mutably, or `None` where its layer or its position lies outside the
    /// layers.
    pub fn get_mut_doubly_grid_index(&mut self, index: DoublyGridIndex<DIM>) -> (res: Option<&mut T>)
        requires
            old(self).wf(),
        ensures
            res is Some <==> 0 <= index.layer < old(self).values@.len() && ranges_contain(
                index.pos@,
                old(self).values@[index.layer as int].indexer_view().lens_view(),
            ),
            final(self).values@.len() == old(self).values@.len(),
            forall|l: int|
                0 <= l < old(self).values@.len() && l != index.layer ==> #[trigger] final(self).values@[l]
                    == old(self).values@[l],
            res is None ==> forall|l: int|
                0 <= l < old(self).values@.len() ==> {
                    &&& (#[trigger] final(self).values@[l]).indexer_view() == old(self).values@[l].indexer_view()
                    &&& final(self).values@[l].values_view() == old(self).values@[l].values_view()
                },
            res matches Some(v) ==> {
                let l = index.layer as int;
                &&& *v == old(self).values@[l].value_at(index.pos@)
                &&& final(self).values@[l].indexer_view() == old(self).values@[l].indexer_view()
                &&& final(self).values@[l].values_view() == old(self).values@[l].values_view().update(
                    old(self).values@[l].indexer_view().ndim_compress(index.pos@),
                    *final(v),
                )
            },
    {
        if index.layer < 0 || index.layer as usize >= self.values.len() {
            return None;
        }
        self.values[index.layer as usize].get_mut(&index.pos)
    }
}

/// Ranges of at most one position each: every suffix of their lengths multiplies to at most 1.
proof fn lemma_small_extents_prod(ranges: Seq<Range<isize>>)
    requires
        forall|i: int|
            0 <= i < ranges.len() ==> (#[trigger] ranges[i]).start <= ranges[i].end <= ranges[i].start
                + 1,
    ensures
        forall|i: int|
            0 <= i < ranges.len() ==> ranges[i].start <= ranges[i].end && #[trigger] ranges[i].end
                - ranges[i].start <= isize::MAX,
        forall|k: int|
            0 <= k <= ranges.len() ==> #[trigger] radix_prod(
                range_extents(ranges).skip(k).reverse(),
            ) <= usize::MAX,
{
    let e = range_extents(ranges);
    assert forall|k: int| 0 <= k <= ranges.len() implies #[trigger] radix_prod(
        range_extents(ranges).skip(k).reverse(),
    ) <= usize::MAX by {
        let t = e.skip(k).reverse();
        assert forall|j: int| 0 <= j < t.len() implies 0 <= #[trigger] t[j] <= 1 by {
            let m = ranges.len() - 1 - j;
            assert(t[j] == e[m]);
            assert(ranges[m].start <= ranges[m].end <= ranges[m].start + 1);
        }
        lemma_prod_of_bits(t);
    }
}

/// A product of zeros and ones is zero or one.
proof fn lemma_prod_of_bits(s: Seq<int>)
    requires
        forall|j: int| 0 <= j < s.len() ==> 0 <= #[trigger] s[j] <= 1,
    ensures
        0 <= radix_prod(s) <= 1,
    decreases s.len(),
{
    if s.len() > 0 {
        let rest = s.drop_first();
        assert forall|j: int| 0 <= j < rest.len() implies 0 <= #[trigger] rest[j] <= 1 by {
            assert(rest[j] == s[j + 1]);
        }
        lemma_prod_of_bits(rest);
        let a = s[0];
        let b = radix_prod(rest);
        assert(0 <= a * b <= 1) by (nonlinear_arith)
            requires
                0 <= a <= 1,
                0 <= b <= 1,
        ;
    }
}

} // verus!
