//! Doubly slices: layer `l` cuts the integer line into slices of length `2^l`, slice `pos`
//! covering `pos * 2^l .. (pos + 1) * 2^l`.
use vstd::prelude::*;
use vstd::arithmetic::power2::{pow2, lemma_pow2_pos, lemma_pow2_unfold, lemma2_to64};
use vstd::arithmetic::div_mod::{lemma_fundamental_div_mod, lemma_fundamental_div_mod_converse};
use vstd::std_specs::convert::IntoSpec;
use core::ops::{Range, RangeInclusive};

verus! {

/// The bounds of an inclusive range that has not been iterated.
///
/// Trusted: std documents `RangeInclusive::into_inner` as returning (lower bound, upper bound);
/// what it returns after the range was iterated to exhaustion is left unspecified there, and so it is
/// here.
pub assume_specification<Idx>[ RangeInclusive::<Idx>::into_inner ](r: RangeInclusive<Idx>) -> (res:
    (Idx, Idx))
    ensures
        !r@.exhausted ==> res == (r@.start, r@.end),
;

/// Slice `pos` of layer `layer`.
#[derive(Clone, Copy, PartialEq, Eq, Debug)]
pub struct DoublySliceIndex {
    pub layer: isize,
    pub pos: isize,
}

/// The length of a slice of a layer that fits in `isize`.
pub open spec fn valid_layer(layer: int) -> bool {
    0 <= layer < isize::BITS - 1
}

/// The first and one-past-the-last position of the slice fit in `isize`.
pub open spec fn slice_fits(s: DoublySliceIndex) -> bool {
    &&& valid_layer(s.layer as int)
    &&& isize::MIN <= s.pos * pow2(s.layer as nat)
    &&& (s.pos + 1) * pow2(s.layer as nat) <= isize::MAX
}

/// The first position of the slice.
pub open spec fn slice_start(s: DoublySliceIndex) -> int {
    s.pos * pow2(s.layer as nat)
}

/// `x` cut down to layer `l`: `x / 2^l` rounded towards minus infinity.
pub open spec fn floor_shr(x: int, l: nat) -> int {
    x / (pow2(l) as int)
}

/// The smallest layer at which `x0` and `x1` fall in one slice.
pub open spec fn is_covering_layer(x0: int, x1: int, l: nat) -> bool {
    &&& floor_shr(x0, l) == floor_shr(x1, l)
    &&& forall|k: nat| k < l ==> floor_shr(x0, k) != floor_shr(x1, k)
}

proof fn lemma_pow2_isize_bits()
    ensures
        pow2((isize::BITS - 1) as nat) == isize::MAX + 1,
        pow2((isize::BITS - 1) as nat) == -(isize::MIN as int),
        usize::BITS == isize::BITS,
        usize::MAX == 2 * isize::MAX + 1,
{
    lemma2_to64();
    vstd::arithmetic::power2::lemma2_to64_rest();
    if isize::BITS == 32 {
        assert(pow2(31) == 0x8000_0000);
    } else {
        assert(pow2(63) == 0x8000_0000_0000_0000);
    }
}

proof fn lemma_floor_div_bounds(x: int, d: int)
    requires
        d >= 1,
    ensures
        x >= 0 ==> 0 <= x / d <= x,
        x < 0 ==> x <= x / d < 0,
        0 <= x < d ==> x / d == 0,
        -d <= x < 0 ==> x / d == -1,
{
    lemma_fundamental_div_mod(x, d);
    let q = x / d;
    let r = x % d;
    assert(x == d * q + r && 0 <= r < d);
    assert(x >= 0 ==> 0 <= q <= x) by (nonlinear_arith)
        requires
            x == d * q + r,
            0 <= r < d,
            d >= 1,
    ;
    assert(x < 0 ==> x <= q < 0) by (nonlinear_arith)
        requires
            x == d * q + r,
            0 <= r < d,
            d >= 1,
    ;
    if 0 <= x < d {
        lemma_fundamental_div_mod_converse(x, d, 0, x);
    }
    if -d <= x < 0 {
        lemma_fundamental_div_mod_converse(x, d, -1, x + d);
    }
}

proof fn lemma_far_apart_differ(x0: int, x1: int, d: int)
    requires
        d >= 1,
        x1 - x0 >= d,
    ensures
        x0 / d != x1 / d,
{
    lemma_fundamental_div_mod(x0, d);
    lemma_fundamental_div_mod(x1, d);
    if x0 / d == x1 / d {
        assert(x1 - x0 == x1 % d - x0 % d) by (nonlinear_arith)
            requires
                x0 == d * (x0 / d) + x0 % d,
                x1 == d * (x1 / d) + x1 % d,
                x0 / d == x1 / d,
        ;
    }
}

/// `2^layer`.
fn layer_len(layer: isize) -> (res: isize)
    requires
        valid_layer(layer as int),
    ensures
        res == pow2(layer as nat),
{
    proof {
        lemma_pow2_isize_bits();
        vstd::arithmetic::power2::lemma_pow2_strictly_increases(
            layer as nat,
            (isize::BITS - 1) as nat,
        );
        vstd::bits::lemma_usize_shl_is_mul(1, layer as usize);
        vstd::arithmetic::power2::lemma_pow2_strictly_increases(
            layer as nat,
            (isize::BITS - 1) as nat,
        );
    }
    (1usize << (layer as usize)) as isize
}

/// `x >> l` on `isize`: `x / 2^l` rounded towards minus infinity.
fn shr_layer(x: isize, l: isize) -> (res: isize)
    requires
        0 <= l < isize::BITS,
    ensures
        res == floor_shr(x as int, l as nat),
{
    proof {
        lemma_pow2_isize_bits();
        lemma_pow2_pos(l as nat);
    }
    if l < (isize::BITS - 1) as isize {
        let d = layer_len(l);
        proof {
            lemma_floor_div_bounds(x as int, d as int);
        }
        x.checked_div_euclid(d).unwrap()
    } else {
        proof {
            assert(pow2(l as nat) == pow2((isize::BITS - 1) as nat));
            lemma_floor_div_bounds(x as int, pow2(l as nat) as int);
        }
        if x < 0 {
            -1
        } else {
            0
        }
    }
}

impl DoublySliceIndex {
    /// The positions the slice covers.
    pub fn into_range(self) -> (res: Range<isize>)
        requires
            slice_fits(self),
        ensures
            res.start == slice_start(self),
            res.end == slice_start(self) + pow2(self.layer as nat),
    {
        let layer_dist = layer_len(self.layer);
        proof {
            assert((self.pos + 1) * pow2(self.layer as nat) == self.pos * pow2(self.layer as nat)
                + pow2(self.layer as nat)) by (nonlinear_arith);
        }
        let start = self.pos * layer_dist;
        let end = start + layer_dist;
        start..end
    }

    /// Whether the slice covers all of `range`.
    pub fn range_at_doubly_slice_i(self, range: RangeInclusive<isize>) -> (res: bool)
        requires
            slice_fits(self),
            !range@.exhausted,
        ensures
            res == (slice_start(self) <= range@.start && range@.end < slice_start(self) + pow2(
                self.layer as nat,
            )),
    {
        let layer_dist = layer_len(self.layer);
        proof {
            assert((self.pos + 1) * pow2(self.layer as nat) == self.pos * pow2(self.layer as nat)
                + pow2(self.layer as nat)) by (nonlinear_arith);
        }
        let slice_start = self.pos * layer_dist;
        let slice_end = slice_start + layer_dist;
        let (start, end) = range.into_inner();
        slice_start <= start && end < slice_end
    }
}

/// The smallest slice that covers `range`: the first layer at which both ends fall in one slice,
/// and that slice. The ends must be ordered and on one side of zero, since no layer puts a negative
/// and a non-negative position in one slice.
pub fn find_range_at_doubly_slice_i(range: RangeInclusive<isize>) -> (res: DoublySliceIndex)
    requires
        !range@.exhausted,
        range@.start <= range@.end,
        range@.end - range@.start + 1 <= isize::MAX / 2 + 1,
        range@.start >= 0 || range@.end < 0,
    ensures
        0 <= res.layer < isize::BITS,
        is_covering_layer(range@.start as int, range@.end as int, res.layer as nat),
        res.pos == floor_shr(range@.start as int, res.layer as nat),
{
    let (x0, x1) = range.into_inner();
    let dist = x1 - x0 + 1;
    let mut layer: isize = 0;
    proof {
        lemma_pow2_isize_bits();
        assert(pow2(0) == 1) by {
            lemma2_to64();
        }
    }
    while layer_len(layer) < dist
        invariant
            x1 - x0 + 1 == dist <= isize::MAX / 2 + 1,
            x0 <= x1,
            valid_layer(layer as int),
            forall|k: nat| k < layer ==> floor_shr(x0 as int, k) != floor_shr(x1 as int, k),
        decreases isize::BITS - layer,
    {
        proof {
            lemma_pow2_pos(layer as nat);
            lemma_far_apart_differ(x0 as int, x1 as int, pow2(layer as nat) as int);
            lemma_pow2_unfold((layer + 1) as nat);
            lemma_pow2_isize_bits();
            if layer + 1 >= isize::BITS - 1 {
                lemma_pow2_unfold((isize::BITS - 1) as nat);
                assert(layer == isize::BITS - 2);
            }
            assert forall|k: nat| k < layer + 1 implies floor_shr(x0 as int, k) != floor_shr(
                x1 as int,
                k,
            ) by {
                if k == layer {
                    lemma_far_apart_differ(x0 as int, x1 as int, pow2(layer as nat) as int);
                }
            }
        }
        layer = layer + 1;
    }
    loop
        invariant
            x0 == range@.start,
            x1 == range@.end,
            x0 <= x1,
            x0 >= 0 || x1 < 0,
            0 <= layer < isize::BITS,
            forall|k: nat| k < layer ==> floor_shr(x0 as int, k) != floor_shr(x1 as int, k),
        decreases isize::BITS - layer,
    {
        let x0_sh = shr_layer(x0, layer);
        let x1_sh = shr_layer(x1, layer);
        if x1_sh == x0_sh {
            return DoublySliceIndex { layer, pos: x0_sh };
        }
        proof {
            if layer == isize::BITS - 1 {
                lemma_pow2_isize_bits();
                lemma_floor_div_bounds(x0 as int, pow2(layer as nat) as int);
                lemma_floor_div_bounds(x1 as int, pow2(layer as nat) as int);
            }
        }
        layer = layer + 1;
    }
}

/// [find_range_at_doubly_slice_i] on the bounds of `range` converted to `isize`.
pub fn find_range_at_doubly_slice<Num: Into<isize>>(range: RangeInclusive<Num>) -> (res:
    DoublySliceIndex)
    requires
        !range@.exhausted,
        <Num as IntoSpec<isize>>::obeys_into_spec(),
        range@.start.into_spec() <= range@.end.into_spec(),
        range@.end.into_spec() - range@.start.into_spec() + 1 <= isize::MAX / 2 + 1,
        range@.start.into_spec() >= 0 || range@.end.into_spec() < 0,
    ensures
        0 <= res.layer < isize::BITS,
        is_covering_layer(
            range@.start.into_spec() as int,
            range@.end.into_spec() as int,
            res.layer as nat,
        ),
        res.pos == floor_shr(range@.start.into_spec() as int, res.layer as nat),
{
    let (a, b) = range.into_inner();
    let a2: isize = a.into();
    let b2: isize = b.into();
    find_range_at_doubly_slice_i(RangeInclusive::new(a2, b2))
}

/// The slices of layer `current_layer` that overlap `target`: at or above the target's layer, the
/// one slice that contains it; below it, the `2^(target.layer - current_layer)` slices it is made
/// of.
pub fn doubly_slice_layers_overlap(target: DoublySliceIndex, current_layer: isize) -> (res: Range<
    isize,
>)
    requires
        target.layer <= current_layer ==> current_layer - target.layer < isize::BITS
            && floor_shr(target.pos as int, (current_layer - target.layer) as nat) < isize::MAX,
        current_layer < target.layer ==> valid_layer(target.layer - current_layer) && isize::MIN
            <= target.pos * pow2((target.layer - current_layer) as nat) && (target.pos + 1) * pow2(
            (target.layer - current_layer) as nat,
        ) <= isize::MAX,
    ensures
        target.layer <= current_layer ==> res.start == floor_shr(
            target.pos as int,
            (current_layer - target.layer) as nat,
        ) && res.end == res.start + 1,
        current_layer < target.layer ==> res.start == target.pos * pow2(
            (target.layer - current_layer) as nat,
        ) && res.end == (target.pos + 1) * pow2((target.layer - current_layer) as nat),
{
    if target.layer <= current_layer {
        let layer_dif = current_layer - target.layer;
        let new_target_pos = shr_layer(target.pos, layer_dif);
        proof {
            lemma_pow2_pos(layer_dif as nat);
            lemma_floor_div_bounds(target.pos as int, pow2(layer_dif as nat) as int);
        }
        let new_target_pos2 = new_target_pos + 1;
        new_target_pos..new_target_pos2
    } else {
        let k = target.layer - current_layer;
        let d = layer_len(k);
        let ghost p = target.pos as int;
        let ghost dd = d as int;
        proof {
            lemma_pow2_pos(k as nat);
            assert(p + 1 <= isize::MAX) by (nonlinear_arith)
                requires
                    (p + 1) * dd <= isize::MAX,
                    dd >= 1,
            ;
            assert((p + 1) * dd == p * dd + dd) by (nonlinear_arith);
        }
        let start = target.pos * d;
        let end = (target.pos + 1) * d;
        start..end
    }
}

/// The slice at the covering layer that holds `x0` holds all of `x0..=x1`: the slice that
/// [find_range_at_doubly_slice_i] finds covers its range.
pub proof fn lemma_covering_slice_contains(x0: int, x1: int, l: nat)
    requires
        x0 <= x1,
        is_covering_layer(x0, x1, l),
    ensures
        floor_shr(x0, l) * pow2(l) <= x0,
        x1 < floor_shr(x0, l) * pow2(l) + pow2(l),
{
    lemma_pow2_pos(l);
    let d = pow2(l) as int;
    lemma_fundamental_div_mod(x0, d);
    lemma_fundamental_div_mod(x1, d);
    let q = x0 / d;
    assert(q * d <= x0) by (nonlinear_arith)
        requires
            x0 == d * q + x0 % d,
            0 <= x0 % d,
    ;
    assert(x1 < q * d + d) by (nonlinear_arith)
        requires
            x1 == d * q + x1 % d,
            x1 % d < d,
    ;
}

/// The slice that [doubly_slice_layers_overlap] gives at a layer at or above the target's holds
/// every position of the target slice.
pub proof fn lemma_overlap_contains_target(pos: int, layer: nat, up: nat)
    ensures
        floor_shr(pos, up) * pow2(layer + up) <= pos * pow2(layer),
        (pos + 1) * pow2(layer) <= (floor_shr(pos, up) + 1) * pow2(layer + up),
{
    lemma_pow2_pos(up);
    lemma_pow2_pos(layer);
    vstd::arithmetic::power2::lemma_pow2_adds(layer, up);
    let d = pow2(up) as int;
    let e = pow2(layer) as int;
    lemma_fundamental_div_mod(pos, d);
    let q = pos / d;
    let r = pos % d;
    assert(q * (e * d) <= pos * e) by (nonlinear_arith)
        requires
            pos == d * q + r,
            0 <= r,
            e >= 1,
    ;
    assert((pos + 1) * e <= (q + 1) * (e * d)) by (nonlinear_arith)
        requires
            pos == d * q + r,
            r < d,
            e >= 1,
    ;
}

} // verus!
