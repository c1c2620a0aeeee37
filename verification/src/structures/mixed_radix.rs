//! Mixed-radix numbers: the arithmetic behind every n-dimensional indexer.
//!
//! A sequence of digits `d` over radices `r` denotes
//! `d[0] + r[0] * (d[1] + r[1] * (d[2] + ...))`: digit 0 is the least significant.
use vstd::prelude::*;
use vstd::arithmetic::div_mod::{
    lemma_fundamental_div_mod, lemma_fundamental_div_mod_converse, lemma_div_pos_is_pos,
    lemma_mod_pos_bound,
};
use vstd::arithmetic::mul::{lemma_mul_inequality, lemma_mul_nonnegative};

verus! {

/// Product of all radices.
pub open spec fn radix_prod(r: Seq<int>) -> int
    decreases r.len(),
{
    if r.len() == 0 {
        1
    } else {
        r[0] * radix_prod(r.drop_first())
    }
}

/// The number that `d` denotes over the radices `r`.
pub open spec fn radix_value(d: Seq<int>, r: Seq<int>) -> int
    decreases d.len(),
{
    if d.len() == 0 || r.len() == 0 {
        0
    } else {
        d[0] + r[0] * radix_value(d.drop_first(), r.drop_first())
    }
}

/// The digits of `c` over the radices `r`, found by repeated division.
pub open spec fn radix_digits(c: int, r: Seq<int>) -> Seq<int>
    decreases r.len(),
{
    if r.len() == 0 {
        Seq::empty()
    } else {
        seq![c % r[0]].add(radix_digits(c / r[0], r.drop_first()))
    }
}

/// Every digit lies in `0..radix`.
pub open spec fn digits_in_range(d: Seq<int>, r: Seq<int>) -> bool {
    &&& d.len() == r.len()
    &&& forall|i: int| 0 <= i < d.len() ==> 0 <= #[trigger] d[i] < r[i]
}

/// Every radix is positive.
pub open spec fn all_positive(r: Seq<int>) -> bool {
    forall|i: int| 0 <= i < r.len() ==> #[trigger] r[i] > 0
}

/// Every element is non-negative.
pub open spec fn all_nonneg(r: Seq<int>) -> bool {
    forall|i: int| 0 <= i < r.len() ==> #[trigger] r[i] >= 0
}

/// The `usize` sequence read as integers.
pub open spec fn ints_of_usize(s: Seq<usize>) -> Seq<int> {
    s.map_values(|x: usize| x as int)
}

/// The `isize` sequence read as integers.
pub open spec fn ints_of_isize(s: Seq<isize>) -> Seq<int> {
    s.map_values(|x: isize| x as int)
}

pub proof fn lemma_prod_nonneg(r: Seq<int>)
    requires
        all_nonneg(r),
    ensures
        radix_prod(r) >= 0,
    decreases r.len(),
{
    if r.len() > 0 {
        lemma_prod_nonneg(r.drop_first());
        lemma_mul_nonnegative(r[0], radix_prod(r.drop_first()));
    }
}

pub proof fn lemma_prod_positive(r: Seq<int>)
    requires
        all_positive(r),
    ensures
        radix_prod(r) > 0,
    decreases r.len(),
{
    if r.len() > 0 {
        lemma_prod_positive(r.drop_first());
        assert(r[0] * radix_prod(r.drop_first()) > 0) by (nonlinear_arith)
            requires
                r[0] > 0,
                radix_prod(r.drop_first()) > 0,
        ;
    }
}

/// A value whose digits are in range is below the product of the radices.
pub proof fn lemma_value_bound(d: Seq<int>, r: Seq<int>)
    requires
        digits_in_range(d, r),
    ensures
        0 <= radix_value(d, r) < radix_prod(r),
    decreases d.len(),
{
    if d.len() > 0 {
        let d1 = d.drop_first();
        let r1 = r.drop_first();
        assert(digits_in_range(d1, r1)) by {
            assert forall|i: int| 0 <= i < d1.len() implies 0 <= #[trigger] d1[i] < r1[i] by {
                assert(d1[i] == d[i + 1] && r1[i] == r[i + 1]);
            }
        }
        lemma_value_bound(d1, r1);
        let v = radix_value(d1, r1);
        let p = radix_prod(r1);
        assert(0 <= d[0] < r[0]);
        assert(0 <= d[0] + r[0] * v < r[0] * p) by (nonlinear_arith)
            requires
                0 <= d[0] < r[0],
                0 <= v < p,
        ;
    }
}

/// Reading the digits of `c` back gives `c`, and they are in range.
pub proof fn lemma_digits_value(c: int, r: Seq<int>)
    requires
        all_positive(r),
        0 <= c < radix_prod(r),
    ensures
        digits_in_range(radix_digits(c, r), r),
        radix_value(radix_digits(c, r), r) == c,
    decreases r.len(),
{
    if r.len() > 0 {
        let r1 = r.drop_first();
        let q = c / r[0];
        let m = c % r[0];
        assert(all_positive(r1)) by {
            assert forall|i: int| 0 <= i < r1.len() implies #[trigger] r1[i] > 0 by {
                assert(r1[i] == r[i + 1]);
            }
        }
        lemma_prod_positive(r1);
        lemma_fundamental_div_mod(c, r[0]);
        lemma_mod_pos_bound(c, r[0]);
        lemma_div_pos_is_pos(c, r[0]);
        assert(q < radix_prod(r1)) by (nonlinear_arith)
            requires
                c == r[0] * q + m,
                0 <= m,
                c < r[0] * radix_prod(r1),
                r[0] > 0,
        ;
        lemma_digits_value(q, r1);
        let ds = radix_digits(c, r);
        assert(ds.drop_first() =~= radix_digits(q, r1));
        assert(digits_in_range(ds, r)) by {
            assert forall|i: int| 0 <= i < ds.len() implies 0 <= #[trigger] ds[i] < r[i] by {
                if i > 0 {
                    assert(ds[i] == radix_digits(q, r1)[i - 1]);
                    assert(r[i] == r1[i - 1]);
                }
            }
        }
        assert(radix_value(ds, r) == m + r[0] * q);
    }
}

/// The digits of the value of in-range digits are those digits.
pub proof fn lemma_value_digits(d: Seq<int>, r: Seq<int>)
    requires
        digits_in_range(d, r),
    ensures
        radix_digits(radix_value(d, r), r) == d,
    decreases d.len(),
{
    if d.len() == 0 {
        assert(radix_digits(radix_value(d, r), r) =~= d);
    } else {
        let d1 = d.drop_first();
        let r1 = r.drop_first();
        assert(digits_in_range(d1, r1)) by {
            assert forall|i: int| 0 <= i < d1.len() implies 0 <= #[trigger] d1[i] < r1[i] by {
                assert(d1[i] == d[i + 1] && r1[i] == r[i + 1]);
            }
        }
        lemma_value_digits(d1, r1);
        let v = radix_value(d1, r1);
        let c = radix_value(d, r);
        assert(c == v * r[0] + d[0]) by (nonlinear_arith)
            requires
                c == d[0] + r[0] * v,
        ;
        lemma_fundamental_div_mod_converse(c, r[0], v, d[0]);
        assert(radix_digits(c, r) =~= d);
    }
}

/// Appending a digit at the most significant end.
pub proof fn lemma_prod_push(r: Seq<int>, x: int)
    ensures
        radix_prod(r.push(x)) == radix_prod(r) * x,
    decreases r.len(),
{
    if r.len() == 0 {
        assert(r.push(x).drop_first() =~= Seq::<int>::empty());
        assert(radix_prod(r.push(x).drop_first()) == 1);
        assert(radix_prod(r.push(x)) == r.push(x)[0] * 1);
    } else {
        assert(r.push(x).drop_first() =~= r.drop_first().push(x));
        lemma_prod_push(r.drop_first(), x);
        let p = radix_prod(r.drop_first());
        assert(r[0] * (p * x) == (r[0] * p) * x) by (nonlinear_arith);
    }
}

/// Appending a most significant digit adds it times the product of the lower radices.
pub proof fn lemma_value_push(d: Seq<int>, r: Seq<int>, x: int, y: int)
    requires
        d.len() == r.len(),
    ensures
        radix_value(d.push(x), r.push(y)) == radix_value(d, r) + radix_prod(r) * x,
    decreases d.len(),
{
    if d.len() == 0 {
        assert(d.push(x).drop_first() =~= Seq::<int>::empty());
        assert(radix_value(d.push(x).drop_first(), r.push(y).drop_first()) == 0);
        assert(radix_value(d.push(x), r.push(y)) == x + y * 0);
        assert(radix_value(d, r) == 0);
        assert(radix_prod(r) == 1);
    } else {
        assert(d.push(x).drop_first() =~= d.drop_first().push(x));
        assert(r.push(y).drop_first() =~= r.drop_first().push(y));
        lemma_value_push(d.drop_first(), r.drop_first(), x, y);
        let v = radix_value(d.drop_first(), r.drop_first());
        let p = radix_prod(r.drop_first());
        assert(r[0] * (v + p * x) == r[0] * v + (r[0] * p) * x) by (nonlinear_arith);
    }
}

/// Prefixes of non-negative digits have non-decreasing values.
pub proof fn lemma_value_prefix_monotone(d: Seq<int>, r: Seq<int>, i: int, j: int)
    requires
        d.len() == r.len(),
        all_nonneg(d),
        all_nonneg(r),
        0 <= i <= j <= d.len(),
    ensures
        radix_value(d.take(i), r.take(i)) <= radix_value(d.take(j), r.take(j)),
    decreases j - i,
{
    if i < j {
        lemma_value_prefix_monotone(d, r, i, j - 1);
        assert(d.take(j) =~= d.take(j - 1).push(d[j - 1]));
        assert(r.take(j) =~= r.take(j - 1).push(r[j - 1]));
        lemma_value_push(d.take(j - 1), r.take(j - 1), d[j - 1], r[j - 1]);
        assert(all_nonneg(r.take(j - 1)));
        lemma_prod_nonneg(r.take(j - 1));
        lemma_mul_nonnegative(radix_prod(r.take(j - 1)), d[j - 1]);
    }
}

} // verus!
