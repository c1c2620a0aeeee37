//! Horner numbering: digits `d` over lengths `l`, the first digit most significant, denote
//! `(..((d[0]) * l[1] + d[1]) * l[2] + ..) + d[n-1]`.
use vstd::prelude::*;

verus! {

/// The number that `d` denotes over the lengths `l`.
pub open spec fn horner_value(d: Seq<int>, l: Seq<int>) -> int
    decreases d.len(),
{
    if d.len() == 0 || l.len() == 0 {
        0
    } else {
        horner_value(d.drop_last(), l.drop_last()) * l.last() + d.last()
    }
}

/// The product of the lengths.
pub open spec fn horner_prod(l: Seq<int>) -> int
    decreases l.len(),
{
    if l.len() == 0 {
        1
    } else {
        horner_prod(l.drop_last()) * l.last()
    }
}

/// Each digit is in `0..` its length.
pub open spec fn digits_below(d: Seq<int>, l: Seq<int>) -> bool {
    &&& d.len() == l.len()
    &&& forall|i: int| 0 <= i < d.len() ==> 0 <= #[trigger] d[i] < l[i]
}

/// Every length is at least one.
pub open spec fn lens_positive(l: Seq<int>) -> bool {
    forall|i: int| 0 <= i < l.len() ==> #[trigger] l[i] >= 1
}

/// The value lies in `0..product`, and the product is at least one.
pub proof fn lemma_horner_bound(d: Seq<int>, l: Seq<int>)
    requires
        digits_below(d, l),
    ensures
        0 <= horner_value(d, l) < horner_prod(l),
        horner_prod(l) >= 1,
    decreases d.len(),
{
    if d.len() > 0 {
        lemma_horner_bound(d.drop_last(), l.drop_last());
        let v = horner_value(d.drop_last(), l.drop_last());
        let p = horner_prod(l.drop_last());
        let x = d.last();
        let m = l.last();
        assert(0 <= v * m + x < p * m && p * m >= 1) by (nonlinear_arith)
            requires
                0 <= v < p,
                0 <= x < m,
        ;
    }
}

/// The product of positive lengths is at least one.
pub proof fn lemma_horner_prod_positive(l: Seq<int>)
    requires
        lens_positive(l),
    ensures
        horner_prod(l) >= 1,
    decreases l.len(),
{
    if l.len() > 0 {
        lemma_horner_prod_positive(l.drop_last());
        let p = horner_prod(l.drop_last());
        assert(p * l.last() >= 1) by (nonlinear_arith)
            requires
                p >= 1,
                l.last() >= 1,
        ;
    }
}

/// Splitting the digits at `k`: the front's value scaled by the back's product, plus the back's
/// value; the product splits the same way.
pub proof fn lemma_horner_split(d: Seq<int>, l: Seq<int>, k: int)
    requires
        d.len() == l.len(),
        0 <= k <= d.len(),
    ensures
        horner_value(d, l) == horner_value(d.take(k), l.take(k)) * horner_prod(l.skip(k))
            + horner_value(d.skip(k), l.skip(k)),
        horner_prod(l) == horner_prod(l.take(k)) * horner_prod(l.skip(k)),
    decreases d.len(),
{
    if k == d.len() {
        assert(d.take(k) =~= d);
        assert(l.take(k) =~= l);
        assert(d.skip(k).len() == 0);
        assert(l.skip(k).len() == 0);
    } else {
        let d1 = d.drop_last();
        let l1 = l.drop_last();
        lemma_horner_split(d1, l1, k);
        assert(d1.take(k) =~= d.take(k));
        assert(l1.take(k) =~= l.take(k));
        assert(d.skip(k).drop_last() =~= d1.skip(k));
        assert(l.skip(k).drop_last() =~= l1.skip(k));
        assert(d.skip(k).last() == d.last());
        assert(l.skip(k).last() == l.last());
        let a = horner_value(d.take(k), l.take(k));
        let p = horner_prod(l1.skip(k));
        let s = horner_value(d1.skip(k), l1.skip(k));
        let q = horner_prod(l.take(k));
        let m = l.last();
        let x = d.last();
        assert((a * p + s) * m + x == a * (p * m) + (s * m + x)) by (nonlinear_arith);
        assert((q * p) * m == q * (p * m)) by (nonlinear_arith);
    }
}

/// The first digit times the product of the rest, plus the rest's value.
pub proof fn lemma_horner_front(d: Seq<int>, l: Seq<int>)
    requires
        d.len() == l.len(),
        d.len() >= 1,
    ensures
        horner_value(d, l) == d[0] * horner_prod(l.skip(1)) + horner_value(d.skip(1), l.skip(1)),
        horner_prod(l) == l[0] * horner_prod(l.skip(1)),
{
    lemma_horner_split(d, l, 1);
    let d1 = d.take(1);
    let l1 = l.take(1);
    assert(d1.drop_last() =~= Seq::<int>::empty());
    assert(l1.drop_last() =~= Seq::<int>::empty());
    assert(horner_value(d1.drop_last(), l1.drop_last()) == 0);
    assert(horner_prod(l1.drop_last()) == 1);
    assert(d1.last() == d[0]);
    assert(l1.last() == l[0]);
    assert(horner_value(d1, l1) == 0 * l[0] + d[0]);
    assert(horner_prod(l1) == 1 * l[0]);
}

/// Changing digit `k` to `x` changes the value by the difference times the product of the lengths
/// after `k`.
pub proof fn lemma_horner_update(d: Seq<int>, l: Seq<int>, k: int, x: int)
    requires
        d.len() == l.len(),
        0 <= k < d.len(),
    ensures
        horner_value(d.update(k, x), l) == horner_value(d, l) + (x - d[k]) * horner_prod(
            l.skip(k + 1),
        ),
{
    let e = d.update(k, x);
    lemma_horner_split(d, l, k + 1);
    lemma_horner_split(e, l, k + 1);
    assert(e.skip(k + 1) =~= d.skip(k + 1));
    assert(e.take(k + 1).drop_last() =~= d.take(k + 1).drop_last());
    assert(l.take(k + 1).drop_last() =~= l.take(k));
    let a = horner_value(d.take(k + 1).drop_last(), l.take(k));
    let p = horner_prod(l.skip(k + 1));
    assert(horner_value(d.take(k + 1), l.take(k + 1)) == a * l[k] + d[k]);
    assert(horner_value(e.take(k + 1), l.take(k + 1)) == a * l[k] + x);
    assert((a * l[k] + x) * p == (a * l[k] + d[k]) * p + (x - d[k]) * p) by (nonlinear_arith);
}

/// Digits all zero denote zero; digits all at their maximum denote the product less one.
pub proof fn lemma_horner_extremes(d: Seq<int>, l: Seq<int>)
    requires
        d.len() == l.len(),
    ensures
        (forall|i: int| 0 <= i < d.len() ==> #[trigger] d[i] == 0) ==> horner_value(d, l) == 0,
        (forall|i: int| 0 <= i < d.len() ==> #[trigger] d[i] == l[i] - 1) ==> horner_value(d, l)
            == horner_prod(l) - 1,
    decreases d.len(),
{
    if d.len() > 0 {
        lemma_horner_extremes(d.drop_last(), l.drop_last());
        if forall|i: int| 0 <= i < d.len() ==> #[trigger] d[i] == 0 {
            assert(forall|i: int|
                0 <= i < d.drop_last().len() ==> #[trigger] d.drop_last()[i] == d[i]);
        }
        if forall|i: int| 0 <= i < d.len() ==> #[trigger] d[i] == l[i] - 1 {
            assert(forall|i: int|
                0 <= i < d.drop_last().len() ==> #[trigger] d.drop_last()[i] == d[i]);
            let p = horner_prod(l.drop_last());
            assert((p - 1) * l.last() + (l.last() - 1) == p * l.last() - 1) by (nonlinear_arith);
        }
    }
}

} // verus!
