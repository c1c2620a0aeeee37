//! The coefficient set of the Abramowitz–Stegun approximation of the normal CDF, generic over the
//! number type that holds it.
use vstd::prelude::*;

verus! {

/// The five polynomial coefficients `a1..a5` and the scale `p` of the approximation.
#[derive(Debug, Clone, Copy)]
pub struct NormalCdfConstsData<Num> {
    pub a1: Num,
    pub a2: Num,
    pub a3: Num,
    pub a4: Num,
    pub a5: Num,
    pub p: Num,
}

/// Marker: the coefficients of a number type are converted from their `f64` values.
#[derive(Debug, Clone, Copy)]
pub struct NormalCdfConstsByFromF64;

impl<Num> NormalCdfConstsData<Num> {
    /// Applies `f` to a reference to each coefficient, field by field.
    pub fn map_c<F: Fn(&Num) -> B, B>(&self, f: &F) -> (res: NormalCdfConstsData<B>)
        requires
            f.requires((&self.a1,)),
            f.requires((&self.a2,)),
            f.requires((&self.a3,)),
            f.requires((&self.a4,)),
            f.requires((&self.a5,)),
            f.requires((&self.p,)),
        ensures
            f.ensures((&self.a1,), res.a1),
            f.ensures((&self.a2,), res.a2),
            f.ensures((&self.a3,), res.a3),
            f.ensures((&self.a4,), res.a4),
            f.ensures((&self.a5,), res.a5),
            f.ensures((&self.p,), res.p),
    {
        NormalCdfConstsData {
            a1: f(&self.a1),
            a2: f(&self.a2),
            a3: f(&self.a3),
            a4: f(&self.a4),
            a5: f(&self.a5),
            p: f(&self.p),
        }
    }

    /// Applies `f` to each coefficient, field by field.
    pub fn map<F: Fn(Num) -> B, B>(self, f: F) -> (res: NormalCdfConstsData<B>)
        requires
            f.requires((self.a1,)),
            f.requires((self.a2,)),
            f.requires((self.a3,)),
            f.requires((self.a4,)),
            f.requires((self.a5,)),
            f.requires((self.p,)),
        ensures
            f.ensures((self.a1,), res.a1),
            f.ensures((self.a2,), res.a2),
            f.ensures((self.a3,), res.a3),
            f.ensures((self.a4,), res.a4),
            f.ensures((self.a5,), res.a5),
            f.ensures((self.p,), res.p),
    {
        let NormalCdfConstsData { a1, a2, a3, a4, a5, p } = self;
        NormalCdfConstsData { a1: f(a1), a2: f(a2), a3: f(a3), a4: f(a4), a5: f(a5), p: f(p) }
    }
}

} // verus!
