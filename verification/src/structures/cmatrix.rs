//! [CMatrix]: a matrix stored as an array of rows.
use vstd::prelude::*;

verus! {

/// A `DIM0` by `DIM1` matrix.
#[derive(Debug, Clone, Copy)]
pub struct CMatrix<Num, const DIM0: usize, const DIM1: usize>(pub [[Num; DIM1]; DIM0]);

impl<Num, const DIM0: usize, const DIM1: usize> CMatrix<Num, DIM0, DIM1> {
    /// The matrix with the given rows.
    pub fn new(values: [[Num; DIM1]; DIM0]) -> (res: Self)
        ensures
            res.0 == values,
    {
        Self(values)
    }

    /// The entry at row `index[0]`, column `index[1]`.
    pub fn index(&self, index: [usize; 2]) -> (res: &Num)
        requires
            index[0] < DIM0,
            index[1] < DIM1,
        ensures
            *res == self.0[index[0] as int][index[1] as int],
    {
        &self.0[index[0]][index[1]]
    }
}

} // verus!
