//! [DimDir]: an axis and a direction along it.
use vstd::prelude::*;

verus! {

/// A dimension and whether the direction along it is positive; names an axis vector or an edge.
#[derive(Debug, Clone, Copy, Default)]
pub struct DimDir {
    pub dim: usize,
    pub dir_positive: bool,
}

impl DimDir {
    /// The unit vector along `dim`, `1` or `-1` by the direction.
    pub fn to_dir_vec<const DIM: usize>(&self) -> (res: [isize; DIM])
        ensures
            forall|i: int|
                0 <= i < DIM ==> #[trigger] res@[i] == if i == self.dim {
                    if self.dir_positive {
                        1isize
                    } else {
                        -1isize
                    }
                } else {
                    0isize
                },
    {
        let mut res = [0isize; DIM];
        let mut i: usize = 0;
        while i < DIM
            invariant
                0 <= i <= DIM,
                forall|j: int|
                    0 <= j < DIM ==> #[trigger] res@[j] == if j < i && j == self.dim {
                        if self.dir_positive {
                            1isize
                        } else {
                            -1isize
                        }
                    } else {
                        0isize
                    },
            decreases DIM - i,
        {
            if i == self.dim {
                res[i] = if self.dir_positive {
                    1
                } else {
                    -1
                };
            }
            i = i + 1;
        }
        res
    }
}

/// Iterates every [DimDir] with `dim` in `0..max_dim`: negative before positive, dimension by
/// dimension.
pub struct DimDirIter {
    pub dim_dir: DimDir,
    max_dim: usize,
}

impl DimDirIter {
    /// The bound on the dimensions.
    pub closed spec fn max_dim_view(&self) -> usize {
        self.max_dim
    }

    /// The [DimDir] the next call of `next` returns, if any.
    pub closed spec fn current(&self) -> DimDir {
        self.dim_dir
    }

    /// Starts at dimension 0, negative direction.
    pub fn new(max_dim: usize) -> (res: DimDirIter)
        ensures
            res.current() == (DimDir { dim: 0, dir_positive: false }),
            res.max_dim_view() == max_dim,
    {
        Self { dim_dir: DimDir { dim: 0, dir_positive: false }, max_dim }
    }

    /// Returns the current [DimDir] and moves to the next one.
    pub fn next(&mut self) -> (res: Option<DimDir>)
        ensures
            final(self).max_dim_view() == old(self).max_dim_view(),
            old(self).current().dim >= old(self).max_dim_view() ==> res is None && final(self).current()
                == old(self).current(),
            old(self).current().dim < old(self).max_dim_view() ==> res == Some(old(self).current())
                && final(self).current() == if old(self).current().dir_positive {
                DimDir { dim: (old(self).current().dim + 1) as usize, dir_positive: false }
            } else {
                DimDir { dim: old(self).current().dim, dir_positive: true }
            },
    {
        if self.dim_dir.dim >= self.max_dim {
            return None;
        }
        let res = self.dim_dir;
        if self.dim_dir.dir_positive == false {
            self.dim_dir.dir_positive = true;
        } else {
            self.dim_dir.dim = self.dim_dir.dim + 1;
            self.dim_dir.dir_positive = false;
        }
        Some(res)
    }
}

} // verus!
