//! [Grid2D] and [Grid2DVec]: two-dimensional grids.
use vstd::prelude::*;

verus! {

/// A grid over any container of rows.
pub struct Grid2D<Container> {
    pub values: Container,
}

impl<Container> Grid2D<Container> {
    /// Wraps the rows.
    pub fn new(values: Container) -> (res: Self)
        ensures
            res.values == values,
    {
        Self { values }
    }
}

/// A grid stored as one vector per `x`, each holding the `y` entries.
pub struct Grid2DVec<T> {
    values: Vec<Vec<T>>,
}

impl<T> Grid2DVec<T> {
    /// The columns.
    pub closed spec fn columns(&self) -> Seq<Seq<T>> {
        self.values@.map_values(|v: Vec<T>| v@)
    }

    /// Builds the grid of `len.0` by `len.1` entries, calling `newfn` at each `(x, y)`.
    pub fn new<F: Fn((usize, usize)) -> T>(len: (usize, usize), newfn: F) -> (res: Self)
        requires
            forall|x: usize, y: usize| x < len.0 && y < len.1 ==> call_requires(newfn, ((x, y),)),
        ensures
            res.columns().len() == len.0,
            forall|x: int| 0 <= x < len.0 ==> (#[trigger] res.columns()[x]).len() == len.1,
            forall|x: int, y: int|
                0 <= x < len.0 && 0 <= y < len.1 ==> call_ensures(
                    newfn,
                    ((x as usize, y as usize),),
                    #[trigger] res.columns()[x][y],
                ),
    {
        let (xedge, yedge) = len;
        let mut values: Vec<Vec<T>> = Vec::with_capacity(xedge);
        let mut x: usize = 0;
        while x < xedge
            invariant
                0 <= x <= xedge,
                xedge == len.0,
                yedge == len.1,
                values@.len() == x,
                forall|xx: usize, yy: usize|
                    xx < len.0 && yy < len.1 ==> call_requires(newfn, ((xx, yy),)),
                forall|i: int| 0 <= i < x ==> (#[trigger] values@[i])@.len() == yedge,
                forall|i: int, j: int|
                    0 <= i < x && 0 <= j < yedge ==> call_ensures(
                        newfn,
                        ((i as usize, j as usize),),
                        #[trigger] values@[i]@[j],
                    ),
            decreases xedge - x,
        {
            let mut valuesy: Vec<T> = Vec::with_capacity(yedge);
            let mut y: usize = 0;
            while y < yedge
                invariant
                    0 <= y <= yedge,
                    x < xedge,
                    xedge == len.0,
                    yedge == len.1,
                    valuesy@.len() == y,
                    forall|xx: usize, yy: usize|
                        xx < len.0 && yy < len.1 ==> call_requires(newfn, ((xx, yy),)),
                    forall|j: int|
                        0 <= j < y ==> call_ensures(
                            newfn,
                            ((x, j as usize),),
                            #[trigger] valuesy@[j],
                        ),
                decreases yedge - y,
            {
                valuesy.push(newfn((x, y)));
                y = y + 1;
            }
            values.push(valuesy);
            x = x + 1;
        }
        let res = Self { values };
        assert forall|i: int, j: int|
            0 <= i < len.0 && 0 <= j < len.1 implies call_ensures(
            newfn,
            ((i as usize, j as usize),),
            #[trigger] res.columns()[i][j],
        ) by {
            assert(res.columns()[i] == values@[i]@);
        }
        res
    }

    /// The number of columns and the number of entries in the first column (zero if none).
    pub fn len(&self) -> (res: (usize, usize))
        ensures
            res.0 == self.columns().len(),
            res.1 == if self.columns().len() > 0 {
                self.columns()[0].len()
            } else {
                0
            },
    {
        let first = if self.values.len() > 0 {
            self.values[0].len()
        } else {
            0
        };
        (self.values.len(), first)
    }

    /// The entry at `pos`.
    pub fn get(&self, pos: (usize, usize)) -> (res: &T)
        requires
            pos.0 < self.columns().len(),
            pos.1 < self.columns()[pos.0 as int].len(),
        ensures
            *res == self.columns()[pos.0 as int][pos.1 as int],
    {
        &self.values[pos.0][pos.1]
    }

    /// The entry at `pos`, mutably.
    pub fn get_mut(&mut self, pos: (usize, usize)) -> (res: &mut T)
        requires
            pos.0 < old(self).columns().len(),
            pos.1 < old(self).columns()[pos.0 as int].len(),
        ensures
            *res == old(self).columns()[pos.0 as int][pos.1 as int],
            final(self).columns() == old(self).columns().update(
                pos.0 as int,
                old(self).columns()[pos.0 as int].update(pos.1 as int, *final(res)),
            ),
    {
        let column = &mut self.values[pos.0];
        &mut column[pos.1]
    }
}

} // verus!
