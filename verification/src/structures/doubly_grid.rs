//! [DoublyGrid2d]: a stack of grids over one rectangle, each layer's cells twice as wide as the
//! layer below, up to a single cell.
use vstd::prelude::*;
use vstd::arithmetic::power2::{pow2, lemma_pow2_unfold, lemma_pow2_pos};

verus! {

/// Layer `l` covers the rectangle with cells of side `2^l`: `values[l][y][x]`.
pub struct DoublyGrid2d<T> {
    pub values: Vec<Vec<Vec<T>>>,
}

/// The number of cells of side `grid_len` that cover `len`: `len / grid_len` rounded up.
pub open spec fn cells_along(len: int, grid_len: int) -> int {
    if (len / grid_len) * grid_len < len {
        len / grid_len + 1
    } else {
        len / grid_len
    }
}

/// Layer `l` of a `width` by `height` rectangle is a single cell.
pub open spec fn is_top_layer(width: int, height: int, l: nat) -> bool {
    cells_along(width, pow2(l) as int) == 1 && cells_along(height, pow2(l) as int) == 1
}

proof fn lemma_cells_along(len: int, g: int)
    requires
        1 <= len,
        1 <= g,
    ensures
        (len / g) * g <= len,
        cells_along(len, g) >= 1,
        g >= len ==> cells_along(len, g) == 1,
{
    assert((len / g) * g <= len) by (nonlinear_arith)
        requires
            1 <= len,
            1 <= g,
    ;
    assert(len / g >= 0) by (nonlinear_arith)
        requires
            1 <= len,
            1 <= g,
    ;
    if g >= len {
        assert(len / g <= 1) by (nonlinear_arith)
            requires
                1 <= len <= g,
        ;
        if len / g == 0 {
            assert(cells_along(len, g) == 1);
        } else {
            assert((len / g) * g == g);
            assert(g == len);
        }
    }
    if len / g == 0 {
        assert(0 * g < len);
    }
}

impl<T> DoublyGrid2d<T> {
    /// Builds the layers from cells of side 1 up to the first layer that is a single cell, calling
    /// `genfn(cell side, y, x)` for each cell.
    pub fn new<F: Fn(usize, usize, usize) -> T>(width: usize, height: usize, genfn: F) -> (res:
        Self)
        requires
            1 <= width <= isize::MAX,
            1 <= height <= isize::MAX,
            forall|g: usize, y: usize, x: usize| call_requires(genfn, (g, y, x)),
        ensures
            res.values@.len() >= 1,
            is_top_layer(width as int, height as int, (res.values@.len() - 1) as nat),
            forall|l: nat|
                l < res.values@.len() - 1 ==> !#[trigger] is_top_layer(
                    width as int,
                    height as int,
                    l,
                ),
            forall|l: int|
                0 <= l < res.values@.len() ==> (#[trigger] res.values@[l])@.len() == cells_along(
                    height as int,
                    pow2(l as nat) as int,
                ),
            forall|l: int, y: int|
                0 <= l < res.values@.len() && 0 <= y < res.values@[l]@.len() ==> (
                #[trigger] res.values@[l]@[y])@.len() == cells_along(
                    width as int,
                    pow2(l as nat) as int,
                ),
            forall|l: int, y: int, x: int|
                0 <= l < res.values@.len() && 0 <= y < res.values@[l]@.len() && 0 <= x
                    < res.values@[l]@[y]@.len() ==> call_ensures(
                    genfn,
                    (pow2(l as nat) as usize, y as usize, x as usize),
                    #[trigger] res.values@[l]@[y]@[x],
                ),
    {
        let mut grid_len: usize = 1;
        let mut values: Vec<Vec<Vec<T>>> = Vec::new();
        let ghost mut l: nat = 0;
        let ghost big: int = if width >= height { width as int } else { height as int };
        proof {
            assert(pow2(0) == 1) by {
                vstd::arithmetic::power2::lemma2_to64();
            }
        }
        loop
            invariant_except_break
                1 <= width <= isize::MAX,
                1 <= height <= isize::MAX,
                forall|g: usize, y: usize, x: usize| call_requires(genfn, (g, y, x)),
                big == if width >= height { width as int } else { height as int },
                grid_len == pow2(l),
                1 <= grid_len < 2 * big,
                values@.len() == l,
                forall|la: nat| la < l ==> !#[trigger] is_top_layer(width as int, height as int, la),
                forall|la: int|
                    0 <= la < l ==> (#[trigger] values@[la])@.len() == cells_along(
                        height as int,
                        pow2(la as nat) as int,
                    ),
                forall|la: int, y: int|
                    0 <= la < l && 0 <= y < values@[la]@.len() ==> (
                    #[trigger] values@[la]@[y])@.len() == cells_along(
                        width as int,
                        pow2(la as nat) as int,
                    ),
                forall|la: int, y: int, x: int|
                    0 <= la < l && 0 <= y < values@[la]@.len() && 0 <= x < values@[la]@[y]@.len()
                        ==> call_ensures(
                        genfn,
                        (pow2(la as nat) as usize, y as usize, x as usize),
                        #[trigger] values@[la]@[y]@[x],
                    ),
            ensures
                values@.len() >= 1,
                is_top_layer(width as int, height as int, (values@.len() - 1) as nat),
                forall|la: nat|
                    la < values@.len() - 1 ==> !#[trigger] is_top_layer(
                        width as int,
                        height as int,
                        la,
                    ),
                forall|la: int|
                    0 <= la < values@.len() ==> (#[trigger] values@[la])@.len() == cells_along(
                        height as int,
                        pow2(la as nat) as int,
                    ),
                forall|la: int, y: int|
                    0 <= la < values@.len() && 0 <= y < values@[la]@.len() ==> (
                    #[trigger] values@[la]@[y])@.len() == cells_along(
                        width as int,
                        pow2(la as nat) as int,
                    ),
                forall|la: int, y: int, x: int|
                    0 <= la < values@.len() && 0 <= y < values@[la]@.len() && 0 <= x
                        < values@[la]@[y]@.len() ==> call_ensures(
                        genfn,
                        (pow2(la as nat) as usize, y as usize, x as usize),
                        #[trigger] values@[la]@[y]@[x],
                    ),
            decreases 2 * big - grid_len,
        {
            proof {
                lemma_cells_along(height as int, grid_len as int);
                lemma_cells_along(width as int, grid_len as int);
            }
            let mut ymax: usize = height / grid_len;
            let mut xmax: usize = width / grid_len;
            if ymax * grid_len < height {
                ymax = ymax + 1;
            }
            if xmax * grid_len < width {
                xmax = xmax + 1;
            }
            assert(ymax == cells_along(height as int, grid_len as int));
            assert(xmax == cells_along(width as int, grid_len as int));
            let mut gridy: Vec<Vec<T>> = Vec::new();
            let mut y: usize = 0;
            while y < ymax
                invariant
                    0 <= y <= ymax,
                    forall|g: usize, yy: usize, x: usize| call_requires(genfn, (g, yy, x)),
                    gridy@.len() == y,
                    forall|yy: int| 0 <= yy < y ==> (#[trigger] gridy@[yy])@.len() == xmax,
                    forall|yy: int, x: int|
                        0 <= yy < y && 0 <= x < xmax ==> call_ensures(
                            genfn,
                            (grid_len, yy as usize, x as usize),
                            #[trigger] gridy@[yy]@[x],
                        ),
                decreases ymax - y,
            {
                let mut gridx: Vec<T> = Vec::new();
                let mut x: usize = 0;
                while x < xmax
                    invariant
                        0 <= x <= xmax,
                        0 <= y < ymax,
                        forall|g: usize, yy: usize, xx: usize| call_requires(genfn, (g, yy, xx)),
                        gridx@.len() == x,
                        forall|xx: int|
                            0 <= xx < x ==> call_ensures(
                                genfn,
                                (grid_len, y, xx as usize),
                                #[trigger] gridx@[xx],
                            ),
                    decreases xmax - x,
                {
                    gridx.push(genfn(grid_len, y, x));
                    x = x + 1;
                }
                gridy.push(gridx);
                y = y + 1;
            }
            values.push(gridy);
            proof {
                assert(values@[l as int] == gridy);
            }
            if ymax == 1 && xmax == 1 {
                assert(is_top_layer(width as int, height as int, l));
                break;
            }
            proof {
                assert(!is_top_layer(width as int, height as int, l));
                if grid_len >= big {
                    lemma_cells_along(height as int, grid_len as int);
                    lemma_cells_along(width as int, grid_len as int);
                }
                assert(grid_len < big);
                lemma_pow2_unfold(l + 1);
                l = l + 1;
            }
            grid_len = grid_len * 2;
        }
        DoublyGrid2d { values }
    }
}

} // verus!
