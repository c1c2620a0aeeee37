//! [QuadTree]: layers of square grids, layer `l` having `2^l` by `2^l` cells.
use vstd::prelude::*;
use vstd::arithmetic::power2::pow2;
use crate::structures::grid::Grid2D;

verus! {

/// One grid per layer; layer `l` is `2^l` cells on a side.
pub struct QuadTree<TValue> {
    values: Vec<Grid2D<Vec<Vec<TValue>>>>,
}

/// The rows of a grid of vectors.
pub open spec fn grid_rows<TValue>(g: Grid2D<Vec<Vec<TValue>>>) -> Seq<Seq<TValue>> {
    g.values@.map_values(|r: Vec<TValue>| r@)
}

impl<TValue> QuadTree<TValue> {
    /// The rows of each layer.
    pub closed spec fn layers(&self) -> Seq<Seq<Seq<TValue>>> {
        self.values@.map_values(|g: Grid2D<Vec<Vec<TValue>>>| grid_rows(g))
    }

    /// Builds `depth` layers, calling `init_value_fn(layer, x, y)` for each cell.
    pub fn new<F: Fn(usize, usize, usize) -> TValue>(depth: usize, init_value_fn: F) -> (res: Self)
        requires
            depth <= usize::BITS,
            depth > 0 ==> pow2((depth - 1) as nat) <= usize::MAX,
            forall|layer: usize, x: usize, y: usize|
                layer < depth && x < pow2(layer as nat) && y < pow2(layer as nat) ==> call_requires(
                    init_value_fn,
                    (layer, x, y),
                ),
        ensures
            res.layers().len() == depth,
            forall|l: int| 0 <= l < depth ==> (#[trigger] res.layers()[l]).len() == pow2(l as nat),
            forall|l: int, y: int|
                0 <= l < depth && 0 <= y < pow2(l as nat) ==> (#[trigger] res.layers()[l][y]).len()
                    == pow2(l as nat),
            forall|l: int, y: int, x: int|
                0 <= l < depth && 0 <= y < pow2(l as nat) && 0 <= x < pow2(l as nat)
                    ==> call_ensures(
                    init_value_fn,
                    (l as usize, x as usize, y as usize),
                    #[trigger] res.layers()[l][y][x],
                ),
    {
        let mut values: Vec<Grid2D<Vec<Vec<TValue>>>> = Vec::with_capacity(depth);
        let mut layer: usize = 0;
        while layer < depth
            invariant
                0 <= layer <= depth,
                depth <= usize::BITS,
                depth > 0 ==> pow2((depth - 1) as nat) <= usize::MAX,
                forall|la: usize, x: usize, y: usize|
                    la < depth && x < pow2(la as nat) && y < pow2(la as nat) ==> call_requires(
                        init_value_fn,
                        (la, x, y),
                    ),
                values@.len() == layer,
                forall|l: int|
                    0 <= l < layer ==> (#[trigger] grid_rows(values@[l])).len() == pow2(l as nat),
                forall|l: int, y: int|
                    0 <= l < layer && 0 <= y < pow2(l as nat) ==> (#[trigger] grid_rows(
                        values@[l],
                    )[y]).len() == pow2(l as nat),
                forall|l: int, y: int, x: int|
                    0 <= l < layer && 0 <= y < pow2(l as nat) && 0 <= x < pow2(l as nat)
                        ==> call_ensures(
                        init_value_fn,
                        (l as usize, x as usize, y as usize),
                        #[trigger] grid_rows(values@[l])[y][x],
                    ),
            decreases depth - layer,
        {
            proof {
                if layer < depth - 1 {
                    vstd::arithmetic::power2::lemma_pow2_strictly_increases(
                        layer as nat,
                        (depth - 1) as nat,
                    );
                }
                vstd::arithmetic::power2::lemma_pow2_pos(layer as nat);
            }
            let len: usize = 1usize << layer;
            proof {
                vstd::bits::lemma_usize_shl_is_mul(1, layer);
            }
            let mut values_layer_y: Vec<Vec<TValue>> = Vec::with_capacity(len);
            let mut y: usize = 0;
            while y < len
                invariant
                    0 <= y <= len,
                    layer < depth,
                    len == pow2(layer as nat),
                    forall|la: usize, x: usize, yy: usize|
                        la < depth && x < pow2(la as nat) && yy < pow2(la as nat) ==> call_requires(
                            init_value_fn,
                            (la, x, yy),
                        ),
                    values_layer_y@.len() == y,
                    forall|yy: int| 0 <= yy < y ==> (#[trigger] values_layer_y@[yy])@.len() == len,
                    forall|yy: int, x: int|
                        0 <= yy < y && 0 <= x < len ==> call_ensures(
                            init_value_fn,
                            (layer, x as usize, yy as usize),
                            #[trigger] values_layer_y@[yy]@[x],
                        ),
                decreases len - y,
            {
                let mut values_layer_x: Vec<TValue> = Vec::with_capacity(len);
                let mut x: usize = 0;
                while x < len
                    invariant
                        0 <= x <= len,
                        y < len,
                        layer < depth,
                        len == pow2(layer as nat),
                        forall|la: usize, xx: usize, yy: usize|
                            la < depth && xx < pow2(la as nat) && yy < pow2(la as nat)
                                ==> call_requires(init_value_fn, (la, xx, yy)),
                        values_layer_x@.len() == x,
                        forall|xx: int|
                            0 <= xx < x ==> call_ensures(
                                init_value_fn,
                                (layer, xx as usize, y),
                                #[trigger] values_layer_x@[xx],
                            ),
                    decreases len - x,
                {
                    values_layer_x.push(init_value_fn(layer, x, y));
                    x = x + 1;
                }
                values_layer_y.push(values_layer_x);
                y = y + 1;
            }
            values.push(Grid2D { values: values_layer_y });
            proof {
                let g = values@[layer as int];
                assert(grid_rows(g) =~= values_layer_y@.map_values(|r: Vec<TValue>| r@));
            }
            layer = layer + 1;
        }
        let res = Self { values };
        proof {
            assert forall|l: int| 0 <= l < depth implies #[trigger] res.layers()[l] == grid_rows(
                values@[l],
            ) by {}
        }
        res
    }

    /// The grid of layer `layer`.
    pub fn get(&self, layer: usize) -> (res: &Grid2D<Vec<Vec<TValue>>>)
        requires
            layer < self.layers().len(),
        ensures
            grid_rows(*res) == self.layers()[layer as int],
    {
        &self.values[layer]
    }

    /// The grid of layer `layer`, mutably.
    pub fn get_mut(&mut self, layer: usize) -> (res: &mut Grid2D<Vec<Vec<TValue>>>)
        requires
            layer < old(self).layers().len(),
        ensures
            grid_rows(*res) == old(self).layers()[layer as int],
            final(self).layers() == old(self).layers().update(layer as int, grid_rows(*final(res))),
    {
        let r = &mut self.values[layer];
        r
    }
}

} // verus!
