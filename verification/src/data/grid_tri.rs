//! A triangular grid.
use vstd::prelude::*;
use crate::data::ivec::IVec2;
use crate::math::quick::{stack_sum, triangle};

verus! {

/// A triangular grid. Cell `(x, y)` (column `x`, row `y`) is item
/// `stack_sum(x) + y`:
///
/// ```text
///          column x
///       0  1  2  3  4
///      +--------------
///  r 0 |0  1  3  6  10
///  o 1 |   2  4  7  11
///  w 2 |      5  8  12
///    3 |         9  13
///  y 4 |            14
/// ```
pub struct GridTri<T> {
    pub total_size: usize,
    pub edge_size: usize,
    pub items: Vec<T>,
}

/// The index of cell `(x, y)`.
pub open spec fn tri_index(x: nat, y: nat) -> nat {
    triangle(x) + y
}

impl<T: Clone + Copy + Default> GridTri<T> {
    /// Cell `(x, y)` has an item.
    pub open spec fn holds(&self, x: usize, y: usize) -> bool {
        tri_index(x as nat, y as nat) < self.items.len()
    }

    /// A triangular grid with edges of `edge_size` cells, each cell holding
    /// `T`'s default.
    pub fn new(edge_size: usize) -> (grid: Self)
        requires
            triangle(edge_size as nat) <= usize::MAX,
        ensures
            grid.edge_size == edge_size,
            grid.total_size == triangle(edge_size as nat),
            grid.items.len() == triangle(edge_size as nat),
            forall|i: int| 0 <= i < grid.items.len() ==> #[trigger] grid.items@[i] == grid.items@[0],
            grid.items.len() > 0 ==> call_ensures(T::default, (), grid.items@[0]),
    {
        let total_size = stack_sum(edge_size);
        let value = T::default();
        let mut items: Vec<T> = Vec::with_capacity(total_size);
        let mut i: usize = 0;
        while i < total_size
            invariant
                i <= total_size,
                items.len() == i,
                forall|j: int| 0 <= j < i ==> items@[j] == value,
            decreases total_size - i,
        {
            items.push(value);
            i = i + 1;
        }
        Self { total_size, edge_size, items }
    }

    /// Writes `cell` to `(x, y)` and returns its index.
    pub fn set(&mut self, x: usize, y: usize, cell: T) -> (res: Option<usize>)
        requires
            old(self).holds(x, y),
        ensures
            res == Some(tri_index(x as nat, y as nat) as usize),
            final(self).total_size == old(self).total_size,
            final(self).edge_size == old(self).edge_size,
            final(self).items@ == old(self).items@.update(tri_index(x as nat, y as nat) as int, cell),
    {
        let id = self.to_index(x, y).unwrap();
        self.items.set(id, cell);
        Some(id)
    }

    /// `set` at the position `pos`, its coordinates taken as `usize`.
    pub fn set_at(&mut self, pos: IVec2, tile: T) -> (res: Option<usize>)
        requires
            old(self).holds(pos.x as usize, pos.y as usize),
        ensures
            res == Some(tri_index(pos.x as usize as nat, pos.y as usize as nat) as usize),
            final(self).total_size == old(self).total_size,
            final(self).edge_size == old(self).edge_size,
            final(self).items@ == old(self).items@.update(
                tri_index(pos.x as usize as nat, pos.y as usize as nat) as int,
                tile,
            ),
    {
        self.set(pos.x as usize, pos.y as usize, tile)
    }

    /// The content of `(x, y)`.
    pub fn get(&self, x: usize, y: usize) -> (res: Option<T>)
        requires
            self.holds(x, y),
        ensures
            res == Some(self.items@[tri_index(x as nat, y as nat) as int]),
    {
        let id = self.to_index(x, y).unwrap();
        Some(self.items[id])
    }

    /// `get`, for signed coordinates: a negative one gives `None`.
    pub fn get_i32(&self, x: i32, y: i32) -> (res: Option<T>)
        requires
            x >= 0 && y >= 0 ==> self.holds(x as usize, y as usize),
        ensures
            x < 0 || y < 0 ==> res.is_none(),
            x >= 0 && y >= 0 ==> res == Some(
                self.items@[tri_index(x as nat, y as nat) as int],
            ),
    {
        if x < 0 || y < 0 {
            return None;
        }
        let id = self.to_index(x as usize, y as usize).unwrap();
        Some(self.items[id])
    }

    /// `get` at the position `pos`, its coordinates taken as `usize`.
    pub fn get_at(&self, pos: IVec2) -> (res: Option<T>)
        requires
            self.holds(pos.x as usize, pos.y as usize),
        ensures
            res == Some(self.items@[tri_index(pos.x as usize as nat, pos.y as usize as nat) as int]),
    {
        self.get(pos.x as usize, pos.y as usize)
    }

    /// The index `stack_sum(x) + y` of cell `(x, y)`.
    pub fn to_index(&self, x: usize, y: usize) -> (res: Option<usize>)
        requires
            tri_index(x as nat, y as nat) <= usize::MAX,
        ensures
            res == Some(tri_index(x as nat, y as nat) as usize),
    {
        Some(stack_sum(x) + y)
    }

    /// Walks the triangle; it does nothing yet.
    pub fn iterate(&self) {
    }
}

} // verus!

verus! {

/// The pattern of the triangular grid: the cells `(x, y)` with `y <= x` of
/// a grid with edges of `edge_size` cells fill its items exactly once;
/// column `x` takes the indices `triangle(x)` up to `triangle(x) + x`.
pub proof fn law_tri_pattern(edge_size: nat, x: nat, y: nat, i: nat, j: nat)
    requires
        y <= x < edge_size,
        j <= i < edge_size,
    ensures
        triangle(x) <= tri_index(x, y) < triangle(x + 1),
        tri_index(x, y) < triangle(edge_size),
        (x != i || y != j) ==> tri_index(x, y) != tri_index(i, j),
{
    crate::math::quick::lemma_triangle_monotonic(x + 1, edge_size);
    if x < i {
        crate::math::quick::lemma_triangle_monotonic(x + 1, i);
    } else if i < x {
        crate::math::quick::lemma_triangle_monotonic(i + 1, x);
    }
}

/// Every cell of the pattern has an item in a grid made by `new`.
pub proof fn law_new_holds_pattern<T: Clone + Copy + Default>(grid: GridTri<T>, x: usize, y: usize)
    requires
        grid.items.len() == triangle(grid.edge_size as nat),
        y <= x < grid.edge_size,
    ensures
        grid.holds(x, y),
{
    law_tri_pattern(grid.edge_size as nat, x as nat, y as nat, x as nat, y as nat);
}

} // verus!
