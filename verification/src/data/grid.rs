//! A discrete, protected 3D data structure: it always checks bounds.
use vstd::prelude::*;
use crate::data::ivec::IVec3;

verus! {

/// A discrete, protected 3D data structure. Protected in the sense that it
/// always checks bounds, even in production.
pub struct Grid<T> {
    pub x_size: usize,
    pub y_size: usize,
    pub z_size: usize,
    pub items: Vec<T>,
}

/// `v` lies below `s`, as far as the bounds test `v < s as i32` of the grid
/// goes: that test never admits a coordinate at or beyond the size.
proof fn lemma_below_cast_size(s: usize, v: i32)
    requires
        0 <= v,
        v < (s as i32),
    ensures
        (v as int) < (s as int),
{
    if s as int <= i32::MAX as int {
        assert((s as i32) as int == s as int);
    }
}

/// The linear position of cell `(x, y, z)`.
pub open spec fn linear3(xs: int, ys: int, x: int, y: int, z: int) -> int {
    z * xs * ys + y * xs + x
}

proof fn lemma_linear3_bounds(xs: int, ys: int, zs: int, x: int, y: int, z: int)
    requires
        0 <= x < xs,
        0 <= y < ys,
        0 <= z < zs,
    ensures
        0 <= z * xs <= z * xs * ys,
        0 <= y * xs,
        0 <= linear3(xs, ys, x, y, z) < xs * ys * zs,
{
    assert(0 <= z * xs <= z * xs * ys) by (nonlinear_arith)
        requires
            0 <= z,
            0 < xs,
            0 < ys,
    ;
    assert(0 <= y * xs) by (nonlinear_arith)
        requires
            0 <= y,
            0 < xs,
    ;
    assert(z * xs * ys + y * xs + x < xs * ys * zs) by (nonlinear_arith)
        requires
            0 <= x < xs,
            0 <= y < ys,
            0 <= z < zs,
    ;
}

impl<T: Clone + Copy> Grid<T> {
    /// The items fill the grid exactly.
    pub open spec fn wf(&self) -> bool {
        &&& self.x_size * self.y_size <= usize::MAX
        &&& self.items.len() == self.x_size * self.y_size * self.z_size
    }

    /// Every cell has an item: there are at least
    /// `x_size * y_size * z_size` of them.
    pub open spec fn covers(&self) -> bool {
        self.x_size * self.y_size * self.z_size <= self.items.len()
    }

    /// Whether `(x, y, z)` lies outside the grid (despite its name, this is
    /// the test for being off the grid).
    pub open spec fn off_grid(&self, x: i32, y: i32, z: i32) -> bool {
        x < 0 || x >= self.x_size as i32 || y < 0 || y >= self.y_size as i32 || z < 0 || z
            >= self.z_size as i32
    }

    /// The linear index of `(x, y, z)`, or `None` when it lies off the grid.
    pub open spec fn index_of(&self, x: i32, y: i32, z: i32) -> Option<usize> {
        if self.off_grid(x, y, z) {
            None
        } else {
            Some(linear3(self.x_size as int, self.y_size as int, x as int, y as int, z as int) as usize)
        }
    }

    pub fn new(x: usize, y: usize, z: usize, default_value: T) -> (grid: Self)
        requires
            x * y <= usize::MAX,
            x * y * z <= usize::MAX,
        ensures
            grid.wf(),
            grid.x_size == x,
            grid.y_size == y,
            grid.z_size == z,
            forall|i: int| 0 <= i < grid.items.len() ==> grid.items@[i] == default_value,
    {
        let n = x * y * z;
        let mut items: Vec<T> = Vec::with_capacity(n);
        let mut i: usize = 0;
        while i < n
            invariant
                i <= n,
                items.len() == i,
                forall|j: int| 0 <= j < i ==> items@[j] == default_value,
            decreases n - i,
        {
            items.push(default_value);
            i = i + 1;
        }
        Self { x_size: x, y_size: y, z_size: z, items }
    }

    /// The number of cells.
    pub fn size(&self) -> (n: usize)
        requires
            self.x_size * self.y_size <= usize::MAX,
            self.x_size * self.y_size * self.z_size <= usize::MAX,
        ensures
            n == self.x_size * self.y_size * self.z_size,
    {
        self.x_size * self.y_size * self.z_size
    }

    /// The dimensions of the grid as a vector.
    pub fn size_vec(&self) -> (v: IVec3)
        ensures
            v.x == self.x_size as i32,
            v.y == self.y_size as i32,
            v.z == self.z_size as i32,
    {
        IVec3::new(self.x_size as i32, self.y_size as i32, self.z_size as i32)
    }

    /// Writes `tile` to cell `(x, y, z)` and returns its index; off the grid
    /// nothing changes and `None` comes back.
    pub fn set(&mut self, x: i32, y: i32, z: i32, tile: T) -> (res: Option<usize>)
        requires
            old(self).covers(),
        ensures
            final(self).items.len() == old(self).items.len(),
            res == old(self).index_of(x, y, z),
            final(self).x_size == old(self).x_size,
            final(self).y_size == old(self).y_size,
            final(self).z_size == old(self).z_size,
            match res {
                Some(id) => final(self).items@ == old(self).items@.update(id as int, tile),
                None => final(self).items@ == old(self).items@,
            },
    {
        let id = self.to_index(x, y, z);
        match id {
            Some(id) => {
                self.items.set(id, tile);
                Some(id)
            },
            None => None,
        }
    }

    pub fn set_at(&mut self, pos: IVec3, tile: T) -> (res: Option<usize>)
        requires
            old(self).covers(),
        ensures
            final(self).items.len() == old(self).items.len(),
            res == old(self).index_of(pos.x, pos.y, pos.z),
            final(self).x_size == old(self).x_size,
            final(self).y_size == old(self).y_size,
            final(self).z_size == old(self).z_size,
            match res {
                Some(id) => final(self).items@ == old(self).items@.update(id as int, tile),
                None => final(self).items@ == old(self).items@,
            },
    {
        self.set(pos.x, pos.y, pos.z, tile)
    }

    /// The content of cell `(x, y, z)`, or `None` off the grid.
    pub fn get(&self, x: i32, y: i32, z: i32) -> (res: Option<T>)
        requires
            self.covers(),
        ensures
            match self.index_of(x, y, z) {
                Some(id) => res == Some(self.items@[id as int]),
                None => res.is_none(),
            },
    {
        let id = self.to_index(x, y, z);
        match id {
            Some(id) => Some(self.items[id]),
            None => None,
        }
    }

    pub fn get_at(&self, pos: IVec3) -> (res: Option<T>)
        requires
            self.covers(),
        ensures
            match self.index_of(pos.x, pos.y, pos.z) {
                Some(id) => res == Some(self.items@[id as int]),
                None => res.is_none(),
            },
    {
        self.get(pos.x, pos.y, pos.z)
    }

    /// Despite its name, true where `(x, y, z)` lies OFF the grid.
    pub fn is_on_grid(&self, x: i32, y: i32, z: i32) -> (res: bool)
        ensures
            res == self.off_grid(x, y, z),
    {
        x < 0 || x >= self.x_size as i32 || y < 0 || y >= self.y_size as i32 || z < 0 || z
            >= self.z_size as i32
    }

    /// The linear index `z * x_size * y_size + y * x_size + x` of a cell on
    /// the grid.
    pub fn to_index(&self, x: i32, y: i32, z: i32) -> (res: Option<usize>)
        requires
            self.x_size * self.y_size * self.z_size <= usize::MAX,
        ensures
            res == self.index_of(x, y, z),
            res matches Some(id) ==> id < self.x_size * self.y_size * self.z_size,
    {
        if self.is_on_grid(x, y, z) {
            None
        } else {
            proof {
                lemma_below_cast_size(self.x_size, x);
                lemma_below_cast_size(self.y_size, y);
                lemma_below_cast_size(self.z_size, z);
                lemma_linear3_bounds(
                    self.x_size as int,
                    self.y_size as int,
                    self.z_size as int,
                    x as int,
                    y as int,
                    z as int,
                );
            }
            Some((z as usize * self.x_size * self.y_size) + (y as usize * self.x_size) + x as usize)
        }
    }
}

} // verus!

verus! {

/// Distinct cells of the grid have distinct linear positions.
pub proof fn lemma_linear3_distinct(xs: int, ys: int, x: int, y: int, z: int, i: int, j: int, k: int)
    requires
        0 <= x < xs,
        0 <= y < ys,
        0 <= z,
        0 <= i < xs,
        0 <= j < ys,
        0 <= k,
        x != i || y != j || z != k,
    ensures
        linear3(xs, ys, x, y, z) != linear3(xs, ys, i, j, k),
{
    assert(linear3(xs, ys, x, y, z) == (z * ys + y) * xs + x) by (nonlinear_arith);
    assert(linear3(xs, ys, i, j, k) == (k * ys + j) * xs + i) by (nonlinear_arith);
    assert(0 <= z * ys + y && 0 <= k * ys + j) by (nonlinear_arith)
        requires
            0 <= y,
            0 <= z,
            0 <= j,
            0 <= k,
            0 < ys,
    ;
    if z * ys + y != k * ys + j || x != i {
        crate::data::grid2::lemma_index2_distinct(xs, x, z * ys + y, i, k * ys + j);
    } else {
        crate::data::grid2::lemma_index2_distinct(ys, y, z, j, k);
    }
}

/// What `set` writes, `get` reads back, and no other cell changes.
pub proof fn law_get_after_set<T: Clone + Copy>(
    before: Grid<T>,
    after: Grid<T>,
    x: i32,
    y: i32,
    z: i32,
    tile: T,
    i: i32,
    j: i32,
    k: i32,
)
    requires
        before.covers(),
        before.index_of(x, y, z) matches Some(id) && after.items@ == before.items@.update(
            id as int,
            tile,
        ),
        before.index_of(i, j, k) is Some,
        after.x_size == before.x_size,
        after.y_size == before.y_size,
        after.z_size == before.z_size,
    ensures
        after.covers(),
        after.index_of(x, y, z) matches Some(id) && after.items@[id as int] == tile,
        (x != i || y != j || z != k) ==> after.items@[after.index_of(i, j, k)->0 as int]
            == before.items@[before.index_of(i, j, k)->0 as int],
{
    let (xs, ys, zs) = (before.x_size as int, before.y_size as int, before.z_size as int);
    lemma_below_cast_size(before.x_size, x);
    lemma_below_cast_size(before.y_size, y);
    lemma_below_cast_size(before.z_size, z);
    lemma_below_cast_size(before.x_size, i);
    lemma_below_cast_size(before.y_size, j);
    lemma_below_cast_size(before.z_size, k);
    lemma_linear3_bounds(xs, ys, zs, x as int, y as int, z as int);
    lemma_linear3_bounds(xs, ys, zs, i as int, j as int, k as int);
    if x != i || y != j || z != k {
        lemma_linear3_distinct(xs, ys, x as int, y as int, z as int, i as int, j as int, k as int);
    }
}

} // verus!
