//! A 2D grid data structure, stored row by row.
use vstd::prelude::*;
use crate::data::ivec::IVec2;

verus! {

/// A grid data structure: cell `(x, y)` is item `y * width + x`.
pub struct Grid2<T> {
    pub width: usize,
    pub height: usize,
    pub items: Vec<T>,
}

/// Cell `(x, y)` of a `w` by `h` grid lies within the items.
pub proof fn lemma_index2_bounds(w: int, h: int, x: int, y: int)
    requires
        0 <= x < w,
        0 <= y < h,
    ensures
        0 <= y * w,
        0 <= y * w + x < w * h,
{
    assert(0 <= y * w) by (nonlinear_arith)
        requires
            0 <= y,
            0 <= w,
    ;
    assert(y * w + x < w * h) by (nonlinear_arith)
        requires
            0 <= x < w,
            0 <= y < h,
    ;
}

/// The columns of `stacked`, one after the other.
pub open spec fn flat<T>(stacked: Seq<Vec<T>>) -> Seq<T> {
    stacked.map_values(|c: Vec<T>| c@).flatten()
}

/// Columns that all hold `h` items flatten to `h` items per column.
pub proof fn lemma_flat_len<T>(stacked: Seq<Vec<T>>, h: int)
    requires
        forall|c: int| 0 <= c < stacked.len() ==> #[trigger] stacked[c].len() == h,
    ensures
        flat(stacked).len() == stacked.len() * h,
    decreases stacked.len(),
{
    if stacked.len() > 0 {
        let t = stacked.drop_last();
        lemma_flat_len(t, h);
        assert(stacked == t.push(stacked.last()));
        assert(stacked.map_values(|c: Vec<T>| c@) == t.map_values(|c: Vec<T>| c@).push(stacked.last()@));
        t.map_values(|c: Vec<T>| c@).lemma_flatten_push(stacked.last()@);
        let n = t.len() as int;
        assert(stacked[n].len() == h);
        assert(flat(stacked).len() == flat(t).len() + h);
        assert(n * h + h == (n + 1) * h) by (nonlinear_arith);
        assert(stacked.len() == n + 1);
    } else {
        assert(stacked.map_values(|c: Vec<T>| c@) =~= Seq::<Seq<T>>::empty());
        let z = stacked.len() as int;
        assert(z * h == 0) by (nonlinear_arith)
            requires
                z == 0,
        ;
    }
}

impl<T: Clone + Copy + Default> Grid2<T> {
    /// The items fill the grid exactly.
    pub open spec fn wf(&self) -> bool {
        self.items.len() == self.width * self.height
    }

    /// Every cell has an item: there are at least `width * height` of them.
    pub open spec fn covers(&self) -> bool {
        self.width * self.height <= self.items.len()
    }

    /// The index of `(x, y)`, or `None` when it lies off the grid.
    pub open spec fn index_of(&self, x: usize, y: usize) -> Option<usize> {
        if x >= self.width || y >= self.height {
            None
        } else {
            Some((y * self.width + x) as usize)
        }
    }

    /// The content of `(x, y)`, for a cell on the grid.
    pub open spec fn cell(&self, x: int, y: int) -> T {
        self.items@[y * self.width + x]
    }

    /// A `width` by `height` grid, each cell holding `T`'s default.
    pub fn new(width: usize, height: usize) -> (grid: Self)
        requires
            width * height <= usize::MAX,
        ensures
            grid.wf(),
            grid.width == width,
            grid.height == height,
            forall|i: int| 0 <= i < grid.items.len() ==> #[trigger] grid.items@[i] == grid.items@[0],
            grid.items.len() > 0 ==> call_ensures(T::default, (), grid.items@[0]),
    {
        let n = width * height;
        let value = T::default();
        let mut items: Vec<T> = Vec::with_capacity(n);
        let mut i: usize = 0;
        while i < n
            invariant
                i <= n,
                items.len() == i,
                forall|j: int| 0 <= j < i ==> items@[j] == value,
            decreases n - i,
        {
            items.push(value);
            i = i + 1;
        }
        Self { width, height, items }
    }

    /// A grid from columns stacked side by side: the grid is as wide as
    /// there are columns, as high as the first column, and its items are the
    /// columns one after the other.
    pub fn from_stacked_columns(stacked: Vec<Vec<T>>) -> (grid: Grid2<T>)
        requires
            stacked.len() > 0,
        ensures
            grid.width == stacked.len(),
            grid.height == stacked@[0].len(),
            grid.items@ == flat(stacked@),
            (forall|c: int| 0 <= c < stacked.len() ==> #[trigger] stacked@[c].len() == stacked@[0].len())
                ==> grid.wf(),
    {
        let mut items: Vec<T> = Vec::new();
        let mut c: usize = 0;
        while c < stacked.len()
            invariant
                c <= stacked.len(),
                items@ == flat(stacked@.take(c as int)),
            decreases stacked.len() - c,
        {
            let col = &stacked[c];
            let mut r: usize = 0;
            while r < col.len()
                invariant
                    r <= col.len(),
                    c < stacked.len(),
                    *col == stacked@[c as int],
                    items@ == flat(stacked@.take(c as int)) + col@.take(r as int),
                decreases col.len() - r,
            {
                items.push(col[r]);
                r = r + 1;
                proof {
                    assert(col@.take(r as int) == col@.take(r - 1).push(col@[r - 1]));
                }
            }
            proof {
                assert(col@.take(r as int) == col@);
                let s = stacked@.take(c as int);
                assert(stacked@.take(c + 1) == s.push(stacked@[c as int]));
                assert(stacked@.take(c + 1).map_values(|v: Vec<T>| v@) == s.map_values(
                    |v: Vec<T>| v@,
                ).push(col@));
                s.map_values(|v: Vec<T>| v@).lemma_flatten_push(col@);
            }
            c = c + 1;
        }
        proof {
            assert(stacked@.take(stacked.len() as int) == stacked@);
            if forall|c: int| 0 <= c < stacked.len() ==> #[trigger] stacked@[c].len() == stacked@[0].len() {
                lemma_flat_len(stacked@, stacked@[0].len() as int);
                assert(stacked.len() * stacked@[0].len() == stacked@[0].len() * stacked.len()) by (nonlinear_arith);
            }
        }
        Self { width: stacked.len(), height: stacked[0].len(), items }
    }

    /// A grid from rows stacked top to bottom: `stacked[y][x]` lands on
    /// `(x, y)`. The grid is as wide as the first row.
    pub fn from_stacked_rows(stacked: &Vec<Vec<T>>) -> (grid: Grid2<T>)
        requires
            stacked.len() > 0,
            stacked@[0].len() * stacked.len() <= usize::MAX,
            forall|y: int| 0 <= y < stacked.len() ==> #[trigger] stacked@[y].len() >= stacked@[0].len(),
        ensures
            grid.wf(),
            grid.width == stacked@[0].len(),
            grid.height == stacked.len(),
            forall|x: int, y: int|
                0 <= x < grid.width && 0 <= y < grid.height ==> #[trigger] grid.cell(x, y)
                    == stacked@[y]@[x],
    {
        let width = stacked[0].len();
        let height = stacked.len();
        let mut grid = Grid2::new(width, height);
        let mut x: usize = 0;
        while x < width
            invariant
                x <= width,
                width == stacked@[0].len(),
                height == stacked.len(),
                grid.wf(),
                grid.width == width,
                grid.height == height,
                forall|y: int| 0 <= y < stacked.len() ==> #[trigger] stacked@[y].len() >= width,
                forall|i: int, j: int|
                    0 <= i < x && 0 <= j < height ==> #[trigger] grid.cell(i, j) == stacked@[j]@[i],
            decreases width - x,
        {
            let mut y: usize = 0;
            while y < height
                invariant
                    y <= height,
                    x < width,
                    width == stacked@[0].len(),
                    height == stacked.len(),
                    grid.wf(),
                    grid.width == width,
                    grid.height == height,
                    forall|k: int| 0 <= k < stacked.len() ==> #[trigger] stacked@[k].len() >= width,
                    forall|i: int, j: int|
                        0 <= i < x && 0 <= j < height ==> #[trigger] grid.cell(i, j)
                            == stacked@[j]@[i],
                    forall|j: int| 0 <= j < y ==> #[trigger] grid.cell(x as int, j) == stacked@[j]@[x as int],
                decreases height - y,
            {
                let ghost g0 = grid;
                assert(stacked@[y as int].len() >= width);
                let v = stacked[y][x];
                grid.set(x, y, v);
                proof {
                    lemma_index2_bounds(width as int, height as int, x as int, y as int);
                    assert forall|i: int, j: int|
                        0 <= i < width && 0 <= j < height && (i != x || j != y) implies
                        #[trigger] grid.cell(i, j) == g0.cell(i, j) by {
                        lemma_index2_bounds(width as int, height as int, i, j);
                        lemma_index2_distinct(width as int, i, j, x as int, y as int);
                    }
                    assert forall|i: int, j: int|
                        0 <= i < x && 0 <= j < height implies #[trigger] grid.cell(i, j)
                            == stacked@[j]@[i] by {
                        assert(g0.cell(i, j) == stacked@[j]@[i]);
                    }
                    assert forall|j: int| 0 <= j < y + 1 implies #[trigger] grid.cell(x as int, j)
                        == stacked@[j]@[x as int] by {
                        if j < y {
                            assert(g0.cell(x as int, j) == stacked@[j]@[x as int]);
                        }
                    }
                }
                y = y + 1;
            }
            x = x + 1;
        }
        grid
    }

    /// A grid from columns stacked side by side: `stacked[x][y]` lands on
    /// `(x, y)`. The grid is as high as the first column.
    pub fn from_stacked_rows_flipped(stacked: &Vec<Vec<T>>) -> (grid: Grid2<T>)
        requires
            stacked.len() > 0,
            stacked.len() * stacked@[0].len() <= usize::MAX,
            forall|x: int| 0 <= x < stacked.len() ==> #[trigger] stacked@[x].len() >= stacked@[0].len(),
        ensures
            grid.wf(),
            grid.width == stacked.len(),
            grid.height == stacked@[0].len(),
            forall|x: int, y: int|
                0 <= x < grid.width && 0 <= y < grid.height ==> #[trigger] grid.cell(x, y)
                    == stacked@[x]@[y],
    {
        let width = stacked.len();
        let height = stacked[0].len();
        let mut grid = Grid2::new(width, height);
        let mut x: usize = 0;
        while x < width
            invariant
                x <= width,
                width == stacked.len(),
                height == stacked@[0].len(),
                grid.wf(),
                grid.width == width,
                grid.height == height,
                forall|k: int| 0 <= k < stacked.len() ==> #[trigger] stacked@[k].len() >= height,
                forall|i: int, j: int|
                    0 <= i < x && 0 <= j < height ==> #[trigger] grid.cell(i, j) == stacked@[i]@[j],
            decreases width - x,
        {
            let mut y: usize = 0;
            while y < height
                invariant
                    y <= height,
                    x < width,
                    width == stacked.len(),
                    height == stacked@[0].len(),
                    grid.wf(),
                    grid.width == width,
                    grid.height == height,
                    forall|k: int| 0 <= k < stacked.len() ==> #[trigger] stacked@[k].len() >= height,
                    forall|i: int, j: int|
                        0 <= i < x && 0 <= j < height ==> #[trigger] grid.cell(i, j)
                            == stacked@[i]@[j],
                    forall|j: int| 0 <= j < y ==> #[trigger] grid.cell(x as int, j) == stacked@[x as int]@[j],
                decreases height - y,
            {
                let ghost g0 = grid;
                assert(stacked@[x as int].len() >= height);
                let v = stacked[x][y];
                grid.set(x, y, v);
                proof {
                    lemma_index2_bounds(width as int, height as int, x as int, y as int);
                    assert forall|i: int, j: int|
                        0 <= i < width && 0 <= j < height && (i != x || j != y) implies
                        #[trigger] grid.cell(i, j) == g0.cell(i, j) by {
                        lemma_index2_bounds(width as int, height as int, i, j);
                        lemma_index2_distinct(width as int, i, j, x as int, y as int);
                    }
                    assert forall|i: int, j: int|
                        0 <= i < x && 0 <= j < height implies #[trigger] grid.cell(i, j)
                            == stacked@[i]@[j] by {
                        assert(g0.cell(i, j) == stacked@[i]@[j]);
                    }
                    assert forall|j: int| 0 <= j < y + 1 implies #[trigger] grid.cell(x as int, j)
                        == stacked@[x as int]@[j] by {
                        if j < y {
                            assert(g0.cell(x as int, j) == stacked@[x as int]@[j]);
                        }
                    }
                }
                y = y + 1;
            }
            x = x + 1;
        }
        grid
    }

    /// The number of cells.
    pub fn size(&self) -> (n: usize)
        requires
            self.width * self.height <= usize::MAX,
        ensures
            n == self.width * self.height,
    {
        self.width * self.height
    }

    /// Writes `tile` to `(x, y)` and returns its index; off the grid nothing
    /// changes and `None` comes back.
    pub fn set(&mut self, x: usize, y: usize, tile: T) -> (res: Option<usize>)
        requires
            old(self).covers(),
        ensures
            final(self).items.len() == old(self).items.len(),
            res == old(self).index_of(x, y),
            final(self).width == old(self).width,
            final(self).height == old(self).height,
            match res {
                Some(id) => final(self).items@ == old(self).items@.update(id as int, tile),
                None => final(self).items@ == old(self).items@,
            },
    {
        let id = self.to_index(x, y);
        match id {
            Some(id) => {
                self.items.set(id, tile);
                Some(id)
            },
            None => None,
        }
    }

    /// `set` at the position `pos`, its coordinates taken as `usize` (a
    /// negative one lands off the grid).
    pub fn set_at(&mut self, pos: IVec2, tile: T) -> (res: Option<usize>)
        requires
            old(self).covers(),
        ensures
            final(self).items.len() == old(self).items.len(),
            res == old(self).index_of(pos.x as usize, pos.y as usize),
            final(self).width == old(self).width,
            final(self).height == old(self).height,
            match res {
                Some(id) => final(self).items@ == old(self).items@.update(id as int, tile),
                None => final(self).items@ == old(self).items@,
            },
    {
        self.set(pos.x as usize, pos.y as usize, tile)
    }

    /// The content of `(x, y)`, or `None` off the grid.
    pub fn get(&self, x: usize, y: usize) -> (res: Option<T>)
        requires
            self.covers(),
        ensures
            match self.index_of(x, y) {
                Some(id) => res == Some(self.items@[id as int]),
                None => res.is_none(),
            },
    {
        let id = self.to_index(x, y);
        match id {
            Some(id) => Some(self.items[id]),
            None => None,
        }
    }

    /// The item with index `id`.
    pub fn get_unsafe(&self, id: usize) -> (res: T)
        requires
            id < self.items.len(),
        ensures
            res == self.items@[id as int],
    {
        self.items[id]
    }

    /// `get`, for signed coordinates: a negative one gives `None`.
    pub fn get_i32(&self, x: i32, y: i32) -> (res: Option<T>)
        requires
            self.covers(),
        ensures
            x < 0 || y < 0 ==> res.is_none(),
            x >= 0 && y >= 0 ==> match self.index_of(x as usize, y as usize) {
                Some(id) => res == Some(self.items@[id as int]),
                None => res.is_none(),
            },
    {
        if x < 0 || y < 0 {
            return None;
        }
        let id = self.to_index(x as usize, y as usize);
        match id {
            Some(id) => Some(self.items[id]),
            None => None,
        }
    }

    /// `get` at the position `pos`, its coordinates taken as `usize`.
    pub fn get_at(&self, pos: IVec2) -> (res: Option<T>)
        requires
            self.covers(),
        ensures
            match self.index_of(pos.x as usize, pos.y as usize) {
                Some(id) => res == Some(self.items@[id as int]),
                None => res.is_none(),
            },
    {
        self.get(pos.x as usize, pos.y as usize)
    }

    /// The index `y * width + x` of a cell on the grid.
    pub fn to_index(&self, x: usize, y: usize) -> (res: Option<usize>)
        requires
            self.width * self.height <= usize::MAX,
        ensures
            res == self.index_of(x, y),
            res matches Some(id) ==> id < self.width * self.height,
    {
        if x >= self.width || y >= self.height {
            None
        } else {
            proof {
                lemma_index2_bounds(self.width as int, self.height as int, x as int, y as int);
            }
            Some((y * self.width) + x)
        }
    }

    /// The cell `(i % width, i / width)` of index `i`.
    pub fn to_xy(&self, i: usize) -> (res: (usize, usize))
        requires
            self.width > 0,
        ensures
            res.0 == i % self.width,
            res.1 == i / self.width,
    {
        let x = i % self.width;
        let y = i / self.width;
        (x, y)
    }

    /// Column `x`, from top to bottom.
    pub fn get_column(&self, x: usize) -> (v: Vec<T>)
        requires
            self.covers(),
            self.height > 0 ==> x < self.width,
        ensures
            v.len() == self.height,
            forall|y: int| 0 <= y < self.height ==> #[trigger] v@[y] == self.cell(x as int, y),
    {
        let mut v: Vec<T> = Vec::with_capacity(self.height);
        let mut y: usize = 0;
        while y < self.height
            invariant
                y <= self.height,
                self.covers(),
                self.height > 0 ==> x < self.width,
                v.len() == y,
                forall|j: int| 0 <= j < y ==> #[trigger] v@[j] == self.cell(x as int, j),
            decreases self.height - y,
        {
            proof {
                lemma_index2_bounds(self.width as int, self.height as int, x as int, y as int);
            }
            let item = self.get(x, y).unwrap();
            v.push(item);
            y = y + 1;
        }
        v
    }

    /// Row `y`, from left to right.
    pub fn get_row(&self, y: usize) -> (v: Vec<T>)
        requires
            self.covers(),
            self.width > 0 ==> y < self.height,
        ensures
            v.len() == self.width,
            forall|x: int| 0 <= x < self.width ==> #[trigger] v@[x] == self.cell(x, y as int),
    {
        let mut v: Vec<T> = Vec::with_capacity(self.width);
        let mut x: usize = 0;
        while x < self.width
            invariant
                x <= self.width,
                self.covers(),
                self.width > 0 ==> y < self.height,
                v.len() == x,
                forall|i: int| 0 <= i < x ==> #[trigger] v@[i] == self.cell(i, y as int),
            decreases self.width - x,
        {
            proof {
                lemma_index2_bounds(self.width as int, self.height as int, x as int, y as int);
            }
            let item = self.get(x, y).unwrap();
            v.push(item);
            x = x + 1;
        }
        v
    }

    /// All cells `(x, y)` of the grid, in the order of their indices: row by
    /// row, from left to right.
    pub fn iter_wh(&self) -> (cells: Vec<(usize, usize)>)
        requires
            self.width * self.height <= usize::MAX,
        ensures
            cells.len() == self.width * self.height,
            forall|i: int|
                0 <= i < cells.len() ==> #[trigger] cells@[i] == ((i % self.width as int) as usize, (i
                    / self.width as int) as usize),
    {
        let mut cells: Vec<(usize, usize)> = Vec::new();
        let mut y: usize = 0;
        while y < self.height
            invariant
                y <= self.height,
                self.width * self.height <= usize::MAX,
                cells.len() == y * self.width,
                forall|i: int|
                    0 <= i < cells.len() ==> #[trigger] cells@[i] == ((i % self.width as int) as usize, (i
                        / self.width as int) as usize),
            decreases self.height - y,
        {
            let mut x: usize = 0;
            while x < self.width
                invariant
                    x <= self.width,
                    y < self.height,
                    self.width * self.height <= usize::MAX,
                    cells.len() == y * self.width + x,
                    forall|i: int|
                        0 <= i < cells.len() ==> #[trigger] cells@[i] == ((i % self.width as int) as usize, (i
                            / self.width as int) as usize),
                decreases self.width - x,
            {
                proof {
                    lemma_index2_bounds(self.width as int, self.height as int, x as int, y as int);
                    vstd::arithmetic::div_mod::lemma_fundamental_div_mod_converse(
                        (y * self.width + x) as int,
                        self.width as int,
                        y as int,
                        x as int,
                    );
                }
                cells.push((x, y));
                x = x + 1;
            }
            proof {
                assert(y * self.width + self.width == (y + 1) * self.width) by (nonlinear_arith);
            }
            y = y + 1;
        }
        proof {
            assert(self.height * self.width == self.width * self.height) by (nonlinear_arith);
        }
        cells
    }
}

/// Distinct cells of a grid of width `w` have distinct indices.
pub proof fn lemma_index2_distinct(w: int, i: int, j: int, x: int, y: int)
    requires
        0 <= i < w,
        0 <= x < w,
        0 <= j,
        0 <= y,
        i != x || j != y,
    ensures
        j * w + i != y * w + x,
{
    if j * w + i == y * w + x {
        vstd::arithmetic::div_mod::lemma_fundamental_div_mod_converse(j * w + i, w, j, i);
        vstd::arithmetic::div_mod::lemma_fundamental_div_mod_converse(y * w + x, w, y, x);
    }
}

} // verus!

verus! {

/// `to_xy` undoes `to_index`: the cell `(x, y)` of a grid has index
/// `y * width + x`, and that index is taken apart into `(x, y)` again.
pub proof fn law_to_xy_inverts_to_index<T: Clone + Copy + Default>(grid: Grid2<T>, x: usize, y: usize)
    requires
        grid.width * grid.height <= usize::MAX,
        x < grid.width,
        y < grid.height,
    ensures
        grid.index_of(x, y) matches Some(i) && i < grid.width * grid.height && i % grid.width == x && i
            / grid.width == y,
{
    lemma_index2_bounds(grid.width as int, grid.height as int, x as int, y as int);
    vstd::arithmetic::div_mod::lemma_fundamental_div_mod_converse(
        (y * grid.width + x) as int,
        grid.width as int,
        y as int,
        x as int,
    );
}

/// `to_index` undoes `to_xy`: every index of the grid is the index of the
/// cell that `to_xy` gives for it.
pub proof fn law_to_index_inverts_to_xy<T: Clone + Copy + Default>(grid: Grid2<T>, i: usize)
    requires
        i < grid.width * grid.height,
    ensures
        i % grid.width < grid.width,
        i / grid.width < grid.height,
        grid.index_of((i % grid.width) as usize, (i / grid.width) as usize) == Some(i),
{
    let w = grid.width as int;
    if w == 0 {
        assert(grid.width * grid.height == 0) by (nonlinear_arith)
            requires
                grid.width == 0,
        ;
    }
    vstd::arithmetic::div_mod::lemma_fundamental_div_mod(i as int, w);
    let q = (i as int) / w;
    let r = (i as int) % w;
    assert(q < grid.height) by (nonlinear_arith)
        requires
            i as int == w * q + r,
            0 <= r,
            (i as int) < w * grid.height,
            w > 0,
    ;
    assert(q * w + r == i) by (nonlinear_arith)
        requires
            i as int == w * q + r,
    ;
}

/// What `set` writes, `get` reads back, and no other cell changes.
pub proof fn law_get_after_set<T: Clone + Copy + Default>(
    before: Grid2<T>,
    after: Grid2<T>,
    x: usize,
    y: usize,
    tile: T,
    i: usize,
    j: usize,
)
    requires
        before.covers(),
        x < before.width,
        y < before.height,
        i < before.width,
        j < before.height,
        after.width == before.width,
        after.height == before.height,
        after.items@ == before.items@.update((y * before.width + x) as int, tile),
    ensures
        after.covers(),
        after.cell(x as int, y as int) == tile,
        (i != x || j != y) ==> after.cell(i as int, j as int) == before.cell(i as int, j as int),
{
    lemma_index2_bounds(before.width as int, before.height as int, x as int, y as int);
    lemma_index2_bounds(before.width as int, before.height as int, i as int, j as int);
    if i != x || j != y {
        lemma_index2_distinct(before.width as int, i as int, j as int, x as int, y as int);
    }
}

} // verus!
