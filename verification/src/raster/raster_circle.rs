//! Circles on the grid: the cells of a circle's border and of its fill,
//! from the extent of the circle at each row (which the caller measures).
use vstd::prelude::*;
use crate::data::ivec::IVec2;

verus! {

/// The cell `(x, y)`.
pub open spec fn cell(x: int, y: int) -> IVec2 {
    IVec2 { x: x as i32, y: y as i32 }
}

/// Both `c - off` and `c + off` are `i32` values.
pub open spec fn fits(c: int, off: int) -> bool {
    i32::MIN <= c - off <= i32::MAX && i32::MIN <= c + off <= i32::MAX
}

/// The border cells of a circle around `(cx, cy)` at row offset `dy`,
/// where the circle reaches `dx` cells out: the eight mirror images of
/// `(dx, dy)`, without the ones that coincide on the axes (`dy == 0`) or on
/// the diagonals (`dx == dy`).
pub open spec fn edge_cells(cx: int, cy: int, dy: int, dx: int) -> Seq<IVec2> {
    let axis = if dy != 0 { seq![cell(cx - dx, cy - dy), cell(cx + dx, cy + dy)] } else { Seq::empty() };
    let near = axis + seq![cell(cx - dx, cy + dy), cell(cx + dx, cy - dy)];
    if dx == dy {
        near
    } else {
        let axis2 = if dy != 0 { seq![cell(cx - dy, cy + dx), cell(cx + dy, cy - dx)] } else { Seq::empty() };
        near + axis2 + seq![cell(cx - dy, cy - dx), cell(cx + dy, cy + dx)]
    }
}

/// The border cells of the first `n` rows, in order.
pub open spec fn edge_upto(center: IVec2, dxs: Seq<i32>, n: nat) -> Seq<IVec2>
    decreases n,
{
    if n == 0 {
        Seq::empty()
    } else {
        edge_upto(center, dxs, (n - 1) as nat) + edge_cells(center.x as int, center.y as int, n - 1, dxs[n - 1] as int)
    }
}

/// The eight cells `(cx ± a, cy ± b)` and `(cx ± b, cy ± a)` are all in
/// `cells`.
pub open spec fn holds_mirrors(cells: Seq<IVec2>, cx: int, cy: int, a: int, b: int) -> bool {
    &&& cells.contains(cell(cx + a, cy + b))
    &&& cells.contains(cell(cx - a, cy + b))
    &&& cells.contains(cell(cx + a, cy - b))
    &&& cells.contains(cell(cx - a, cy - b))
    &&& cells.contains(cell(cx + b, cy + a))
    &&& cells.contains(cell(cx - b, cy + a))
    &&& cells.contains(cell(cx + b, cy - a))
    &&& cells.contains(cell(cx - b, cy - a))
}

/// Each cell of one row of the border comes with its eight mirror images
/// around the center.
proof fn lemma_row_mirrors(cx: int, cy: int, dy: int, dx: int)
    requires
        0 <= dy,
        fits(cx, dx),
        fits(cy, dx),
        fits(cx, dy),
        fits(cy, dy),
    ensures
        forall|j: int| 0 <= j < edge_cells(cx, cy, dy, dx).len() ==> holds_mirrors(
            edge_cells(cx, cy, dy, dx),
            cx,
            cy,
            (#[trigger] edge_cells(cx, cy, dy, dx)[j]).x - cx,
            edge_cells(cx, cy, dy, dx)[j].y - cy,
        ),
{
    let r = edge_cells(cx, cy, dy, dx);
    if dy != 0 {
        assert(r[0] == cell(cx - dx, cy - dy));
        assert(r[1] == cell(cx + dx, cy + dy));
        assert(r[2] == cell(cx - dx, cy + dy));
        assert(r[3] == cell(cx + dx, cy - dy));
        if dx != dy {
            assert(r[4] == cell(cx - dy, cy + dx));
            assert(r[5] == cell(cx + dy, cy - dx));
            assert(r[6] == cell(cx - dy, cy - dx));
            assert(r[7] == cell(cx + dy, cy + dx));
        }
    } else {
        assert(r[0] == cell(cx - dx, cy + dy));
        assert(r[1] == cell(cx + dx, cy - dy));
        if dx != dy {
            assert(r[2] == cell(cx - dy, cy - dx));
            assert(r[3] == cell(cx + dy, cy + dx));
        }
    }
    assert(holds_mirrors(r, cx, cy, dx, dy));
    assert forall|j: int| 0 <= j < r.len() implies holds_mirrors(r, cx, cy, (#[trigger] r[j]).x - cx, r[j].y - cy) by {
        let a = r[j].x - cx;
        let b = r[j].y - cy;
        assert((a == dx || a == -dx) && (b == dy || b == -dy) || (a == dy || a == -dy) && (b == dx || b == -dx));
    }
}

/// The border is symmetric under the eight symmetries of the square around
/// the center: with each of its cells `(cx + a, cy + b)`, the cells
/// `(cx ± a, cy ± b)` and `(cx ± b, cy ± a)` are on it too.
pub proof fn law_border_symmetric(center: IVec2, dxs: Seq<i32>, n: nat)
    requires
        n <= dxs.len(),
        forall|k: int|
            0 <= k < dxs.len() ==> fits(center.x as int, #[trigger] dxs[k] as int) && fits(center.y as int, dxs[k] as int)
                && fits(center.x as int, k) && fits(center.y as int, k),
    ensures
        forall|j: int| 0 <= j < edge_upto(center, dxs, n).len() ==> holds_mirrors(
            edge_upto(center, dxs, n),
            center.x as int,
            center.y as int,
            (#[trigger] edge_upto(center, dxs, n)[j]).x - center.x,
            edge_upto(center, dxs, n)[j].y - center.y,
        ),
    decreases n,
{
    let (cx, cy) = (center.x as int, center.y as int);
    if n > 0 {
        let pre = edge_upto(center, dxs, (n - 1) as nat);
        let dy = n - 1;
        let dx = dxs[dy] as int;
        let row = edge_cells(cx, cy, dy, dx);
        let e = edge_upto(center, dxs, n);
        law_border_symmetric(center, dxs, (n - 1) as nat);
        lemma_row_mirrors(cx, cy, dy, dx);
        assert(e == pre + row);
        assert forall|x: IVec2| pre.contains(x) implies e.contains(x) by {
            let i = choose|i: int| 0 <= i < pre.len() && pre[i] == x;
            assert(e[i] == x);
        }
        assert forall|x: IVec2| row.contains(x) implies e.contains(x) by {
            let i = choose|i: int| 0 <= i < row.len() && row[i] == x;
            assert(e[pre.len() + i] == x);
        }
        assert forall|j: int| 0 <= j < e.len() implies holds_mirrors(e, cx, cy, (#[trigger] e[j]).x - cx, e[j].y - cy) by {
            let a = e[j].x - cx;
            let b = e[j].y - cy;
            if j < pre.len() {
                assert(pre[j] == e[j]);
                assert(holds_mirrors(pre, cx, cy, a, b));
            } else {
                let i = j - pre.len();
                assert(row[i] == e[j]);
                assert(holds_mirrors(row, cx, cy, a, b));
            }
        }
    }
}

/// The border of the circle around `center` that reaches `dxs[dy]` cells
/// out at row offset `dy`, for the rows of one octant (`dy` up to the
/// diagonal); the other seven octants are mirror images.
pub fn grid_edge_from_reach(center: IVec2, dxs: &Vec<i32>) -> (border: Vec<IVec2>)
    requires
        dxs.len() <= i32::MAX,
        forall|k: int|
            0 <= k < dxs.len() ==> fits(center.x as int, #[trigger] dxs@[k] as int) && fits(center.y as int, dxs@[k] as int)
                && fits(center.x as int, k) && fits(center.y as int, k),
    ensures
        border@ == edge_upto(center, dxs@, dxs.len() as nat),
        forall|j: int| 0 <= j < border.len() ==> holds_mirrors(
            border@,
            center.x as int,
            center.y as int,
            (#[trigger] border@[j]).x - center.x,
            border@[j].y - center.y,
        ),
{
    proof {
        law_border_symmetric(center, dxs@, dxs.len() as nat);
    }
    let mut border: Vec<IVec2> = Vec::new();
    let mut k: usize = 0;
    while k < dxs.len()
        invariant
            dxs.len() <= i32::MAX,
            forall|j: int|
                0 <= j < dxs.len() ==> fits(center.x as int, #[trigger] dxs@[j] as int) && fits(center.y as int, dxs@[j] as int)
                    && fits(center.x as int, j) && fits(center.y as int, j),
            k <= dxs.len(),
            border@ == edge_upto(center, dxs@, k as nat),
        decreases dxs.len() - k,
    {
        let ghost before = border@;
        let dy = k as i32;
        let dx = dxs[k];
        proof {
            assert(fits(center.x as int, dxs@[k as int] as int));
            assert(fits(center.x as int, k as int));
        }
        let (cx, cy) = (center.x, center.y);
        if dy != 0 {
            border.push(IVec2::new(cx - dx, cy - dy));
            border.push(IVec2::new(cx + dx, cy + dy));
        }
        border.push(IVec2::new(cx - dx, cy + dy));
        border.push(IVec2::new(cx + dx, cy - dy));
        if dx != dy {
            if dy != 0 {
                border.push(IVec2::new(cx - dy, cy + dx));
                border.push(IVec2::new(cx + dy, cy - dx));
            }
            border.push(IVec2::new(cx - dy, cy - dx));
            border.push(IVec2::new(cx + dy, cy + dx));
        }
        proof {
            assert(border@ =~= before + edge_cells(cx as int, cy as int, k as int, dx as int));
        }
        k = k + 1;
    }
    border
}

/// The cells of row `y`, from `left` up to `right`.
pub open spec fn span_cells(y: int, left: int, right: int) -> Seq<IVec2> {
    Seq::new(if right >= left { (right - left + 1) as nat } else { 0 }, |i: int| cell(left + i, y))
}

/// The fill cells of the first `n` rows, in order.
pub open spec fn fill_upto(cy: int, spans: Seq<(i32, i32)>, n: nat) -> Seq<IVec2>
    decreases n,
{
    if n == 0 {
        Seq::empty()
    } else {
        fill_upto(cy, spans, (n - 1) as nat) + span_cells(cy + n - 1, spans[n - 1].0 as int, spans[n - 1].1 as int)
    }
}

/// The fill of a circle around row `cy`, row offset `dy` covering the
/// cells from `spans[dy].0` up to `spans[dy].1`.
pub fn grid_fill_from_spans(cy: i32, spans: &Vec<(i32, i32)>) -> (fill: Vec<IVec2>)
    requires
        spans.len() <= i32::MAX,
        cy + spans.len() <= i32::MAX,
    ensures
        fill@ == fill_upto(cy as int, spans@, spans.len() as nat),
{
    let mut fill: Vec<IVec2> = Vec::new();
    let mut k: usize = 0;
    while k < spans.len()
        invariant
            spans.len() <= i32::MAX,
            cy + spans.len() <= i32::MAX,
            k <= spans.len(),
            fill@ == fill_upto(cy as int, spans@, k as nat),
        decreases spans.len() - k,
    {
        let ghost before = fill@;
        let (left, right) = spans[k];
        let y = cy + k as i32;
        let mut x = left;
        if left <= right {
            loop
                invariant_except_break
                    left <= x <= right,
                    fill@ == before + span_cells(y as int, left as int, x as int - 1),
                invariant
                    y == cy + k,
                ensures
                    fill@ == before + span_cells(y as int, left as int, right as int),
                decreases right - x,
            {
                fill.push(IVec2::new(x, y));
                proof {
                    assert(fill@ =~= before + span_cells(y as int, left as int, x as int));
                }
                if x == right {
                    break;
                }
                x = x + 1;
            }
        }
        proof {
            assert(fill@ =~= before + span_cells(cy + k, spans@[k as int].0 as int, spans@[k as int].1 as int));
        }
        k = k + 1;
    }
    fill
}

} // verus!
