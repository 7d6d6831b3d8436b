//! The index logic of the mesh constructors: which vertices form which
//! triangles. Where the vertices go is the constructors' float work.
use vstd::prelude::*;
use crate::data::grid2::Grid2;
use crate::solid::mesh::{edge_occurrences, iter_naked_edges, naked, neighborized};
use std::collections::HashMap;

verus! {

/// The triangles that the weave laces at cell `i` of a grid `w` wide whose
/// cells are filled where `filled` holds: the cell, its left neighbour `b`,
/// the one above `c` and the one above left `d` form two triangles where
/// all four are filled, and one triangle where three are.
pub open spec fn weave_cell(filled: Seq<bool>, w: int, i: int) -> Seq<usize> {
    if i % w == 0 || i / w == 0 {
        Seq::empty()
    } else {
        let (ia, ib, ic, id) = (i as usize, (i - 1) as usize, (i - w) as usize, (i - w - 1) as usize);
        let (a, b, c, d) = (filled[i], filled[i - 1], filled[i - w], filled[i - w - 1]);
        if a && b && c && d {
            seq![ia, id, ib, ia, ic, id]
        } else if a && b && c {
            seq![ia, ic, ib]
        } else if a && b && d {
            seq![ia, id, ib]
        } else if a && c && d {
            seq![ia, ic, id]
        } else if b && c && d {
            seq![ib, ic, id]
        } else {
            Seq::empty()
        }
    }
}

/// The triangles that the weave laces at the first `n` cells, in order.
pub open spec fn weave_upto(filled: Seq<bool>, w: int, n: nat) -> Seq<usize>
    decreases n,
{
    if n == 0 {
        Seq::empty()
    } else {
        weave_upto(filled, w, (n - 1) as nat) + weave_cell(filled, w, n - 1)
    }
}

/// `x` is one of the four corners of cell `i` of a grid `w` wide: the cell
/// itself, the one to its left, the one above, or the one above left.
pub open spec fn corner_of(w: int, i: int, x: int) -> bool {
    x == i || x == i - 1 || x == i - w || x == i - w - 1
}

/// Triangle `q` of `tri` is made of three distinct filled corners of cell
/// `i`.
pub open spec fn triangle_in_cell(tri: Seq<usize>, q: int, filled: Seq<bool>, w: int, i: int) -> bool {
    let (x, y, z) = (tri[3 * q] as int, tri[3 * q + 1] as int, tri[3 * q + 2] as int);
    &&& 0 <= q
    &&& 3 * q + 2 < tri.len()
    &&& corner_of(w, i, x) && corner_of(w, i, y) && corner_of(w, i, z)
    &&& x != y && y != z && x != z
    &&& filled[x] && filled[y] && filled[z]
}

proof fn lemma_weave_prefix(filled: Seq<bool>, w: int, m: nat, n: nat)
    requires
        m <= n,
    ensures
        weave_upto(filled, w, m).len() <= weave_upto(filled, w, n).len(),
        weave_upto(filled, w, n).len() % 3 == 0,
        forall|j: int| 0 <= j < weave_upto(filled, w, m).len() ==> #[trigger] weave_upto(filled, w, n)[j] == weave_upto(
            filled,
            w,
            m,
        )[j],
    decreases n,
{
    if n > 0 {
        let prev = weave_upto(filled, w, (n - 1) as nat);
        let c = weave_cell(filled, w, n - 1);
        assert(c.len() % 3 == 0);
        if m < n {
            lemma_weave_prefix(filled, w, m, (n - 1) as nat);
            assert forall|j: int| 0 <= j < weave_upto(filled, w, m).len() implies #[trigger] weave_upto(filled, w, n)[j]
                == weave_upto(filled, w, m)[j] by {
                assert(weave_upto(filled, w, n)[j] == prev[j]);
            }
        } else {
            lemma_weave_prefix(filled, w, (n - 1) as nat, (n - 1) as nat);
        }
    }
}

/// The holed weave laces every cell that has at least three filled corners
/// (a cell off the first row and column): some triangle of the list is made
/// of three distinct filled corners of it. Where its own corner is missing
/// and the other three are filled, that triangle is `(i - 1, i - w, i - w - 1)`.
pub proof fn law_weave_laces_cells(filled: Seq<bool>, w: int, n: nat, i: int)
    requires
        w > 0,
        n <= filled.len(),
        filled.len() <= usize::MAX,
        0 <= i < n,
        i % w != 0,
        i / w != 0,
        (if filled[i] { 1int } else { 0 }) + (if filled[i - 1] { 1int } else { 0 }) + (if filled[i - w] { 1int } else { 0 })
            + (if filled[i - w - 1] { 1int } else { 0 }) >= 3,
    ensures
        exists|q: int| triangle_in_cell(weave_upto(filled, w, n), q, filled, w, i),
        !filled[i] ==> exists|q: int|
            0 <= q && 3 * q + 2 < weave_upto(filled, w, n).len() && #[trigger] weave_upto(filled, w, n)[3 * q] == i - 1
                && weave_upto(filled, w, n)[3 * q + 1] == i - w && weave_upto(filled, w, n)[3 * q + 2] == i - w - 1,
{
    vstd::arithmetic::div_mod::lemma_fundamental_div_mod(i, w);
    assert(i >= w + 1) by (nonlinear_arith)
        requires
            i == w * (i / w) + i % w,
            i / w >= 1,
            i % w >= 1,
            w > 0,
    ;
    let before = weave_upto(filled, w, i as nat);
    let upto = weave_upto(filled, w, (i + 1) as nat);
    let all = weave_upto(filled, w, n);
    let c = weave_cell(filled, w, i);
    lemma_weave_prefix(filled, w, i as nat, i as nat);
    lemma_weave_prefix(filled, w, (i + 1) as nat, n);
    assert(upto == before + c);
    let q: int = (before.len() / 3) as int;
    assert(3 * q == before.len());
    assert(c.len() >= 3);
    assert(all[3 * q] == c[0] && all[3 * q + 1] == c[1] && all[3 * q + 2] == c[2]) by {
        assert(upto[3 * q] == c[0]);
        assert(upto[3 * q + 1] == c[1]);
        assert(upto[3 * q + 2] == c[2]);
    }
    let (fa, fb, fc, fd) = (filled[i], filled[i - 1], filled[i - w], filled[i - w - 1]);
    if fa && fb && fc && fd {
        assert(c[0] as int == i && c[1] as int == i - w - 1 && c[2] as int == i - 1);
    } else if fa && fb && fc {
        assert(c[0] as int == i && c[1] as int == i - w && c[2] as int == i - 1);
    } else if fa && fb && fd {
        assert(c[0] as int == i && c[1] as int == i - w - 1 && c[2] as int == i - 1);
    } else if fa && fc && fd {
        assert(c[0] as int == i && c[1] as int == i - w && c[2] as int == i - w - 1);
    } else {
        assert(c[0] as int == i - 1 && c[1] as int == i - w && c[2] as int == i - w - 1);
    }
    assert(triangle_in_cell(all, q, filled, w, i));
}

/// Triangle `q` of `tri` is made of three distinct filled corners of one
/// of the first `n` cells, a cell off the first row and column.
pub open spec fn from_some_cell(tri: Seq<usize>, q: int, filled: Seq<bool>, w: int, n: nat) -> bool {
    exists|i: int| 0 <= i < n && i % w != 0 && i / w != 0 && #[trigger] triangle_in_cell(tri, q, filled, w, i)
}

proof fn lemma_weave_cell_triangles(filled: Seq<bool>, w: int, i: int)
    requires
        w > 0,
        0 <= i < filled.len(),
        filled.len() <= usize::MAX,
    ensures
        weave_cell(filled, w, i).len() % 3 == 0,
        weave_cell(filled, w, i).len() > 0 ==> i % w != 0 && i / w != 0,
        forall|q: int| 0 <= q < weave_cell(filled, w, i).len() / 3 ==> #[trigger] triangle_in_cell(
            weave_cell(filled, w, i),
            q,
            filled,
            w,
            i,
        ),
{
    let c = weave_cell(filled, w, i);
    if i % w != 0 && i / w != 0 {
        vstd::arithmetic::div_mod::lemma_fundamental_div_mod(i, w);
        assert(i >= w + 1) by (nonlinear_arith)
            requires
                i == w * (i / w) + i % w,
                i / w >= 1,
                i % w >= 1,
                w > 0,
        ;
        let (fa, fb, fc, fd) = (filled[i], filled[i - 1], filled[i - w], filled[i - w - 1]);
        if fa && fb && fc && fd {
            assert(triangle_in_cell(c, 0, filled, w, i));
            assert(triangle_in_cell(c, 1, filled, w, i));
        } else if fa && fb && fc {
            assert(triangle_in_cell(c, 0, filled, w, i));
        } else if fa && fb && fd {
            assert(triangle_in_cell(c, 0, filled, w, i));
        } else if fa && fc && fd {
            assert(triangle_in_cell(c, 0, filled, w, i));
        } else if fb && fc && fd {
            assert(triangle_in_cell(c, 0, filled, w, i));
        }
    }
}

/// Every triangle of the holed weave is made of three distinct filled
/// corners of one cell off the first row and column: no triangle reaches a
/// missing vertex or spans more than one cell.
pub proof fn law_weave_triangles_sound(filled: Seq<bool>, w: int, n: nat)
    requires
        w > 0,
        n <= filled.len(),
        filled.len() <= usize::MAX,
    ensures
        weave_upto(filled, w, n).len() % 3 == 0,
        forall|q: int| 0 <= q < weave_upto(filled, w, n).len() / 3 ==> #[trigger] from_some_cell(
            weave_upto(filled, w, n),
            q,
            filled,
            w,
            n,
        ),
    decreases n,
{
    if n > 0 {
        law_weave_triangles_sound(filled, w, (n - 1) as nat);
        lemma_weave_cell_triangles(filled, w, n - 1);
        let pre = weave_upto(filled, w, (n - 1) as nat);
        let c = weave_cell(filled, w, n - 1);
        let t = weave_upto(filled, w, n);
        assert(t == pre + c);
        let q0: int = (pre.len() / 3) as int;
        assert forall|q: int| 0 <= q < t.len() / 3 implies #[trigger] from_some_cell(t, q, filled, w, n) by {
            if q < q0 {
                assert(from_some_cell(pre, q, filled, w, (n - 1) as nat));
                let i = choose|i: int| 0 <= i < n - 1 && i % w != 0 && i / w != 0 && #[trigger] triangle_in_cell(pre, q, filled, w, i);
                assert(t[3 * q] == pre[3 * q] && t[3 * q + 1] == pre[3 * q + 1] && t[3 * q + 2] == pre[3 * q + 2]);
                assert(triangle_in_cell(t, q, filled, w, i));
            } else {
                let r = q - q0;
                assert(triangle_in_cell(c, r, filled, w, n - 1));
                assert(t[3 * q] == c[3 * r] && t[3 * q + 1] == c[3 * r + 1] && t[3 * q + 2] == c[3 * r + 2]);
                assert(triangle_in_cell(t, q, filled, w, n - 1));
            }
        }
    }
}

/// The triangle index list of a holed weave: a grid of vertices, some of
/// them missing (where `filled` is false), laced cell by cell in index
/// order. Each missing vertex still has its index.
pub fn holed_weave_tri(filled: &Grid2<bool>) -> (tri: Vec<usize>)
    requires
        filled.wf(),
    ensures
        tri@ == weave_upto(filled.items@, filled.width as int, filled.items.len() as nat),
        forall|i: int|
            0 <= i < filled.items.len() && i % (filled.width as int) != 0 && i / (filled.width as int) != 0 && (if filled.items@[i] {
                1int
            } else {
                0
            }) + (if filled.items@[i - 1] { 1int } else { 0 }) + (if filled.items@[i - filled.width] { 1int } else { 0 }) + (
            if #[trigger] filled.items@[i - filled.width - 1] { 1int } else { 0 }) >= 3 ==> exists|q: int|
                triangle_in_cell(tri@, q, filled.items@, filled.width as int, i),
        forall|q: int| 0 <= q < tri.len() / 3 ==> #[trigger] from_some_cell(
            tri@,
            q,
            filled.items@,
            filled.width as int,
            filled.items.len() as nat,
        ),
        tri.len() % 3 == 0,
        forall|k: int| 0 <= k < tri.len() ==> #[trigger] tri@[k] < filled.items.len() && filled.items@[tri@[k] as int],
{
    proof {
        let w = filled.width as int;
        assert forall|i: int|
            0 <= i < filled.items.len() && i % w != 0 && i / w != 0 && (if filled.items@[i] { 1int } else { 0 }) + (
            if filled.items@[i - 1] { 1int } else { 0 }) + (if filled.items@[i - w] { 1int } else { 0 }) + (
            if #[trigger] filled.items@[i - w - 1] { 1int } else { 0 }) >= 3 implies exists|q: int|
            triangle_in_cell(
                weave_upto(filled.items@, w, filled.items.len() as nat),
                q,
                filled.items@,
                w,
                i,
            ) by {
            if w == 0 {
                assert(filled.items.len() == 0 * filled.height);
            }
            law_weave_laces_cells(filled.items@, w, filled.items.len() as nat, i);
        }
        if w > 0 {
            law_weave_triangles_sound(filled.items@, w, filled.items.len() as nat);
        } else {
            assert(filled.items.len() == 0 * filled.height);
        }
    }
    let n = filled.items.len();
    let mut tri: Vec<usize> = Vec::new();
    let mut i: usize = 0;
    while i < n
        invariant
            filled.wf(),
            n == filled.items.len(),
            i <= n,
            tri@ == weave_upto(filled.items@, filled.width as int, i as nat),
            tri.len() % 3 == 0,
            forall|k: int| 0 <= k < tri.len() ==> #[trigger] tri@[k] < n && filled.items@[tri@[k] as int],
        decreases n - i,
    {
        proof {
            if filled.width == 0 {
                assert(filled.items.len() == 0 * filled.height);
            }
        }
        let ghost before = tri@;
        let (x, y) = filled.to_xy(i);
        if x != 0 && y != 0 {
            let w = filled.width;
            proof {
                assert(i == y * w + x) by (nonlinear_arith)
                    requires
                        w > 0,
                        x == i % w,
                        y == i / w,
                ;
                assert(w <= y * w) by (nonlinear_arith)
                    requires
                        y >= 1,
                        w > 0,
                ;
            }
            let ia = i;
            let ib = i - 1;
            let ic = i - w;
            let id = i - w - 1;
            let a = filled.get_unsafe(ia);
            let b = filled.get_unsafe(ib);
            let c = filled.get_unsafe(ic);
            let d = filled.get_unsafe(id);
            if a && b && c && d {
                tri.push(ia);
                tri.push(id);
                tri.push(ib);
                tri.push(ia);
                tri.push(ic);
                tri.push(id);
            } else if a && b && c {
                tri.push(ia);
                tri.push(ic);
                tri.push(ib);
            } else if a && b && d {
                tri.push(ia);
                tri.push(id);
                tri.push(ib);
            } else if a && c && d {
                tri.push(ia);
                tri.push(ic);
                tri.push(id);
            } else if b && c && d {
                tri.push(ib);
                tri.push(ic);
                tri.push(id);
            }
        }
        proof {
            assert(tri@ =~= before + weave_cell(filled.items@, filled.width as int, i as int));
        }
        i = i + 1;
    }
    tri
}

/// The number of vertices of the rows of a hexagonal grid that come before
/// the row of `s` vertices, the first row having `mc` vertices and each
/// next one one more.
pub open spec fn row_start(mc: nat, s: nat) -> nat
    decreases s,
{
    if s <= mc {
        0
    } else {
        row_start(mc, (s - 1) as nat) + (s - 1) as nat
    }
}

/// The number of vertices of a hexagonal grid with `d` divisions: rows of
/// `2 + d` up to `3 + 2d` vertices, then back down to `2 + d`.
pub open spec fn hexagrid_vert_count(d: nat) -> nat {
    row_start(2 + d, 4 + 2 * d) + row_start(2 + d, 3 + 2 * d)
}

/// The row lengths of a hexagonal grid with `d` divisions, bottom to top.
pub open spec fn hexagrid_row_lengths(d: nat) -> Seq<usize> {
    Seq::new(2 * d + 3, |i: int| (if i < d + 2 { 2 + d + i } else { 4 + 3 * d - i }) as usize)
}

/// The triangles at vertex `i`, step `step` of a row of `steps` vertices
/// (the next row has one more): two, the second one only at the row's last
/// step; each comes with its mirror through the grid's center, `last`
/// being the highest vertex index.
pub open spec fn hex_step(i: int, steps: int, step: int, last: int) -> Seq<usize> {
    let (a, b, c, d) = (i, i + 1, i + steps, i + steps + 1);
    if step == steps - 1 {
        seq![a as usize, d as usize, c as usize, (last - a) as usize, (last - d) as usize, (last - c) as usize]
    } else {
        seq![
            a as usize, b as usize, d as usize, (last - a) as usize, (last - b) as usize, (last - d) as usize,
            a as usize, d as usize, c as usize, (last - a) as usize, (last - d) as usize, (last - c) as usize,
        ]
    }
}

/// The triangles of the first `k` steps of the row of `steps` vertices that
/// starts at vertex `start`.
pub open spec fn hex_row(start: int, steps: int, k: nat, last: int) -> Seq<usize>
    decreases k,
{
    if k == 0 {
        Seq::empty()
    } else {
        hex_row(start, steps, (k - 1) as nat, last) + hex_step(start + k - 1, steps, k - 1, last)
    }
}

/// The triangles of the rows of `mc` up to `s - 1` vertices.
pub open spec fn hex_rows(mc: nat, s: nat, last: int) -> Seq<usize>
    decreases s,
{
    if s <= mc {
        Seq::empty()
    } else {
        hex_rows(mc, (s - 1) as nat, last) + hex_row(row_start(mc, (s - 1) as nat) as int, s - 1, (s - 1) as nat, last)
    }
}

proof fn lemma_row_start_mono(mc: nat, s1: nat, s2: nat)
    requires
        mc <= s1 <= s2,
    ensures
        row_start(mc, s1) + (s2 - s1) * mc <= row_start(mc, s2),
    decreases s2 - s1,
{
    if s1 < s2 {
        let k = (s2 - 1 - s1) as nat;
        lemma_row_start_mono(mc, s1, (s2 - 1) as nat);
        assert(row_start(mc, s2) == row_start(mc, (s2 - 1) as nat) + (s2 - 1) as nat);
        assert((k + 1) * mc == k * mc + mc) by (nonlinear_arith);
        assert(s2 - s1 == k + 1);
        assert((s2 - s1) * mc == (k + 1) * mc);
    } else {
        assert((s2 - s1) * mc == 0) by (nonlinear_arith)
            requires
                s2 - s1 == 0,
        ;
    }
}

/// The row lengths of a hexagonal grid with `divisions` divisions, bottom
/// to top: `2 + divisions` up to `3 + 2 * divisions`, then back down.
pub fn hexagrid_rows(divisions: usize) -> (rows: Vec<usize>)
    requires
        hexagrid_vert_count(divisions as nat) <= usize::MAX,
    ensures
        rows@ == hexagrid_row_lengths(divisions as nat),
{
    let ghost d = divisions as nat;
    proof {
        lemma_row_start_mono(2 + d, 2 + d, 4 + 2 * d);
        assert((2 + d) * (2 + d) >= 4 + 2 * d) by (nonlinear_arith);
    }
    let min_count = 2 + divisions;
    let max_count = min_count + 2 + divisions;
    let mut rows: Vec<usize> = Vec::new();
    let mut s = min_count;
    while s < max_count
        invariant
            min_count == 2 + d,
            max_count == 4 + 2 * d,
            min_count <= s <= max_count,
            rows@ == hexagrid_row_lengths(d).take(s - min_count),
        decreases max_count - s,
    {
        rows.push(s);
        proof {
            assert(rows@ =~= hexagrid_row_lengths(d).take(s + 1 - min_count));
        }
        s = s + 1;
    }
    let mut s = max_count - 1;
    while s > min_count
        invariant
            min_count == 2 + d,
            max_count == 4 + 2 * d,
            min_count <= s <= max_count - 1,
            rows@ == hexagrid_row_lengths(d).take(2 + d + (max_count - 1 - s)),
        decreases s,
    {
        s = s - 1;
        rows.push(s);
        proof {
            assert(rows@ =~= hexagrid_row_lengths(d).take(2 + d + (max_count - 1 - s)));
        }
    }
    proof {
        assert(rows@ =~= hexagrid_row_lengths(d));
    }
    rows
}

/// The triangle index list of a hexagonal grid with `divisions`
/// divisions, its vertices numbered row by row from the bottom: the lower
/// half of the rows is laced into triangles, each with its mirror through
/// the center.
#[verifier::rlimit(40)]
pub fn hexagrid_tri(divisions: usize) -> (tri: Vec<usize>)
    requires
        hexagrid_vert_count(divisions as nat) <= usize::MAX,
    ensures
        tri@ == hex_rows(
            2 + divisions as nat,
            3 + 2 * divisions as nat,
            hexagrid_vert_count(divisions as nat) - 1,
        ),
        tri.len() % 3 == 0,
        forall|k: int| 0 <= k < tri.len() ==> #[trigger] tri@[k] < hexagrid_vert_count(divisions as nat),
{
    let ghost d = divisions as nat;
    let ghost mc = 2 + d;
    let ghost count = hexagrid_vert_count(d);
    proof {
        lemma_row_start_mono(mc, mc, 4 + 2 * d);
        assert((2 + d) * (2 + d) >= 4 + 2 * d) by (nonlinear_arith);
    }
    let min_count = 2 + divisions;
    let max_count = min_count + 2 + divisions;
    let mut total: usize = 0;
    let mut s = min_count;
    while s < max_count
        invariant
            mc == 2 + d,
            min_count == mc,
            max_count == 4 + 2 * d,
            count == hexagrid_vert_count(d),
            count <= usize::MAX,
            min_count <= s <= max_count,
            total == row_start(mc, s as nat),
        decreases max_count - s,
    {
        proof {
            lemma_row_start_mono(mc, (s + 1) as nat, max_count as nat);
            assert(row_start(mc, (s + 1) as nat) == row_start(mc, s as nat) + s);
        }
        total = total + s;
        s = s + 1;
    }
    let mut s = min_count;
    while s < max_count - 1
        invariant
            mc == 2 + d,
            min_count == mc,
            max_count == 4 + 2 * d,
            count == hexagrid_vert_count(d),
            count <= usize::MAX,
            min_count <= s <= max_count - 1,
            total == row_start(mc, max_count as nat) + row_start(mc, s as nat),
        decreases max_count - 1 - s,
    {
        proof {
            lemma_row_start_mono(mc, (s + 1) as nat, (max_count - 1) as nat);
            assert(row_start(mc, (s + 1) as nat) == row_start(mc, s as nat) + s);
        }
        total = total + s;
        s = s + 1;
    }
    proof {
        lemma_row_start_mono(mc, mc, (max_count - 1) as nat);
        assert(total >= 1);
    }
    let last = total - 1;
    let mut tri: Vec<usize> = Vec::new();
    let mut i: usize = 0;
    let mut steps = min_count;
    while steps < max_count - 1
        invariant
            mc == 2 + d,
            min_count == mc,
            max_count == 4 + 2 * d,
            count == hexagrid_vert_count(d),
            last == count - 1,
            row_start(mc, max_count as nat) <= count,
            min_count <= steps <= max_count - 1,
            i == row_start(mc, steps as nat),
            tri@ == hex_rows(mc, steps as nat, last as int),
            tri.len() % 3 == 0,
            forall|k: int| 0 <= k < tri.len() ==> #[trigger] tri@[k] <= last,
        decreases max_count - 1 - steps,
    {
        let ghost row_tris = tri@;
        let mut step: usize = 0;
        while step < steps
            invariant
                mc == 2 + d,
                min_count == mc,
                max_count == 4 + 2 * d,
                last == count - 1,
                row_start(mc, max_count as nat) <= count,
                min_count <= steps < max_count - 1,
                step <= steps,
                i == row_start(mc, steps as nat) + step,
                tri@ == row_tris + hex_row(row_start(mc, steps as nat) as int, steps as int, step as nat, last as int),
                tri.len() % 3 == 0,
                forall|k: int| 0 <= k < tri.len() ==> #[trigger] tri@[k] <= last,
            decreases steps - step,
        {
            proof {
                lemma_row_start_mono(mc, (steps + 2) as nat, max_count as nat);
                assert(row_start(mc, (steps + 1) as nat) == row_start(mc, steps as nat) + steps);
                assert(row_start(mc, (steps + 2) as nat) == row_start(mc, (steps + 1) as nat) + steps + 1);
            }
            let a = i;
            let b = i + 1;
            let c = i + steps;
            let dd = i + steps + 1;
            let aa = last - a;
            let bb = last - b;
            let cc = last - c;
            let ddd = last - dd;
            if step > steps - 2 {
                tri.push(a);
                tri.push(dd);
                tri.push(c);
                tri.push(aa);
                tri.push(ddd);
                tri.push(cc);
            } else {
                tri.push(a);
                tri.push(b);
                tri.push(dd);
                tri.push(aa);
                tri.push(bb);
                tri.push(ddd);
                tri.push(a);
                tri.push(dd);
                tri.push(c);
                tri.push(aa);
                tri.push(ddd);
                tri.push(cc);
            }
            proof {
                assert(tri@ =~= row_tris + hex_row(
                    row_start(mc, steps as nat) as int,
                    steps as int,
                    (step + 1) as nat,
                    last as int,
                ));
            }
            i = i + 1;
            step = step + 1;
        }
        proof {
            assert(hex_rows(mc, (steps + 1) as nat, last as int) == hex_rows(mc, steps as nat, last as int) + hex_row(
                row_start(mc, steps as nat) as int,
                steps as int,
                steps as nat,
                last as int,
            ));
        }
        steps = steps + 1;
    }
    tri
}

/// Where a vertex lies, seen from a cutting plane.
#[derive(Debug, Clone, Copy, PartialEq, Eq, Structural)]
pub enum Side {
    Left,
    Right,
    OnTop,
}

/// What a split does with a triangle. `rot` names the vertex order
/// `(rot, rot + 1, rot + 2)`, counted modulo 3, in which the triangle is cut,
/// which keeps its orientation.
#[derive(Debug, Clone, Copy, PartialEq, Eq, Structural)]
pub enum TriSplit {
    /// The whole triangle goes to the left.
    Left,
    /// The whole triangle goes to the right.
    Right,
    /// Two vertices lie on side `major`, the third (the last in the order)
    /// on the other side: the cut crosses the two edges to the third.
    Asym { major: Side, rot: usize },
    /// One vertex lies on the plane (the last in the order), the first on
    /// side `top`, the second on the other side: the cut runs through the
    /// vertex on the plane.
    Perfect { top: Side, rot: usize },
}

/// The side of vertex `i` (counted modulo 3) of a triangle.
pub open spec fn side_at(sides: (Side, Side, Side), i: int) -> Side {
    let j = i % 3;
    if j == 0 {
        sides.0
    } else if j == 1 {
        sides.1
    } else {
        sides.2
    }
}

/// The other side of `s`, for `Left` and `Right`.
pub open spec fn opposite(s: Side) -> Side {
    match s {
        Side::Left => Side::Right,
        Side::Right => Side::Left,
        Side::OnTop => Side::OnTop,
    }
}

/// How a split treats a triangle whose vertices lie on `sides`: a triangle
/// with no vertex on the right goes left whole, one with no vertex on the
/// left (and one on the right) goes right whole; otherwise it is cut.
pub fn split_case(sides: (Side, Side, Side)) -> (res: TriSplit)
    ensures
        res == TriSplit::Left <==> sides.0 != Side::Right && sides.1 != Side::Right && sides.2 != Side::Right,
        res == TriSplit::Right <==> (sides.0 != Side::Left && sides.1 != Side::Left && sides.2 != Side::Left) && (
        sides.0 == Side::Right || sides.1 == Side::Right || sides.2 == Side::Right),
        res matches TriSplit::Asym { major, rot } ==> {
            &&& rot < 3
            &&& major != Side::OnTop
            &&& side_at(sides, rot as int) == major
            &&& side_at(sides, rot + 1) == major
            &&& side_at(sides, rot + 2) == opposite(major)
        },
        res matches TriSplit::Perfect { top, rot } ==> {
            &&& rot < 3
            &&& top != Side::OnTop
            &&& side_at(sides, rot as int) == top
            &&& side_at(sides, rot + 1) == opposite(top)
            &&& side_at(sides, rot + 2) == Side::OnTop
        },
{
    match sides {
        (Side::Left | Side::OnTop, Side::Left | Side::OnTop, Side::Left | Side::OnTop) => TriSplit::Left,
        (Side::Right | Side::OnTop, Side::Right | Side::OnTop, Side::Right | Side::OnTop) => TriSplit::Right,
        (Side::Right, Side::Left, Side::Left) => TriSplit::Asym { major: Side::Left, rot: 1 },
        (Side::Left, Side::Right, Side::Right) => TriSplit::Asym { major: Side::Right, rot: 1 },
        (Side::Left, Side::Right, Side::Left) => TriSplit::Asym { major: Side::Left, rot: 2 },
        (Side::Right, Side::Left, Side::Right) => TriSplit::Asym { major: Side::Right, rot: 2 },
        (Side::Left, Side::Left, Side::Right) => TriSplit::Asym { major: Side::Left, rot: 0 },
        (Side::Right, Side::Right, Side::Left) => TriSplit::Asym { major: Side::Right, rot: 0 },
        (Side::OnTop, Side::Left, Side::Right) => TriSplit::Perfect { top: Side::Left, rot: 1 },
        (Side::OnTop, Side::Right, Side::Left) => TriSplit::Perfect { top: Side::Right, rot: 1 },
        (Side::Right, Side::OnTop, Side::Left) => TriSplit::Perfect { top: Side::Left, rot: 2 },
        (Side::Left, Side::OnTop, Side::Right) => TriSplit::Perfect { top: Side::Right, rot: 2 },
        (Side::Left, Side::Right, Side::OnTop) => TriSplit::Perfect { top: Side::Left, rot: 0 },
        (Side::Right, Side::Left, Side::OnTop) => TriSplit::Perfect { top: Side::Right, rot: 0 },
    }
}

/// The number of vertices of the first `n` meshes of `parts` (each a vertex
/// count and a triangle index list).
pub open spec fn vert_offset(parts: Seq<(usize, Vec<usize>)>, n: nat) -> nat
    decreases n,
{
    if n == 0 {
        0
    } else {
        vert_offset(parts, (n - 1) as nat) + parts[n - 1].0 as nat
    }
}

/// The triangle index list of the first `n` meshes of `parts` joined: each
/// mesh's indices shifted by the number of vertices before it.
pub open spec fn joined_tri(parts: Seq<(usize, Vec<usize>)>, n: nat) -> Seq<usize>
    decreases n,
{
    if n == 0 {
        Seq::empty()
    } else {
        let off = vert_offset(parts, (n - 1) as nat);
        joined_tri(parts, (n - 1) as nat) + parts[n - 1].1@.map_values(|t: usize| (t + off) as usize)
    }
}

/// The number of triangle indices of the first `m` meshes of `parts`.
pub open spec fn tri_offset(parts: Seq<(usize, Vec<usize>)>, m: nat) -> nat
    decreases m,
{
    if m == 0 {
        0
    } else {
        tri_offset(parts, (m - 1) as nat) + parts[m - 1].1@.len()
    }
}

proof fn lemma_joined_prefix(parts: Seq<(usize, Vec<usize>)>, m: nat, n: nat)
    requires
        m <= n <= parts.len(),
    ensures
        joined_tri(parts, n).len() == tri_offset(parts, n),
        forall|i: int| 0 <= i < tri_offset(parts, m) ==> #[trigger] joined_tri(parts, n)[i] == joined_tri(parts, m)[i],
    decreases n,
{
    if n > 0 {
        let prev = joined_tri(parts, (n - 1) as nat);
        if m < n {
            lemma_joined_prefix(parts, m, (n - 1) as nat);
            lemma_tri_offset_mono(parts, m, (n - 1) as nat);
            assert forall|i: int| 0 <= i < tri_offset(parts, m) implies #[trigger] joined_tri(parts, n)[i]
                == joined_tri(parts, m)[i] by {
                assert(joined_tri(parts, n)[i] == prev[i]);
            }
        } else {
            lemma_joined_prefix(parts, (n - 1) as nat, (n - 1) as nat);
        }
    }
}

/// Joining meshes shifts each mesh's indices by the number of vertices of
/// all meshes before it: index `k` of mesh `m` lands at position
/// `tri_offset(parts, m) + k` of the joined list, as that index plus
/// `vert_offset(parts, m)`. Where every mesh indexes only its own
/// vertices, each mesh's indices lie in its own range of vertices, so
/// meshes never share a vertex.
pub proof fn law_join_shifts_each_part(parts: Seq<(usize, Vec<usize>)>, m: int, k: int)
    requires
        0 <= m < parts.len(),
        0 <= k < parts[m].1.len(),
        parts[m].1@[k] + vert_offset(parts, m as nat) <= usize::MAX,
    ensures
        joined_tri(parts, parts.len()).len() == tri_offset(parts, parts.len()),
        tri_offset(parts, m as nat) + k < joined_tri(parts, parts.len()).len(),
        joined_tri(parts, parts.len())[tri_offset(parts, m as nat) + k] == parts[m].1@[k] + vert_offset(parts, m as nat),
        parts_in_range(parts) ==> vert_offset(parts, m as nat) <= joined_tri(parts, parts.len())[tri_offset(parts, m as nat) + k]
            < vert_offset(parts, (m + 1) as nat),
{
    lemma_joined_prefix(parts, (m + 1) as nat, parts.len());
    lemma_joined_prefix(parts, m as nat, m as nat);
    lemma_tri_offset_mono(parts, (m + 1) as nat, parts.len());
    let j = joined_tri(parts, (m + 1) as nat);
    assert(j[tri_offset(parts, m as nat) + k] == parts[m].1@[k] + vert_offset(parts, m as nat));
    if parts_in_range(parts) {
        assert(parts[m].1@[k] < parts[m].0);
    }
}

proof fn lemma_tri_offset_mono(parts: Seq<(usize, Vec<usize>)>, a: nat, b: nat)
    requires
        a <= b,
    ensures
        tri_offset(parts, a) <= tri_offset(parts, b),
    decreases b - a,
{
    if a < b {
        lemma_tri_offset_mono(parts, a, (b - 1) as nat);
    }
}

/// `tri` holds index `k` of each mesh `m` of `parts` at position
/// `tri_offset(parts, m) + k`, shifted by `vert_offset(parts, m)`.
pub open spec fn places_parts(parts: Seq<(usize, Vec<usize>)>, tri: Seq<usize>) -> bool {
    forall|m: int, k: int|
        0 <= m < parts.len() && 0 <= k < parts[m].1@.len() ==> #[trigger] places_index(parts, tri, m, k)
}

/// Index `k` of mesh `m` of `parts` lies at position
/// `tri_offset(parts, m) + k` of `tri`, shifted by `vert_offset(parts, m)`.
pub open spec fn places_index(parts: Seq<(usize, Vec<usize>)>, tri: Seq<usize>, m: int, k: int) -> bool {
    &&& tri_offset(parts, m as nat) + k < tri.len()
    &&& tri[tri_offset(parts, m as nat) + k] == parts[m].1@[k] + vert_offset(parts, m as nat)
}

proof fn lemma_join_places(parts: Seq<(usize, Vec<usize>)>)
    requires
        forall|m: int, k: int|
            0 <= m < parts.len() && 0 <= k < parts[m].1@.len() ==> (#[trigger] parts[m].1@[k]) + vert_offset(parts, m as nat)
                <= usize::MAX,
    ensures
        places_parts(parts, joined_tri(parts, parts.len())),
{
    let t = joined_tri(parts, parts.len());
    assert forall|m: int, k: int| 0 <= m < parts.len() && 0 <= k < parts[m].1@.len() implies #[trigger] places_index(
        parts,
        t,
        m,
        k,
    ) by {
        law_join_shifts_each_part(parts, m, k);
    }
    assert(places_parts(parts, t));
}

/// Each mesh of `parts` indexes only its own vertices.
pub open spec fn parts_in_range(parts: Seq<(usize, Vec<usize>)>) -> bool {
    forall|m: int, k: int| 0 <= m < parts.len() && 0 <= k < parts[m].1.len() ==> #[trigger] parts[m].1@[k] < parts[m].0
}

/// The triangle index list of meshes joined into one, their vertices
/// following each other in order: `parts` holds each mesh's vertex count and
/// triangle index list.
pub fn join_tri(parts: &Vec<(usize, Vec<usize>)>) -> (tri: Vec<usize>)
    requires
        vert_offset(parts@, parts.len() as nat) <= usize::MAX,
        forall|m: int, k: int|
            0 <= m < parts.len() && 0 <= k < parts@[m].1.len() ==> #[trigger] parts@[m].1@[k] + vert_offset(parts@, m as nat)
                <= usize::MAX,
    ensures
        tri@ == joined_tri(parts@, parts.len() as nat),
        places_parts(parts@, tri@),
        parts_in_range(parts@) ==> forall|k: int| 0 <= k < tri.len() ==> #[trigger] tri@[k] < vert_offset(
            parts@,
            parts.len() as nat,
        ),
{
    let ghost valid = parts_in_range(parts@);
    let mut tri: Vec<usize> = Vec::new();
    let mut vertcount: usize = 0;
    let mut m: usize = 0;
    while m < parts.len()
        invariant
            vert_offset(parts@, parts.len() as nat) <= usize::MAX,
            forall|j: int, k: int|
                0 <= j < parts.len() && 0 <= k < parts@[j].1.len() ==> #[trigger] parts@[j].1@[k] + vert_offset(parts@, j as nat)
                    <= usize::MAX,
            m <= parts.len(),
            vertcount == vert_offset(parts@, m as nat),
            tri@ == joined_tri(parts@, m as nat),
            valid == parts_in_range(parts@),
            valid ==> forall|k: int| 0 <= k < tri.len() ==> #[trigger] tri@[k] < vertcount,
        decreases parts.len() - m,
    {
        let ghost before = tri@;
        let (length, part) = (parts[m].0, &parts[m].1);
        let mut k: usize = 0;
        while k < part.len()
            invariant
                forall|j: int, i: int|
                    0 <= j < parts.len() && 0 <= i < parts@[j].1.len() ==> #[trigger] parts@[j].1@[i] + vert_offset(parts@, j as nat)
                        <= usize::MAX,
                m < parts.len(),
                *part == parts@[m as int].1,
                vertcount == vert_offset(parts@, m as nat),
                k <= part.len(),
                tri@ == before + part@.take(k as int).map_values(|t: usize| (t + vertcount) as usize),
                valid == parts_in_range(parts@),
                valid ==> forall|i: int| 0 <= i < tri.len() ==> #[trigger] tri@[i] < vertcount + parts@[m as int].0,
            decreases part.len() - k,
        {
            proof {
                assert(parts@[m as int].1@[k as int] + vert_offset(parts@, m as nat) <= usize::MAX);
            }
            tri.push(part[k] + vertcount);
            proof {
                if valid {
                    assert(parts@[m as int].1@[k as int] < parts@[m as int].0);
                }
                assert(part@.take(k + 1) == part@.take(k as int).push(part@[k as int]));
                assert(tri@ =~= before + part@.take(k + 1).map_values(|t: usize| (t + vertcount) as usize));
            }
            k = k + 1;
        }
        proof {
            assert(part@.take(k as int) == part@);
            vert_offset_mono(parts@, (m + 1) as nat, parts.len() as nat);
        }
        vertcount = vertcount + length;
        m = m + 1;
    }
    proof {
        assert(tri@ == joined_tri(parts@, parts.len() as nat));
        lemma_join_places(parts@);
    }
    tri
}

proof fn vert_offset_mono(parts: Seq<(usize, Vec<usize>)>, a: nat, b: nat)
    requires
        a <= b,
    ensures
        vert_offset(parts, a) <= vert_offset(parts, b),
    decreases b - a,
{
    if a < b {
        vert_offset_mono(parts, a, (b - 1) as nat);
    }
}

/// The index list `tri` with the first two corners of each triangle
/// swapped, which flips the triangle.
pub open spec fn flipped(tri: Seq<usize>) -> Seq<usize> {
    Seq::new(
        tri.len(),
        |k: int|
            if k % 3 == 0 && k + 1 < tri.len() {
                tri[k + 1]
            } else if k % 3 == 1 {
                tri[k - 1]
            } else {
                tri[k]
            },
    )
}

/// Flips every triangle of the index list `tri`, by swapping its first two
/// corners.
pub fn flip_tri(tri: &mut Vec<usize>)
    requires
        old(tri).len() % 3 != 1,
    ensures
        final(tri)@ == flipped(old(tri)@),
{
    let ghost t0 = tri@;
    let n = tri.len();
    let mut i: usize = 0;
    while i < n && n - i >= 2
        invariant
            n == t0.len(),
            n % 3 != 1,
            tri@.len() == n,
            i % 3 == 0 || i == n,
            i <= n,
            forall|k: int| 0 <= k < i ==> #[trigger] tri@[k] == flipped(t0)[k],
            forall|k: int| i <= k < n ==> #[trigger] tri@[k] == t0[k],
        decreases n - i,
    {
        let a = tri[i];
        let b = tri[i + 1];
        tri.set(i, b);
        tri.set(i + 1, a);
        if n - i >= 3 {
            proof {
                assert forall|k: int| 0 <= k < i + 3 implies #[trigger] tri@[k] == flipped(t0)[k] by {
                    if k >= i {
                        assert(k == i || k == i + 1 || k == i + 2);
                    }
                }
            }
            i = i + 3;
        } else {
            proof {
                assert forall|k: int| 0 <= k < n implies #[trigger] tri@[k] == flipped(t0)[k] by {
                    if k >= i {
                        assert(k == i || k == i + 1);
                    }
                }
            }
            i = n;
        }
    }
    proof {
        assert(tri@ =~= flipped(t0));
    }
}

/// The edges of an icosahedron from the group of four vertices starting at
/// `i`: the icosahedron's twelve vertices form three groups of four, and
/// each group links to itself and to the next group (the first group
/// following the last).
pub open spec fn icosahedron_group_edges(i: int) -> Seq<(usize, usize)> {
    let n = (i + 4) % 12;
    seq![
        (i as usize, (i + 1) as usize),
        (i as usize, (n + 2) as usize),
        (i as usize, n as usize),
        ((i + 1) as usize, (n + 2) as usize),
        ((i + 1) as usize, n as usize),
        ((i + 2) as usize, (i + 3) as usize),
        ((i + 2) as usize, (n + 3) as usize),
        ((i + 2) as usize, (n + 1) as usize),
        ((i + 3) as usize, (n + 3) as usize),
        ((i + 3) as usize, (n + 1) as usize),
    ]
}

/// The thirty edges of an icosahedron, between its twelve vertices, group
/// by group.
pub fn icosahedron_edges() -> (edges: Vec<(usize, usize)>)
    ensures
        edges@ == icosahedron_group_edges(0) + icosahedron_group_edges(4) + icosahedron_group_edges(8),
{
    let mut edges: Vec<(usize, usize)> = Vec::new();
    let mut i: usize = 0;
    while i < 12
        invariant
            i == 0 || i == 4 || i == 8 || i == 12,
            i == 0 ==> edges@ == Seq::<(usize, usize)>::empty(),
            i == 4 ==> edges@ == icosahedron_group_edges(0),
            i == 8 ==> edges@ == icosahedron_group_edges(0) + icosahedron_group_edges(4),
            i == 12 ==> edges@ == icosahedron_group_edges(0) + icosahedron_group_edges(4) + icosahedron_group_edges(8),
        decreases 12 - i,
    {
        let ghost before = edges@;
        let inext = (i + 4) % 12;
        edges.push((i, i + 1));
        edges.push((i, inext + 2));
        edges.push((i, inext));
        edges.push((i + 1, inext + 2));
        edges.push((i + 1, inext));
        edges.push((i + 2, i + 3));
        edges.push((i + 2, inext + 3));
        edges.push((i + 2, inext + 1));
        edges.push((i + 3, inext + 3));
        edges.push((i + 3, inext + 1));
        proof {
            assert(edges@ =~= before + icosahedron_group_edges(i as int));
        }
        i = i + 4;
    }
    edges
}

/// The entries of `s`, each at its first appearance only.
pub open spec fn first_appearances(s: Seq<usize>) -> Seq<usize>
    decreases s.len(),
{
    if s.len() == 0 {
        Seq::empty()
    } else {
        let rest = first_appearances(s.drop_last());
        if rest.contains(s.last()) {
            rest
        } else {
            rest.push(s.last())
        }
    }
}

/// The vertex ids of a mesh made uniform from `desouped`, which names for
/// each corner the vertex it shares a position with: the vertices kept (the
/// distinct names, in order of first appearance), and for each corner the
/// position of its vertex among them.
pub fn uniform_ids(desouped: &Vec<usize>) -> (res: (Vec<usize>, Vec<usize>))
    ensures
        res.1@ == first_appearances(desouped@),
        res.1@.no_duplicates(),
        res.0.len() == desouped.len(),
        forall|i: int| 0 <= i < desouped.len() ==> #[trigger] res.0@[i] < res.1.len() && res.1@[res.0@[i] as int] == desouped@[i],
{
    broadcast use vstd::std_specs::hash::group_hash_axioms;

    let mut map: HashMap<usize, usize> = HashMap::new();
    let mut ids: Vec<usize> = Vec::new();
    let mut kept: Vec<usize> = Vec::new();
    let mut new_vert_index: usize = 0;
    let mut i: usize = 0;
    while i < desouped.len()
        invariant
            i <= desouped.len(),
            new_vert_index == kept.len(),
            kept.len() <= i,
            kept@ == first_appearances(desouped@.take(i as int)),
            kept@.no_duplicates(),
            forall|v: usize| #[trigger] map@.contains_key(v) <==> kept@.contains(v),
            forall|k: int| 0 <= k < kept.len() ==> #[trigger] map@[kept@[k]] == k,
            ids.len() == i,
            forall|j: int| 0 <= j < i ==> #[trigger] ids@[j] < kept.len() && kept@[ids@[j] as int] == desouped@[j],
        decreases desouped.len() - i,
    {
        let id = desouped[i];
        proof {
            assert(desouped@.take(i + 1).drop_last() == desouped@.take(i as int));
        }
        match map.get(&id) {
            Some(index) => {
                proof {
                    let k = choose|k: int| 0 <= k < kept.len() && kept@[k] == id;
                    assert(map@[kept@[k]] == k);
                }
                ids.push(*index);
            },
            None => {
                let ghost k0 = kept@;
                map.insert(id, new_vert_index);
                ids.push(new_vert_index);
                kept.push(id);
                proof {
                    assert forall|v: usize| #[trigger] map@.contains_key(v) <==> kept@.contains(v) by {
                        assert(kept@.contains(v) <==> (k0.contains(v) || v == id)) by {
                            broadcast use vstd::seq_lib::group_seq_properties;
                        }
                    }
                    assert forall|k: int| 0 <= k < kept.len() implies #[trigger] map@[kept@[k]] == k by {
                        if k < kept.len() - 1 {
                            assert(kept@[k] != id);
                        }
                    }
                }
                new_vert_index = new_vert_index + 1;
            },
        }
        i = i + 1;
    }
    proof {
        assert(desouped@.take(i as int) == desouped@);
    }
    (ids, kept)
}

/// Each index of `tri`, plus `offset`.
pub open spec fn shifted(tri: Seq<usize>, offset: int) -> Seq<usize> {
    tri.map_values(|t: usize| (t + offset) as usize)
}

/// The two triangles that close the gap along the edge `e` between a ring
/// of vertices and its copy `offset` vertices further on.
pub open spec fn wall(e: (usize, usize), offset: int) -> Seq<usize> {
    seq![e.0, e.1, (e.1 + offset) as usize, (e.1 + offset) as usize, (e.0 + offset) as usize, e.0]
}

/// The walls along each of `edges`, in order.
pub open spec fn walls(edges: Seq<(usize, usize)>, offset: int) -> Seq<usize>
    decreases edges.len(),
{
    if edges.len() == 0 {
        Seq::empty()
    } else {
        walls(edges.drop_last(), offset) + wall(edges.last(), offset)
    }
}

/// Each index below `n` with the next one, the last with the first.
pub open spec fn ring_pairs(n: nat) -> Seq<(usize, usize)> {
    Seq::new(n, |i: int| (i as usize, ((i + 1) % (n as int)) as usize))
}

/// The pairs of `pairs`, both ends moved by `offset`.
pub open spec fn moved_pairs(pairs: Seq<(usize, usize)>, offset: int) -> Seq<(usize, usize)> {
    pairs.map_values(|p: (usize, usize)| ((p.0 + offset) as usize, (p.1 + offset) as usize))
}

/// The triangles of a fan: each pair of `pairs` with the center `c`.
pub open spec fn fan(pairs: Seq<(usize, usize)>, c: usize) -> Seq<usize>
    decreases pairs.len(),
{
    if pairs.len() == 0 {
        Seq::empty()
    } else {
        fan(pairs.drop_last(), c) + seq![pairs.last().0, pairs.last().1, c]
    }
}

/// The walls between the first `m` consecutive rings of `count` vertices
/// each (see `loft_tri`).
pub open spec fn loft_rows(count: nat, m: nat) -> Seq<usize>
    decreases m,
{
    if m == 0 {
        Seq::empty()
    } else {
        loft_rows(count, (m - 1) as nat) + walls(moved_pairs(ring_pairs(count), (m - 1) * count), count as int)
    }
}

/// Each index below `n` with the next one, the last with the first.
pub fn ring_pair_ids(n: usize) -> (pairs: Vec<(usize, usize)>)
    ensures
        pairs@ == ring_pairs(n as nat),
{
    let mut pairs: Vec<(usize, usize)> = Vec::new();
    let mut i: usize = 0;
    while i < n
        invariant
            i <= n,
            pairs@ == ring_pairs(n as nat).take(i as int),
        decreases n - i,
    {
        pairs.push((i, (i + 1) % n));
        i = i + 1;
        proof {
            assert(pairs@ =~= ring_pairs(n as nat).take(i as int));
        }
    }
    proof {
        assert(ring_pairs(n as nat).take(i as int) == ring_pairs(n as nat));
    }
    pairs
}

/// Appends each index of `tri`, plus `offset`, to `res`.
fn push_shifted(res: &mut Vec<usize>, tri: &Vec<usize>, offset: usize)
    requires
        forall|k: int| 0 <= k < tri.len() ==> #[trigger] tri@[k] + offset <= usize::MAX,
    ensures
        final(res)@ == old(res)@ + shifted(tri@, offset as int),
{
    let ghost r0 = res@;
    let mut k: usize = 0;
    while k < tri.len()
        invariant
            k <= tri.len(),
            forall|j: int| 0 <= j < tri.len() ==> #[trigger] tri@[j] + offset <= usize::MAX,
            res@ == r0 + shifted(tri@.take(k as int), offset as int),
        decreases tri.len() - k,
    {
        res.push(tri[k] + offset);
        k = k + 1;
        proof {
            assert(res@ =~= r0 + shifted(tri@.take(k as int), offset as int));
        }
    }
    proof {
        assert(tri@.take(k as int) == tri@);
    }
}

/// Appends the walls along each of `edges` (see `walls`) to `res`.
fn push_walls(res: &mut Vec<usize>, edges: &Vec<(usize, usize)>, offset: usize)
    requires
        forall|k: int| 0 <= k < edges.len() ==> #[trigger] edges@[k].0 + offset <= usize::MAX && edges@[k].1 + offset
            <= usize::MAX,
    ensures
        final(res)@ == old(res)@ + walls(edges@, offset as int),
{
    let ghost r0 = res@;
    let mut k: usize = 0;
    while k < edges.len()
        invariant
            k <= edges.len(),
            forall|j: int| 0 <= j < edges.len() ==> #[trigger] edges@[j].0 + offset <= usize::MAX && edges@[j].1 + offset
                <= usize::MAX,
            res@ == r0 + walls(edges@.take(k as int), offset as int),
        decreases edges.len() - k,
    {
        let (i, j) = edges[k];
        res.push(i);
        res.push(j);
        res.push(j + offset);
        res.push(j + offset);
        res.push(i + offset);
        res.push(i);
        k = k + 1;
        proof {
            assert(edges@.take(k as int).drop_last() == edges@.take(k - 1));
            assert(res@ =~= r0 + walls(edges@.take(k as int), offset as int));
        }
    }
    proof {
        assert(edges@.take(k as int) == edges@);
    }
}

/// The triangle index list of a mesh of `vert_count` vertices made double
/// sided: the mesh flipped, then the mesh itself on a second copy of the
/// vertices.
pub fn double_sided_tri(tri: &Vec<usize>, vert_count: usize) -> (res: Vec<usize>)
    requires
        tri.len() % 3 != 1,
        forall|k: int| 0 <= k < tri.len() ==> #[trigger] tri@[k] + vert_count <= usize::MAX,
    ensures
        res@ == flipped(tri@) + shifted(tri@, vert_count as int),
{
    let mut res: Vec<usize> = Vec::new();
    push_shifted(&mut res, tri, 0);
    proof {
        assert(res@ =~= tri@);
    }
    flip_tri(&mut res);
    push_shifted(&mut res, tri, vert_count);
    res
}

/// The triangle index list of a mesh of `vert_count` vertices extruded: the
/// mesh flipped (the bottom), the mesh on a second copy of the vertices (the
/// top), and the walls between the two along each naked edge of the mesh.
pub fn extrude_tri(tri: &Vec<usize>, vert_count: usize) -> (res: Vec<usize>)
    requires
        tri.len() % 3 == 0,
        forall|k: int| 0 <= k < tri.len() ==> #[trigger] tri@[k] + vert_count <= usize::MAX,
    ensures
        res@ == flipped(tri@) + shifted(tri@, vert_count as int) + walls(
            naked(neighborized(edge_occurrences(tri@))),
            vert_count as int,
        ),
{
    let mut res = double_sided_tri(tri, vert_count);
    let edges = iter_naked_edges(tri);
    proof {
        crate::solid::mesh::lemma_naked_bounded(tri@, usize::MAX - vert_count);
        assert forall|k: int| 0 <= k < edges.len() implies #[trigger] edges@[k].0 + vert_count <= usize::MAX
            && edges@[k].1 + vert_count <= usize::MAX by {
            assert(edges@[k] == naked(neighborized(edge_occurrences(tri@)))[k]);
        }
    }
    push_walls(&mut res, &edges, vert_count);
    res
}

/// The triangle index list of a loft through `curve_count` curves of
/// `count` vertices each, stored curve after curve: between each curve and
/// the next, for each vertex `i` of the curve and the one after it `j`
/// (the last followed by the first), the triangles `(i, j, j')` and
/// `(j', i', i)`, a prime marking the vertex of the next curve.
pub fn loft_tri(curve_count: usize, count: usize) -> (res: Vec<usize>)
    requires
        curve_count >= 1,
        curve_count * count <= usize::MAX,
    ensures
        res@ == loft_rows(count as nat, (curve_count - 1) as nat),
{
    let pairs = ring_pair_ids(count);
    let mut res: Vec<usize> = Vec::new();
    let mut ii: usize = 0;
    while ii < curve_count - 1
        invariant
            curve_count >= 1,
            curve_count * count <= usize::MAX,
            ii <= curve_count - 1,
            pairs@ == ring_pairs(count as nat),
            res@ == loft_rows(count as nat, ii as nat),
        decreases curve_count - 1 - ii,
    {
        proof {
            assert((ii + 2) * count <= curve_count * count) by (nonlinear_arith)
                requires
                    ii + 2 <= curve_count,
            ;
            assert((ii + 2) * count == ii * count + 2 * count) by (nonlinear_arith);
        }
        let base = ii * count;
        let mut moved: Vec<(usize, usize)> = Vec::new();
        let mut k: usize = 0;
        while k < pairs.len()
            invariant
                k <= pairs.len(),
                pairs@ == ring_pairs(count as nat),
                base + 2 * count <= usize::MAX,
                moved@ == moved_pairs(pairs@.take(k as int), base as int),
            decreases pairs.len() - k,
        {
            let (i, j) = pairs[k];
            proof {
                assert(i < count && j < count);
            }
            moved.push((i + base, j + base));
            k = k + 1;
            proof {
                assert(moved@ =~= moved_pairs(pairs@.take(k as int), base as int));
            }
        }
        proof {
            assert(pairs@.take(k as int) == pairs@);
            assert forall|k: int| 0 <= k < moved.len() implies #[trigger] moved@[k].0 + count <= usize::MAX
                && moved@[k].1 + count <= usize::MAX by {
                assert(pairs@[k].0 < count && pairs@[k].1 < count);
            }
        }
        push_walls(&mut res, &moved, count);
        ii = ii + 1;
    }
    res
}

/// The triangle index list of a polygon of `count` vertices filled as a
/// fan around an added center vertex, numbered `count`: each vertex, the
/// next one (the last followed by the first) and the center.
pub fn polygon_naive_tri(count: usize) -> (res: Vec<usize>)
    ensures
        res@ == fan(ring_pairs(count as nat), count),
{
    let pairs = ring_pair_ids(count);
    let mut res: Vec<usize> = Vec::new();
    let mut k: usize = 0;
    while k < pairs.len()
        invariant
            k <= pairs.len(),
            res@ == fan(pairs@.take(k as int), count),
        decreases pairs.len() - k,
    {
        let (a, b) = pairs[k];
        res.push(a);
        res.push(b);
        res.push(count);
        k = k + 1;
        proof {
            assert(pairs@.take(k as int).drop_last() == pairs@.take(k - 1));
            assert(res@ =~= fan(pairs@.take(k as int), count));
        }
    }
    proof {
        assert(pairs@.take(k as int) == pairs@);
    }
    res
}

/// The triangle index list of a polygon of `count` vertices extruded: its
/// fan flipped (the bottom, vertices `0` to `count`), its fan on the next
/// `count + 1` vertices (the top), and the walls between the two rings.
pub fn extrude_polygon_tri(count: usize) -> (res: Vec<usize>)
    requires
        2 * count + 1 <= usize::MAX,
    ensures
        res@ == flipped(fan(ring_pairs(count as nat), count)) + shifted(fan(ring_pairs(count as nat), count), count + 1)
            + walls(ring_pairs(count as nat), count + 1),
{
    let naive = polygon_naive_tri(count);
    proof {
        lemma_fan_len(ring_pairs(count as nat), count);
        lemma_fan_bounded(ring_pairs(count as nat), count);
    }
    let mut res = double_sided_tri(&naive, count + 1);
    let pairs = ring_pair_ids(count);
    proof {
        assert forall|k: int| 0 <= k < pairs.len() implies #[trigger] pairs@[k].0 + (count + 1) <= usize::MAX
            && pairs@[k].1 + (count + 1) <= usize::MAX by {
            assert(pairs@[k].0 < count && pairs@[k].1 < count);
        }
    }
    push_walls(&mut res, &pairs, count + 1);
    res
}

proof fn lemma_fan_len(pairs: Seq<(usize, usize)>, c: usize)
    ensures
        fan(pairs, c).len() == 3 * pairs.len(),
    decreases pairs.len(),
{
    if pairs.len() > 0 {
        lemma_fan_len(pairs.drop_last(), c);
    }
}

proof fn lemma_fan_bounded(pairs: Seq<(usize, usize)>, c: usize)
    requires
        forall|k: int| 0 <= k < pairs.len() ==> (#[trigger] pairs[k]).0 <= c && pairs[k].1 <= c,
    ensures
        forall|k: int| 0 <= k < fan(pairs, c).len() ==> #[trigger] fan(pairs, c)[k] <= c,
    decreases pairs.len(),
{
    if pairs.len() > 0 {
        let d = pairs.drop_last();
        assert forall|k: int| 0 <= k < d.len() implies (#[trigger] d[k]).0 <= c && d[k].1 <= c by {
            assert(d[k] == pairs[k]);
        }
        lemma_fan_bounded(d, c);
        lemma_fan_len(d, c);
        assert(pairs.last() == pairs[pairs.len() - 1]);
        let f = fan(pairs, c);
        let fd = fan(d, c);
        assert forall|k: int| 0 <= k < f.len() implies #[trigger] f[k] <= c by {
            if k < fd.len() {
                assert(f[k] == fd[k]);
            }
        }
    }
}

} // verus!
