use hedron::data::grid2::Grid2;
use hedron::data::ivec::IVec2;
use hedron::raster::raster_circle::{grid_edge_from_reach, grid_fill_from_spans};
use hedron::solid::mesh::aggregate_edges;
use hedron::solid::mesh_build::Side::{Left, OnTop, Right};
use hedron::solid::mesh_build::{
    flip_tri, icosahedron_edges, hexagrid_rows, hexagrid_tri, holed_weave_tri, join_tri, split_case, TriSplit,
};

#[test]
fn test_aggregate() {
    let edges = vec![(1, 4), (2, 4), (3, 2), (5, 6), (3, 1)];
    assert_eq!(aggregate_edges(edges), vec![vec![3, 1, 4, 2, 3], vec![5, 6]]);
}

#[test]
fn test_hexagrid() {
    let rows = hexagrid_rows(1);
    let tri = hexagrid_tri(1);
    assert_eq!(rows, vec![3, 4, 5, 4, 3]);
    assert_eq!(tri.len(), 72);
}

#[test]
fn hexagrid_triangles_mirror() {
    let tri = hexagrid_tri(1);
    assert_eq!(&tri[0..12], &[0, 1, 4, 18, 17, 14, 0, 4, 3, 18, 14, 15]);
    assert_eq!(&tri[24..30], &[2, 6, 5, 16, 12, 13]);
    assert_eq!(&tri[66..72], &[6, 11, 10, 12, 7, 8]);
    assert!(tri.iter().all(|i| *i <= 18));
    assert_eq!(hexagrid_rows(0), vec![2, 3, 2]);
    assert_eq!(hexagrid_tri(0), vec![0, 1, 3, 6, 5, 3, 0, 3, 2, 6, 3, 4, 1, 4, 3, 5, 2, 3]);
}

#[test]
fn holed_weave_laces_cells() {
    let full = Grid2 { width: 3, height: 2, items: vec![true; 6] };
    assert_eq!(holed_weave_tri(&full), vec![4, 0, 3, 4, 1, 0, 5, 1, 4, 5, 2, 1]);
    let holed = Grid2 { width: 3, height: 2, items: vec![false, true, true, true, true, true] };
    assert_eq!(holed_weave_tri(&holed), vec![4, 1, 3, 5, 1, 4, 5, 2, 1]);
    let sparse = Grid2 { width: 2, height: 2, items: vec![true, false, false, true] };
    assert_eq!(holed_weave_tri(&sparse), Vec::<usize>::new());
}

#[test]
fn join_shifts_indices() {
    let parts = vec![(3, vec![0, 1, 2]), (4, vec![0, 1, 2, 1, 3, 2]), (2, vec![])];
    assert_eq!(join_tri(&parts), vec![0, 1, 2, 3, 4, 5, 4, 6, 5]);
    assert_eq!(join_tri(&Vec::new()), Vec::<usize>::new());
}

#[test]
fn split_cases() {
    assert_eq!(split_case((Left, Left, OnTop)), TriSplit::Left);
    assert_eq!(split_case((OnTop, OnTop, OnTop)), TriSplit::Left);
    assert_eq!(split_case((Right, OnTop, Right)), TriSplit::Right);
    assert_eq!(split_case((Right, Left, Left)), TriSplit::Asym { major: Left, rot: 1 });
    assert_eq!(split_case((Right, Right, Left)), TriSplit::Asym { major: Right, rot: 0 });
    assert_eq!(split_case((OnTop, Left, Right)), TriSplit::Perfect { top: Left, rot: 1 });
    assert_eq!(split_case((Left, OnTop, Right)), TriSplit::Perfect { top: Right, rot: 2 });
}

#[test]
fn circle_border_and_fill() {
    let center = IVec2::new(0, 0);
    let border = grid_edge_from_reach(center, &vec![2, 1]);
    let expect: Vec<IVec2> = [(-2, 0), (2, 0), (0, -2), (0, 2), (-1, -1), (1, 1), (-1, 1), (1, -1)]
        .iter()
        .map(|(x, y)| IVec2::new(*x, *y))
        .collect();
    assert_eq!(border, expect);

    let fill = grid_fill_from_spans(5, &vec![(-2, 2), (-1, 1), (1, 0)]);
    let expect: Vec<IVec2> = [(-2, 5), (-1, 5), (0, 5), (1, 5), (2, 5), (-1, 6), (0, 6), (1, 6)]
        .iter()
        .map(|(x, y)| IVec2::new(*x, *y))
        .collect();
    assert_eq!(fill, expect);
}

#[test]
fn flip_swaps_first_corners() {
    let mut tri = vec![0, 1, 2, 3, 4, 5];
    flip_tri(&mut tri);
    assert_eq!(tri, vec![1, 0, 2, 4, 3, 5]);
    let mut open = vec![0, 1, 2, 3, 4];
    flip_tri(&mut open);
    assert_eq!(open, vec![1, 0, 2, 4, 3]);
}

#[test]
fn icosahedron_has_thirty_edges() {
    let edges = icosahedron_edges();
    assert_eq!(edges.len(), 30);
    assert_eq!(
        &edges[0..10],
        &[(0, 1), (0, 6), (0, 4), (1, 6), (1, 4), (2, 3), (2, 7), (2, 5), (3, 7), (3, 5)]
    );
    assert_eq!(edges[29], (11, 1));
    for v in 0..12 {
        let degree = edges.iter().filter(|(a, b)| *a == v || *b == v).count();
        assert_eq!(degree, 5);
    }
    let mut sorted: Vec<(usize, usize)> = edges.iter().map(|(a, b)| (*a.min(b), *a.max(b))).collect();
    sorted.sort();
    sorted.dedup();
    assert_eq!(sorted.len(), 30);
}

#[test]
fn uniform_ids_share_vertices() {
    let (ids, kept) = hedron::solid::mesh_build::uniform_ids(&vec![0, 1, 2, 2, 1, 5, 0]);
    assert_eq!(kept, vec![0, 1, 2, 5]);
    assert_eq!(ids, vec![0, 1, 2, 2, 1, 3, 0]);
}

#[test]
fn box_lines_by_corner() {
    let pairs = hedron::lines::line_list::box_line_pairs();
    assert_eq!(
        pairs,
        vec![
            (0, 1), (0, 2), (0, 4), (1, 2), (1, 3), (1, 5), (2, 3), (2, 4), (2, 6),
            (3, 4), (3, 5), (3, 7), (4, 5), (4, 6), (5, 6), (5, 7), (6, 7)
        ]
    );
}
