use hedron::solid::mesh::{
    aggregate_edges, clean_triangles, count_triangles, get_neighborized_edges, iter_edges,
    iter_naked_edges, iter_triangles,
};
use hedron::solid::mesh_build::{
    double_sided_tri, extrude_polygon_tri, extrude_tri, loft_tri, polygon_naive_tri, ring_pair_ids,
};

#[test]
fn triangles_and_edges() {
    let tri = vec![0, 1, 2, 2, 1, 3];
    assert_eq!(count_triangles(&tri), 2);
    assert_eq!(iter_triangles(&tri), vec![(0, 1, 2), (2, 1, 3)]);
    assert_eq!(
        iter_edges(&tri),
        vec![(0, 1), (1, 2), (2, 0), (2, 1), (1, 3), (3, 2)]
    );
}

#[test]
fn clean_triangles_drops_degenerate_and_repeated() {
    let mut tri = vec![0, 1, 2, 3, 3, 4, 2, 0, 1, 1, 2, 3, 5, 6, 5, 3, 2, 1];
    clean_triangles(&mut tri);
    assert_eq!(tri, vec![0, 1, 2, 1, 2, 3]);
}

#[test]
fn neighborized_edges_of_two_triangles() {
    let tri = vec![0, 1, 2, 2, 1, 3];
    let sides = get_neighborized_edges(&tri);
    assert_eq!(
        sides,
        vec![
            ((0, 1), (0, None)),
            ((1, 2), (0, Some(1))),
            ((0, 2), (0, None)),
            ((1, 3), (1, None)),
            ((2, 3), (1, None)),
        ]
    );
    assert_eq!(iter_naked_edges(&tri), vec![(0, 1), (0, 2), (1, 3), (2, 3)]);
}

#[test]
fn aggregate_edges_plays_dominoes() {
    // a closed square and an open chain
    let edges = vec![(7, 8), (0, 1), (2, 1), (2, 3), (3, 0), (8, 9)];
    let loops = aggregate_edges(edges);
    assert_eq!(loops, vec![vec![8, 9], vec![3, 0, 1, 2, 3], vec![7, 8]]);

    let closed = aggregate_edges(vec![(0, 1), (1, 2), (2, 0)]);
    assert_eq!(closed, vec![vec![2, 0, 1, 2]]);
    assert!(aggregate_edges(Vec::new()).is_empty());
}

#[test]
fn polygon_fans_and_extrusions() {
    assert_eq!(polygon_naive_tri(3), vec![0, 1, 3, 1, 2, 3, 2, 0, 3]);
    assert_eq!(
        extrude_polygon_tri(3),
        vec![
            1, 0, 3, 2, 1, 3, 0, 2, 3, 4, 5, 7, 5, 6, 7, 6, 4, 7, 0, 1, 5, 5, 4, 0, 1, 2, 6, 6, 5, 1, 2, 0, 4, 4,
            6, 2,
        ]
    );
    assert_eq!(polygon_naive_tri(0), Vec::<usize>::new());
}

#[test]
fn lofts_and_double_sides() {
    assert_eq!(
        loft_tri(3, 2),
        vec![0, 1, 3, 3, 2, 0, 1, 0, 2, 2, 3, 1, 2, 3, 5, 5, 4, 2, 3, 2, 4, 4, 5, 3]
    );
    assert_eq!(loft_tri(1, 5), Vec::<usize>::new());
    assert_eq!(double_sided_tri(&vec![0, 1, 2], 3), vec![1, 0, 2, 3, 4, 5]);
    assert_eq!(
        extrude_tri(&vec![0, 1, 2], 3),
        vec![1, 0, 2, 3, 4, 5, 0, 1, 4, 4, 3, 0, 1, 2, 5, 5, 4, 1, 0, 2, 5, 5, 3, 0]
    );
    assert_eq!(ring_pair_ids(3), vec![(0, 1), (1, 2), (2, 0)]);
}
