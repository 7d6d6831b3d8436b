use hedron::solid::polyhedron::{HalfEdge, Polyhedron, PtrError, PtrKind, VertPtr};

type Pos = [f64; 3];

/// Adds the edge between `a` and `b`, inserting each half edge into the disk
/// of its start vertex between the incoming edges at the given positions.
fn link(
    hedron: &mut Polyhedron<Pos>,
    a: VertPtr,
    b: VertPtr,
    between_a: Option<(usize, usize)>,
    between_b: Option<(usize, usize)>,
) -> Option<()> {
    let (from_a, from_b) = hedron.add_dangling_twins(a, b)?;
    hedron.add_edge_to_vertex(from_a, between_a);
    hedron.add_edge_to_vertex(from_b, between_b);
    Some(())
}

fn triangle() -> Polyhedron<Pos> {
    let mut hedron = Polyhedron::new();
    let a = hedron.add_vert([0.0, 0.0, 0.0]);
    let b = hedron.add_vert([1.0, 0.0, 0.0]);
    let c = hedron.add_vert([0.0, 1.0, 0.0]);
    link(&mut hedron, a, b, None, None).unwrap();
    link(&mut hedron, b, c, Some((0, 0)), None).unwrap();
    link(&mut hedron, c, a, Some((0, 0)), Some((0, 0))).unwrap();
    hedron
}

#[test]
fn polyhedron() {
    let mut ph: Polyhedron<Pos> = Polyhedron::new();
    let a = ph.add_vert([1.0, 0.0, 0.0]);
    let b = ph.add_vert([1.0, 1.0, 0.0]);
    let c = ph.add_vert([0.0, 0.0, 1.0]);
    assert_eq!(a, 0);
    assert_eq!(b, 1);
    assert_eq!(c, 2);
    assert!(link(&mut ph, a, b, None, None).is_some());
    assert!(link(&mut ph, a, b, None, None).is_none());
    assert_eq!(ph.get_loops(), vec![vec![0, 1]]);
}

#[test]
fn triangle_structure() {
    let hedron = triangle();
    assert_eq!(
        *hedron.edge(0),
        HalfEdge { from: 0, next: 2, twin: 1, face: None }
    );
    assert_eq!(
        *hedron.edge(5),
        HalfEdge { from: 0, next: 3, twin: 4, face: None }
    );
    assert_eq!(hedron.get_loops(), vec![vec![0, 2, 4], vec![1, 5, 3]]);
    assert_eq!(hedron.get_loop(2), vec![2, 4, 0]);
    assert_eq!(hedron.get_disk(0), vec![0, 1, 5, 4]);
    assert_eq!(hedron.get_vert_neighbors(0), vec![1, 2]);
    assert_eq!(hedron.get_edge_between(0, 2), Some(5));
    assert_eq!(hedron.get_edge_between(0, 0), None);
    assert!(hedron.has_half_edge(0, 1));
    assert_eq!(hedron.all_unique_edges(), vec![1, 3, 5]);
    assert_eq!(hedron.edge_verts(0), ([0.0, 0.0, 0.0], [1.0, 0.0, 0.0]));
    assert_eq!(
        hedron.edges_to_verts(&[0, 2, 4]),
        vec![[0.0, 0.0, 0.0], [1.0, 0.0, 0.0], [0.0, 1.0, 0.0]]
    );
    assert_eq!(hedron.all_verts().len(), 3);
    assert!(!hedron.data_is_fragmented());
}

#[test]
fn cap_a_loop() {
    let mut hedron = triangle();
    let center = [0.3, 0.3, 0.0];
    let normal = [0.0, 0.0, 1.0];
    assert_eq!(hedron.cap_loop(&vec![0, 2], center, normal), None);
    assert_eq!(hedron.cap_loop(&vec![0, 2, 4], center, normal), Some(0));
    assert_eq!(hedron.cap_loop(&vec![0, 2, 4], center, normal), None);
    assert_eq!(hedron.edge(2).face, Some(0));
    assert_eq!(hedron.edge(1).face, None);
    assert_eq!(hedron.face(0).edge, 0);
    assert_eq!(hedron.get_face_loops(), vec![vec![0, 2, 4]]);
    assert_eq!(hedron.get_vert_faces(0), vec![0]);
    assert_eq!(hedron.face_triangles(), vec![0, 1, 2]);
}

#[test]
fn split_an_edge() {
    let mut hedron = triangle();
    let (vp, top, bottom) = hedron.split_edge(0, [0.5, 0.0, 0.0]);
    assert_eq!((vp, top, bottom), (3, 6, 7));
    assert_eq!(hedron.vert(3).edge, Some(6));
    assert_eq!(*hedron.edge(6), HalfEdge { from: 3, next: 2, twin: 1, face: None });
    assert_eq!(*hedron.edge(7), HalfEdge { from: 3, next: 5, twin: 0, face: None });
    assert_eq!(hedron.get_loop(0), vec![0, 6, 2, 4]);
    assert_eq!(hedron.get_loop(1), vec![1, 7, 5, 3]);
}

#[test]
fn refactor_moves_pointers() {
    let mut hedron: Polyhedron<Pos> = Polyhedron::new();
    let _a = hedron.add_vert([0.0, 0.0, 0.0]);
    let b = hedron.add_vert([1.0, 0.0, 0.0]);
    let c = hedron.add_vert([2.0, 0.0, 0.0]);
    link(&mut hedron, b, c, None, None).unwrap();
    hedron.verts.delete(0);
    assert!(hedron.data_is_fragmented());
    let packed = hedron.refactor().unwrap();
    assert!(!packed.data_is_fragmented());
    assert_eq!(packed.vert(0).pos, [1.0, 0.0, 0.0]);
    assert_eq!(*packed.edge(0), HalfEdge { from: 0, next: 1, twin: 1, face: None });
    assert_eq!(*packed.edge(1), HalfEdge { from: 1, next: 0, twin: 0, face: None });

    let same = triangle().refactor().unwrap();
    assert_eq!(same.get_loops(), vec![vec![0, 2, 4], vec![1, 5, 3]]);
}

#[test]
fn refactor_names_a_dangling_pointer() {
    let mut hedron: Polyhedron<Pos> = Polyhedron::new();
    let a = hedron.add_vert([0.0, 0.0, 0.0]);
    let b = hedron.add_vert([1.0, 0.0, 0.0]);
    link(&mut hedron, a, b, None, None).unwrap();
    hedron.verts.delete(a);
    let err = hedron.refactor().unwrap_err();
    assert_eq!(err, PtrError { kind: PtrKind::Vert, expected: 0 });
}

#[test]
fn add_two_graphs() {
    let mut left: Polyhedron<Pos> = Polyhedron::new();
    let a = left.add_vert([0.0, 0.0, 0.0]);
    let b = left.add_vert([1.0, 0.0, 0.0]);
    link(&mut left, a, b, None, None).unwrap();
    let joined = left.add(triangle()).unwrap();
    assert_eq!(joined.verts.len(), 5);
    assert_eq!(joined.edges.len(), 8);
    assert_eq!(
        *joined.edge(2),
        HalfEdge { from: 2, next: 4, twin: 3, face: None }
    );
    assert_eq!(joined.vert(2).edge, Some(2));
    assert_eq!(
        joined.get_loops(),
        vec![vec![0, 1], vec![2, 4, 6], vec![3, 7, 5]]
    );
}

#[test]
fn delete_an_edge() {
    let mut hedron = triangle();
    assert_eq!(hedron.edges_between_triangles(), vec![0, 2, 4]);
    hedron.delete_edge(4);
    assert_eq!(*hedron.edge(1), HalfEdge { from: 1, next: 0, twin: 0, face: None });
    assert_eq!(*hedron.edge(2), HalfEdge { from: 1, next: 3, twin: 3, face: None });
    assert_eq!(hedron.edges.get(4), None);
    assert_eq!(hedron.edges.get(5), None);
    assert_eq!(hedron.vert(0).edge, Some(0));
    assert_eq!(hedron.vert(2).edge, Some(3));
    assert_eq!(hedron.get_loops(), vec![vec![0, 2, 3, 1]]);
    assert!(hedron.data_is_fragmented());
    assert_eq!(hedron.edges_between_triangles(), Vec::<usize>::new());
}

#[test]
fn refactor_keeps_loops() {
    let mut hedron = triangle();
    hedron.delete_edge(0);
    assert_eq!(hedron.get_loop(2), vec![2, 4, 5, 3]);
    assert_eq!(hedron.vert(0).edge, Some(5));
    assert_eq!(hedron.vert(1).edge, Some(2));
    let mapping = hedron.edges.get_refactor_mapping();
    let packed = hedron.refactor().unwrap();
    let moved: Vec<usize> = vec![2, 4, 5, 3].iter().map(|e| mapping[e]).collect();
    assert_eq!(moved, vec![0, 2, 3, 1]);
    assert_eq!(packed.get_loop(mapping[&2]), moved);
    assert_eq!(*packed.edge(3), HalfEdge { from: 0, next: 1, twin: 2, face: None });
    assert_eq!(packed.vert(0).edge, Some(3));
}

#[test]
fn dual_links_of_a_capped_triangle() {
    let mut hedron = triangle();
    let normal = [0.0, 0.0, 1.0];
    assert_eq!(hedron.cap_loop(&vec![0, 2, 4], [0.3, 0.3, 0.0], normal), Some(0));
    assert_eq!(hedron.dual_links(), Vec::<(usize, usize)>::new());
    assert_eq!(hedron.cap_loop(&vec![1, 5, 3], [0.3, 0.3, 0.0], normal), Some(1));
    assert_eq!(
        hedron.dual_links(),
        vec![(0, 1), (0, 1), (0, 1), (1, 0), (1, 0), (1, 0)]
    );
}

#[test]
fn random_quad_candidates() {
    let hedron = triangle();
    for _ in 0..20 {
        let e = hedron.random_quad_candidate().unwrap();
        assert!(e == 0 || e == 2 || e == 4);
    }
    let mut line: Polyhedron<Pos> = Polyhedron::new();
    let a = line.add_vert([0.0, 0.0, 0.0]);
    let b = line.add_vert([1.0, 0.0, 0.0]);
    link(&mut line, a, b, None, None).unwrap();
    assert_eq!(line.random_quad_candidate(), None);
}

#[test]
fn refactor_names_dangling_edges_and_faces() {
    let mut hedron: Polyhedron<Pos> = Polyhedron::new();
    let a = hedron.add_vert([0.0, 0.0, 0.0]);
    let b = hedron.add_vert([1.0, 0.0, 0.0]);
    link(&mut hedron, a, b, None, None).unwrap();
    hedron.edges.delete(0);
    assert_eq!(
        hedron.refactor().unwrap_err(),
        PtrError { kind: PtrKind::Edge, expected: 0 }
    );

    let mut capped = triangle();
    capped.cap_loop(&vec![0, 2, 4], [0.0, 0.0, 0.0], [0.0, 0.0, 1.0]).unwrap();
    capped.faces.delete(0);
    assert_eq!(
        capped.refactor().unwrap_err(),
        PtrError { kind: PtrKind::Face, expected: 0 }
    );
}

#[test]
fn add_vert_takes_the_last_freed_slot() {
    let mut hedron: Polyhedron<Pos> = Polyhedron::new();
    assert_eq!(hedron.add_vert([0.0, 0.0, 0.0]), 0);
    assert_eq!(hedron.add_vert([1.0, 0.0, 0.0]), 1);
    assert_eq!(hedron.add_vert([2.0, 0.0, 0.0]), 2);
    hedron.verts.delete(2);
    hedron.verts.delete(0);
    assert_eq!(hedron.add_vert([3.0, 0.0, 0.0]), 0);
    assert_eq!(hedron.vert(0).pos, [3.0, 0.0, 0.0]);
    assert_eq!(hedron.vert(0).edge, None);
    assert_eq!(hedron.add_vert([4.0, 0.0, 0.0]), 2);
    assert_eq!(hedron.add_vert([5.0, 0.0, 0.0]), 3);
}

#[test]
fn add_shifts_face_edges_by_the_edge_count() {
    let mut left: Polyhedron<Pos> = Polyhedron::new();
    let a = left.add_vert([0.0, 0.0, 0.0]);
    let b = left.add_vert([1.0, 0.0, 0.0]);
    link(&mut left, a, b, None, None).unwrap();
    let mut capped = triangle();
    capped.cap_loop(&vec![0, 2, 4], [0.3, 0.3, 0.0], [0.0, 0.0, 1.0]).unwrap();
    let joined = left.add(capped).unwrap();
    assert_eq!(joined.faces.len(), 1);
    assert_eq!(joined.face(0).edge, 2);
    assert_eq!(joined.edge(2).face, Some(0));
    assert_eq!(joined.edge(4).face, Some(0));
    assert_eq!(joined.get_loop(joined.face(0).edge), vec![2, 4, 6]);
}

#[test]
fn refactor_names_the_first_dangling_pointer() {
    let mut hedron: Polyhedron<Pos> = Polyhedron::new();
    let a = hedron.add_vert([0.0, 0.0, 0.0]);
    let b = hedron.add_vert([1.0, 0.0, 0.0]);
    let c = hedron.add_vert([2.0, 0.0, 0.0]);
    link(&mut hedron, a, b, None, None).unwrap();
    link(&mut hedron, b, c, Some((0, 0)), None).unwrap();
    hedron.verts.delete(c);
    hedron.edges.delete(0);
    assert_eq!(
        hedron.refactor().unwrap_err(),
        PtrError { kind: PtrKind::Edge, expected: 0 }
    );
}

#[test]
fn ptr_error_message() {
    assert_eq!(
        PtrError::new(PtrKind::Edge, 3).to_string(),
        "Polyhedron ptr error: Edge ptr expected: 3"
    );
    assert_eq!(
        PtrError::new(PtrKind::Vert, 0).to_string(),
        "Polyhedron ptr error: Vert ptr expected: 0"
    );
    assert_eq!(
        PtrError::new(PtrKind::Face, 1205).to_string(),
        "Polyhedron ptr error: Face ptr expected: 1205"
    );
}

#[test]
fn random_quads_of_a_triangle() {
    let mut hedron = triangle();
    assert_eq!(hedron.make_random_quads(), Some(1));
    assert_eq!(hedron.edges.len(), 4);
    assert_eq!(hedron.get_loops().len(), 1);
    assert_eq!(hedron.get_loops()[0].len(), 4);
    assert_eq!(hedron.random_quad_candidate(), None);

    let mut line: Polyhedron<Pos> = Polyhedron::new();
    let a = line.add_vert([0.0, 0.0, 0.0]);
    let b = line.add_vert([1.0, 0.0, 0.0]);
    link(&mut line, a, b, None, None).unwrap();
    assert_eq!(line.make_random_quads(), Some(0));

    let mut capped = triangle();
    capped.cap_loop(&vec![0, 2, 4], [0.3, 0.3, 0.0], [0.0, 0.0, 1.0]).unwrap();
    assert_eq!(capped.make_random_quads(), None);
}

#[test]
fn disks_close_around_a_triangle() {
    let hedron = triangle();
    assert!(hedron.disk_closes_check(0));
    assert!(hedron.disk_closes_check(1));
    assert!(hedron.disk_closes_check(2));
}

#[test]
fn open_disks_and_deletable_edges() {
    let mut hedron = triangle();
    assert!(hedron.deletable_check(0));
    assert!(hedron.orbit_closes_check(0));
    hedron.edges.set(1, HalfEdge { from: 1, next: 2, twin: 0, face: None });
    assert!(!hedron.disk_closes_check(0));
    assert!(!hedron.orbit_closes_check(0));
    assert!(hedron.orbit_closes_check(2));

    let mut capped = triangle();
    capped.cap_loop(&vec![0, 2, 4], [0.3, 0.3, 0.0], [0.0, 0.0, 1.0]).unwrap();
    assert!(!capped.deletable_check(0));
}
