use hedron::smoothing::State;
use hedron::solid::polyhedron::{HalfEdge, PtrError, PtrKind};
use hedron::solid::tri_mesh::{Indexing, OneOrMany, TriCorner, TriMesh};

#[test]
fn face_normal_of_corners() {
    let a = TriCorner::new(0, 1, 4);
    let b = TriCorner::new(2, 3, 4);
    let c = TriCorner::new(5, 6, 4);
    assert_eq!(TriCorner::try_get_face_normal(&(a, b, c)), Some(4));
    let d = TriCorner::uniform(3);
    assert_eq!((d.v(), d.uv(), d.n()), (3, 3, 3));
    assert_eq!(TriCorner::try_get_face_normal(&(a, b, d)), None);
    assert_eq!(d.with_n(9).n(), 9);
}

#[test]
fn indexing_accessors() {
    let mut uni = Indexing::Uniform(vec![0, 1, 2]);
    assert_eq!(uni.uniform(), Some(&vec![0, 1, 2]));
    assert!(uni.hetero().is_none());
    uni.uniform_mut().unwrap().push(3);
    assert_eq!(uni.uniform(), Some(&vec![0, 1, 2, 3]));
    let mut het = Indexing::Hetero(vec![TriCorner::uniform(1)]);
    assert!(het.uniform_mut().is_none());
    het.hetero_mut().unwrap().push(TriCorner::uniform(2));
    assert_eq!(het.hetero().unwrap().len(), 2);
    assert!(Indexing::Linear.uniform().is_none());
}

#[test]
fn ptr_error_and_half_edge() {
    let e = PtrError::new(PtrKind::Edge, 12);
    assert_eq!(e.kind, PtrKind::Edge);
    assert_eq!(e.expected, 12);
    let h = HalfEdge { from: 1, next: 2, twin: 3, face: None };
    assert_eq!(h.face, None);
    assert_ne!(State::Running, State::Finished);
}

fn many<T: Copy>(o: &OneOrMany<T>) -> Vec<T> {
    match o {
        OneOrMany::Many(v) => v.clone(),
        OneOrMany::One(_) => panic!("expected a list"),
    }
}

#[test]
fn uniform_mesh_to_linear() {
    let mesh: TriMesh<i32, i32, i32> = TriMesh::new(
        vec![10, 20, 30, 40],
        Indexing::Uniform(vec![0, 1, 2, 2, 1, 3]),
        OneOrMany::One(7),
        OneOrMany::Many(vec![100, 200, 300, 400]),
        Some(vec![1, 2, 3]),
    );
    assert_eq!(mesh.tri_count(), 6);
    let linear = mesh.to_linear();
    assert!(matches!(linear.tri, Indexing::Linear));
    assert_eq!(linear.verts, vec![10, 20, 30, 30, 20, 40]);
    assert!(matches!(linear.uvs, OneOrMany::One(7)));
    assert_eq!(many(&linear.normals), vec![100, 200, 300, 300, 200, 400]);
    assert!(linear.neighbors.is_none());
    assert_eq!(linear.tri_count(), 2);
}

#[test]
fn hetero_mesh_to_linear() {
    let corners = vec![TriCorner::new(0, 1, 2), TriCorner::new(1, 0, 0), TriCorner::new(2, 2, 1)];
    let mesh: TriMesh<i32, i32, i32> = TriMesh::new(
        vec![1, 2, 3],
        Indexing::Hetero(corners),
        OneOrMany::Many(vec![10, 11, 12]),
        OneOrMany::Many(vec![20, 21, 22]),
        None,
    );
    let linear = mesh.to_linear();
    assert_eq!(linear.verts, vec![1, 2, 3]);
    assert_eq!(many(&linear.uvs), vec![11, 10, 12]);
    assert_eq!(many(&linear.normals), vec![22, 20, 21]);
}

#[test]
fn mesh_index_conversions() {
    let mesh: TriMesh<i32, i32, i32> = TriMesh::new(
        vec![1, 2, 3],
        Indexing::Uniform(vec![2, 0, 1]),
        OneOrMany::One(0),
        OneOrMany::One(0),
        None,
    );
    let hetero = mesh.to_hetero(&Vec::new());
    match &hetero.tri {
        Indexing::Hetero(h) => {
            assert_eq!(*h, vec![TriCorner::uniform(2), TriCorner::uniform(0), TriCorner::uniform(1)]);
        }
        _ => panic!("expected hetero indexing"),
    }
    let corners = vec![TriCorner::new(2, 0, 1), TriCorner::new(0, 1, 1), TriCorner::new(1, 1, 0)];
    let mesh: TriMesh<i32, i32, i32> = TriMesh::new(
        vec![1, 2, 3],
        Indexing::Hetero(corners),
        OneOrMany::One(0),
        OneOrMany::Many(vec![5, 6]),
        None,
    );
    let uniform = mesh.to_uniform(&Vec::new());
    match &uniform.tri {
        Indexing::Uniform(u) => assert_eq!(*u, vec![2, 0, 1]),
        _ => panic!("expected uniform indexing"),
    }
    assert_eq!(many(&uniform.normals), vec![5, 6]);
    assert_eq!(uniform.verts, vec![1, 2, 3]);
}

#[test]
fn one_or_many_get() {
    let one: OneOrMany<i32> = OneOrMany::One(4);
    assert_eq!(one.get(100), Some(&4));
    let list: OneOrMany<i32> = OneOrMany::Many(vec![1, 2]);
    assert_eq!(list.get(1), Some(&2));
    assert_eq!(list.get(2), None);
}

#[test]
fn linear_mesh_to_uniform_and_hetero() {
    let make = || -> TriMesh<i32, i32, i32> {
        TriMesh::new(
            vec![10, 20, 10, 30],
            Indexing::Linear,
            OneOrMany::Many(vec![1, 2, 3, 4]),
            OneOrMany::One(9),
            Some(vec![0]),
        )
    };
    let similar = vec![0, 1, 0, 3];
    let uniform = make().to_uniform(&similar);
    match &uniform.tri {
        Indexing::Uniform(u) => assert_eq!(*u, vec![0, 1, 3]),
        _ => panic!("expected uniform indexing"),
    }
    assert_eq!(uniform.verts, vec![10, 20, 30]);
    assert_eq!(many(&uniform.uvs), vec![1, 2, 4]);
    assert!(matches!(uniform.normals, OneOrMany::One(9)));
    assert!(uniform.neighbors.is_none());
    let hetero = make().to_hetero(&similar);
    match &hetero.tri {
        Indexing::Hetero(h) => {
            assert_eq!(*h, vec![TriCorner::uniform(0), TriCorner::uniform(1), TriCorner::uniform(3)]);
        }
        _ => panic!("expected hetero indexing"),
    }
    assert_eq!(hetero.verts, vec![10, 20, 30]);
}
