pub mod polyhedron;
pub mod tri_mesh;
pub mod mesh;
pub mod relink;
pub mod mesh_build;
pub mod obj;
