pub mod grid;
pub mod grid2;
pub mod grid_tri;
pub mod ivec;
pub mod pool;
