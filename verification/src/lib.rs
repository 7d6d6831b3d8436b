//! Hedron: discrete data structures and integer tools for 3D modelling
//! and procedural generation.
pub mod data;
pub mod lines;
pub mod math;
pub mod raster;
pub mod smoothing;
pub mod solid;
pub mod text;
