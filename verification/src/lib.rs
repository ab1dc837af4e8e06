//! Combinatorial core of a walk through a {4,5} tiling of hyperbolic space.

pub mod coloring;
pub mod discovery;
pub mod layout;
pub mod mesh;
pub mod screenshot;
