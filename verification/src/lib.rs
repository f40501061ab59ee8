//! A layout engine: lengths and their arithmetic, the style model, trees
//! of nodes, and the layout of leaves, block containers and grid tracks.

pub mod compute;
pub mod forest;
pub mod geometry;
pub mod math;
pub mod node;
pub mod scalar;
pub mod style;
pub mod tree;
