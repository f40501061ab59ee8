//! The layout algorithms.

pub mod block;
pub mod grid;
pub mod leaf;
pub mod rounding;
pub mod taffy_tree;
