//! Grid layout: line coordinates, items, tracks, and track sizing.

pub mod coordinates;
pub mod distribute;
pub mod track_sizing;
pub mod types;
