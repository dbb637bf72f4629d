//! A point quadtree: a spatial index over a bounded axis-aligned 2D integer
//! region, supporting point insertion, axis-aligned range queries, point
//! removal, and full reset.

pub mod laws;
pub mod quad;
pub mod rect;
