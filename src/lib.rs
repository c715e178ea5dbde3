//! A block-programming canvas engine: an index-addressed arena of block
//! records, with snapping, cascading repositioning and subtree deletion.
pub mod geometry;
pub mod model;
pub mod colour;
pub mod arena;
pub mod laws;
