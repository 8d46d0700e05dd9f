//! A point-region quadtree over an integer plane.
//!
//! Entries are caller-owned values that expose a position; the tree keeps
//! shared references to them, splits a node into four quadrants once it is
//! full, and answers rectangular range queries.

pub mod geometry;
pub mod tree;

pub use geometry::{Point, Positioned, Rectangle};
pub use tree::{InsertError, Quadtree, NODE_CAPACITY};
