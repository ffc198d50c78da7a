//! A data structure for inserting and querying elements located in 2D space.
//!
//! Coordinates are integers. A node of the tree covers a bounded area; once a
//! node holds more elements than its capacity it splits into four quadrants,
//! and every element that fits entirely inside one quadrant moves down into it.
pub mod bounds;
pub mod quadtree;

pub use bounds::{Bounded, Bounds, Quadrant};
pub use quadtree::items::Items;
pub use quadtree::query::QueryItems;
pub use quadtree::QuadTree;
