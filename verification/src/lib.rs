pub mod geometry;
pub mod quadtree;
pub mod quadtree_option;

pub use geometry::{Error, Point2D, Rectangle};
pub use quadtree::QuadTree;
pub use quadtree_option::QuadTree as QuadTreeOption;
