// A region quadtree over integer rectangles, built on free-list arenas with
// stable `i32` handles.
pub mod data;
pub mod free_list;
pub mod quad_tree;
pub mod query;

pub use data::{ElmRect, ElmRectNode, Node, Point, Rect};
pub use free_list::{FreeItem, FreeList};
pub use quad_tree::{Leaf, QuadTree};
pub use query::Query;
