//! A k-d tree over axis-aligned boxes on an integer grid, built with the
//! surface area heuristic.

pub mod geometry;
pub mod edge;
pub mod kdtree;

pub use edge::{edge_less, sort_edges, BoundEdge, EdgeType};
pub use geometry::{Bounds3i, COORD_LIMIT};
pub use kdtree::{
    log2_int, max_depth_for, refine_verdict, KdAccelNode, KdTreeAccel, KdTreeParams, BONUS_SCALE,
    MAX_PRIMITIVES,
};
