//! Planar computational geometry over exact integer coordinates:
//! closest-pair search (brute force and divide and conquer), convex hull
//! by Graham scan, line-segment intersection tests, and a k-d tree for
//! nearest-neighbor queries.
//!
//! All coordinates are bounded integers (see [`point::COORD_LIMIT`]), so
//! every squared distance and cross product is computed exactly in `i64`.
//! Distance comparisons are made on squared distances, which order the
//! same way as the distances themselves.

pub mod closest_pair;
pub mod hull;
pub mod kdtree;
pub mod order;
pub mod pairs;
pub mod point;
pub mod segment;

pub use closest_pair::ClosestPairResult;
pub use closest_pair::closest_pair_brute_force;
pub use closest_pair::closest_pair_divide_conquer;
pub use hull::convex_hull_graham_scan;
pub use kdtree::KdTree;
pub use point::COORD_LIMIT;
pub use point::Point;
pub use segment::LineSegment;
pub use segment::find_intersecting_segments;
