pub mod geometry;
pub mod host;
pub mod sight;
pub mod sweep;

pub use geometry::{closest_intersect, get_intersection, Intersection, Point, Ray, Segment};
pub use host::WasmSight;
pub use sight::{unique_points_from_segments, Sight};
