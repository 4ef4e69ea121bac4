//! The ordering, bounding and scene-partitioning logic of a CPU ray tracer.
//!
//! Coordinates and times are double-precision numbers, held here by their
//! IEEE 754 encoding ([`scalar::Scalar`]); what the library decides from them
//! (which side of a box a value lies on, which boxes enclose which, how a scene
//! is split into a hierarchy) is proved against the IEEE comparison rules.

pub mod bound;
pub mod bvh;
pub mod hit;
pub mod interval;
pub mod nearest;
pub mod scalar;
pub mod scene;

pub use bound::BoundingBox;
pub use hit::Face;
pub use interval::Interval;
pub use scalar::Scalar;
pub use bvh::{sort_along_axis, SceneTree};
pub use scene::SceneList;
