//! Path-tracing core: order keys for single-precision distances, bounding
//! volume hierarchy construction and nearest-hit search, the span of a ray
//! inside a medium, per-pixel seeding, and the integer side of the textures.
pub mod bvh;
pub mod medium;
pub mod order;
pub mod sampling;
pub mod sort;
pub mod texture;
