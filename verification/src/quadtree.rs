//! The spatial index: axis-aligned bounding boxes with quadrant
//! subdivision, and the aggregation quadtree built from them.

pub mod boundingbox;
pub mod tree;

pub use boundingbox::BoundingBox;
pub use tree::ParticleQuadtree;
