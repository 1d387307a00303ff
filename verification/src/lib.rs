//! A Barnes-Hut n-body force simulation over exact fixed-point (integer)
//! arithmetic: axis-aligned bounding boxes and quadrants, an aggregation
//! quadtree built per step, an admissibility-driven force traversal, and a
//! semi-implicit Euler integrator with reflective boundaries.

pub mod constants;
pub mod physics;
pub mod quadtree;

