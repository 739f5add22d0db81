//! Scalars, points, axis-aligned boxes and random choices.

pub mod aabb;
pub mod random;
pub mod scalar;
