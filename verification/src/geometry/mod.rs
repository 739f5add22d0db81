//! Shapes as far as they can be told apart by order alone: the axes they are
//! aligned to, the boxes around them, and the search for the nearest of them
//! along a ray.

pub mod bvh;
pub mod constantmedium;
pub mod cube;
pub mod hittablelist;
pub mod mesh;
pub mod nearest;
pub mod rectangular;
pub mod rotate;
pub mod sphere;
