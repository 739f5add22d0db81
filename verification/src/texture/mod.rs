//! What textures look up by whole numbers: the lattice of gradient noise and
//! the pixels of an image.

pub mod perlin;
pub mod texture;
