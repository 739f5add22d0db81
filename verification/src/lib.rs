//! The discrete core of a path tracer.
//!
//! Every quantity that the renderer measures (a coordinate, a ray parameter,
//! an extent) reaches this crate as a [`utility::scalar::Scalar`]: a signed
//! integer whose order is the order of the measured values. The crate
//! compares scalars and selects among them; it never does arithmetic on
//! them, so any strictly increasing encoding of the caller's numbers will
//! do. What takes arithmetic on the measured values themselves (where a ray
//! meets a surface, how far a box extends) the crate asks of its caller, one
//! question at a time, and decides from the answers.

pub mod geometry;
pub mod integrator;
pub mod texture;
pub mod utility;
