//! The rule by which the radiance along a ray is put together.
//!
//! A path is followed from surface to surface for as long as surfaces
//! scatter it, but over no more than a given number of surfaces, its depth.

use vstd::prelude::*;

verus! {

/// What a ray met in the scene.
#[derive(Debug, Clone, Copy, PartialEq, Eq, Structural)]
pub enum Surface {
    /// Nothing: the ray left the scene.
    Nothing,
    /// A surface that does not scatter the ray.
    Absorbing,
    /// A surface that scatters the ray.
    Scattering,
}

/// What the radiance along a ray is made of.
#[derive(Debug, Clone, Copy, PartialEq, Eq, Structural)]
pub enum Radiance {
    /// Nothing: the path is cut off here.
    Black,
    /// The background of the scene.
    Background,
    /// What the surface emits.
    Emitted,
    /// What the surface emits, and the radiance along the scattered ray
    /// weighted by the attenuation of the surface; the scattered ray is to
    /// be followed with the depth `depth`.
    Scattered { depth: u64 },
}

/// The make-up of the radiance along a ray that is followed with the depth
/// `depth` and meets `surface`.
pub open spec fn radiance_of(depth: u64, surface: Surface) -> Radiance {
    if depth == 0 {
        Radiance::Black
    } else {
        match surface {
            Surface::Nothing => Radiance::Background,
            Surface::Absorbing => Radiance::Emitted,
            Surface::Scattering => Radiance::Scattered { depth: (depth - 1) as u64 },
        }
    }
}

/// Tells whether a ray followed with the depth `depth` is cut off before it
/// is sent into the scene.
pub fn cut_off(depth: u64) -> (cut: bool)
    ensures
        cut == (depth == 0),
        cut ==> forall|surface: Surface| radiance_of(depth, surface) == Radiance::Black,
{
    depth == 0
}

/// Returns what the radiance along a ray is made of, given the depth with
/// which the ray is followed and what it met. With depth 0 the ray
/// contributes nothing, whatever it met.
pub fn ray_color(depth: u64, surface: Surface) -> (radiance: Radiance)
    ensures
        radiance == radiance_of(depth, surface),
        radiance matches Radiance::Scattered { depth: deeper } ==> deeper < depth,
{
    if depth == 0 {
        return Radiance::Black;
    }
    match surface {
        Surface::Nothing => Radiance::Background,
        Surface::Absorbing => Radiance::Emitted,
        Surface::Scattering => Radiance::Scattered { depth: depth - 1 },
    }
}

/// The number of rays that are sent into the scene along a path followed
/// with the depth `depth`, when the ray sent after `sent` others meets
/// `met(sent)`.
pub open spec fn rays_sent(depth: u64, met: spec_fn(nat) -> Surface, sent: nat) -> nat
    decreases depth,
{
    match radiance_of(depth, met(sent)) {
        Radiance::Black => 0,
        Radiance::Background => 1,
        Radiance::Emitted => 1,
        Radiance::Scattered { depth: deeper } => 1 + rays_sent(deeper, met, sent + 1),
    }
}

/// A path never sends more rays into the scene than its depth, whatever
/// the rays meet.
pub proof fn lemma_path_is_bounded_by_depth(depth: u64, met: spec_fn(nat) -> Surface, sent: nat)
    ensures
        rays_sent(depth, met, sent) <= depth,
    decreases depth,
{
    if depth > 0 {
        lemma_path_is_bounded_by_depth((depth - 1) as u64, met, sent + 1);
    }
}

} // verus!
