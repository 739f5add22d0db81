//! Which of the two places where a ray meets a sphere counts as the hit.

use vstd::prelude::*;
use crate::geometry::nearest::{admits, clip};
use crate::utility::scalar::Scalar;

verus! {

/// The parameter at which a search from `t_min` up to `t_max` finds a
/// sphere that the ray enters at `near` and leaves at `far`: the place
/// where the ray enters if the search admits it, else the place where it
/// leaves if the search admits that, else none.
pub open spec fn root_of(near: int, far: int, t_min: int, t_max: int) -> Option<int> {
    if admits(t_min, t_max, near) {
        Some(near)
    } else if admits(t_min, t_max, far) {
        Some(far)
    } else {
        None
    }
}

/// Returns the parameter at which a ray hits a sphere, given the two
/// parameters at which the ray meets the surface, or `None` if the search
/// admits neither.
pub fn nearest_root(near: Scalar, far: Scalar, t_min: Scalar, t_max: Scalar) -> (root: Option<
    Scalar,
>)
    ensures
        match root {
            Some(t) => root_of(near as int, far as int, t_min as int, t_max as int) == Some(
                t as int,
            ),
            None => root_of(near as int, far as int, t_min as int, t_max as int) is None,
        },
{
    if t_min < near && near <= t_max {
        Some(near)
    } else if t_min < far && far <= t_max {
        Some(far)
    } else {
        None
    }
}

/// A sphere answers with its nearest hit: under a lower limit it gives the
/// same answer if that still lies within the limit, and none otherwise.
pub proof fn lemma_sphere_answers_nearest(near: int, far: int, t_min: int, top: int, limit: int)
    requires
        near <= far,
        limit <= top,
    ensures
        root_of(near, far, t_min, limit) == clip(root_of(near, far, t_min, top), limit),
{
}

} // verus!
