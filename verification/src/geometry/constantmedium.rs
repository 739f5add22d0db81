//! The stretch of a ray that runs inside a participating medium.

use vstd::prelude::*;
use crate::utility::scalar::{ffmax, ffmin, max_of, min_of, Scalar};

verus! {

/// The stretch of a search from `t_min` to `t_max` that runs inside a
/// medium which the ray enters at `entry` and leaves at `exit`: from the
/// later of `entry` and `t_min` to the earlier of `exit` and `t_max`, if
/// the ray meets the boundary twice and that stretch has a length.
pub open spec fn span_of(entry: Option<Scalar>, exit: Option<Scalar>, t_min: Scalar, t_max: Scalar)
    -> Option<(Scalar, Scalar)> {
    match (entry, exit) {
        (Some(t1), Some(t2)) => if max_of(t1 as int, t_min as int) < min_of(t2 as int, t_max as int) {
            Some((max_of(t1 as int, t_min as int) as Scalar, min_of(t2 as int, t_max as int) as Scalar))
        } else {
            None
        },
        _ => None,
    }
}

/// Returns the stretch of the search that runs inside the medium, given
/// where the ray first meets the boundary of the medium and where it meets
/// it again after that, each `None` if it does not.
pub fn span(entry: Option<Scalar>, exit: Option<Scalar>, t_min: Scalar, t_max: Scalar) -> (inside:
    Option<(Scalar, Scalar)>)
    ensures
        inside == span_of(entry, exit, t_min, t_max),
{
    match entry {
        Some(t1) => match exit {
            Some(t2) => {
                let from = ffmax(t1, t_min);
                let to = ffmin(t2, t_max);
                if from < to {
                    Some((from, to))
                } else {
                    None
                }
            },
            None => None,
        },
        None => None,
    }
}

} // verus!
