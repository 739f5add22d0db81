//! Rotation about a coordinate axis.

use vstd::prelude::*;

verus! {

/// The coordinate axis that a rotation turns about.
#[derive(Debug, Clone, Copy, PartialEq, Eq, Structural)]
pub enum RotateAxis {
    X,
    Y,
    Z,
}

impl RotateAxis {
    /// The three coordinate indices as a rotation about `axis` uses them:
    /// first the index of the axis itself, which the rotation leaves alone,
    /// then the two indices that it mixes.
    pub open spec fn axis_index(self) -> (usize, usize, usize) {
        match self {
            RotateAxis::X => (0, 1, 2),
            RotateAxis::Y => (1, 0, 2),
            RotateAxis::Z => (2, 0, 1),
        }
    }

    /// Returns the index of the fixed axis followed by the indices of the
    /// two axes that span the plane of rotation, the lower one first.
    pub fn get_axis_index(axis: &RotateAxis) -> (idx: (usize, usize, usize))
        ensures
            idx == axis.axis_index(),
    {
        match axis {
            RotateAxis::X => (0, 1, 2),
            RotateAxis::Y => (1, 0, 2),
            RotateAxis::Z => (2, 0, 1),
        }
    }
}

} // verus!
