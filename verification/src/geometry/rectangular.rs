//! Rectangles that lie in a plane perpendicular to a coordinate axis.

use vstd::prelude::*;
use crate::utility::aabb::Aabb;
use crate::utility::scalar::{Point, Scalar};

verus! {

/// The pair of axes that an axis-aligned rectangle spans.
#[derive(Debug, Clone, Copy, PartialEq, Eq, Structural)]
pub enum Plane {
    XY,
    XZ,
    YZ,
}

impl Plane {
    /// The three coordinate indices as a rectangle in this plane uses
    /// them: first the index of the axis that the rectangle is
    /// perpendicular to, then the indices of the two axes that it spans,
    /// the lower one first.
    pub open spec fn axis_index(self) -> (usize, usize, usize) {
        match self {
            Plane::YZ => (0, 1, 2),
            Plane::XZ => (1, 0, 2),
            Plane::XY => (2, 0, 1),
        }
    }
}

/// Returns the index of the axis perpendicular to `plane`, followed by the
/// indices of the two axes that span it, the lower one first. Between them
/// the three are the three axes.
pub fn get_axis_index(plane: &Plane) -> (idx: (usize, usize, usize))
    ensures
        idx == plane.axis_index(),
        idx.0 < 3 && idx.1 < 3 && idx.2 < 3,
        idx.0 != idx.1 && idx.0 != idx.2 && idx.1 < idx.2,
{
    match plane {
        Plane::YZ => (0, 1, 2),
        Plane::XZ => (1, 0, 2),
        Plane::XY => (2, 0, 1),
    }
}

/// The point that has the coordinate `k` on the axis perpendicular to
/// `plane` and the coordinates `a` and `b` on the two axes that span it.
pub open spec fn placed(plane: Plane, k: Scalar, a: Scalar, b: Scalar) -> Point {
    match plane {
        Plane::YZ => Point { x: k, y: a, z: b },
        Plane::XZ => Point { x: a, y: k, z: b },
        Plane::XY => Point { x: a, y: b, z: k },
    }
}

/// An axis-aligned rectangle: it lies in the plane where the coordinate
/// perpendicular to `plane` is `k`, and reaches from `a0` to `a1` on the
/// first axis of the plane and from `b0` to `b1` on the second.
#[derive(Debug, Clone, Copy, PartialEq, Eq, Structural)]
pub struct AARect {
    pub plane: Plane,
    pub a0: Scalar,
    pub a1: Scalar,
    pub b0: Scalar,
    pub b1: Scalar,
    pub k: Scalar,
}

impl AARect {
    /// Whether the position `(a, b)` in the plane lies on the rectangle,
    /// edges included.
    pub open spec fn holds(self, a: Scalar, b: Scalar) -> bool {
        self.a0 <= a <= self.a1 && self.b0 <= b <= self.b1
    }

    /// Makes the rectangle with the given plane and extent.
    pub fn new(plane: Plane, a0: Scalar, a1: Scalar, b0: Scalar, b1: Scalar, k: Scalar) -> (r:
        AARect)
        ensures
            r == (AARect { plane, a0, a1, b0, b1, k }),
    {
        AARect { plane, a0, a1, b0, b1, k }
    }

    /// Tells whether a ray that meets the plane of the rectangle at the
    /// position `(a, b)` meets the rectangle.
    pub fn in_bounds(&self, a: Scalar, b: Scalar) -> (inside: bool)
        ensures
            inside == self.holds(a, b),
    {
        !(a < self.a0 || a > self.a1 || b < self.b0 || b > self.b1)
    }

    /// Returns the box around the rectangle. A flat box would defeat the
    /// slab test, so the box reaches from `k_lo` to `k_hi` on the axis
    /// perpendicular to the rectangle: the caller passes the coordinate of
    /// the plane with a little taken off and a little added.
    pub fn bounding_box(&self, k_lo: Scalar, k_hi: Scalar) -> (b: Aabb)
        ensures
            b.min == placed(self.plane, k_lo, self.a0, self.b0),
            b.max == placed(self.plane, k_hi, self.a1, self.b1),
    {
        match self.plane {
            Plane::YZ => Aabb {
                min: Point { x: k_lo, y: self.a0, z: self.b0 },
                max: Point { x: k_hi, y: self.a1, z: self.b1 },
            },
            Plane::XZ => Aabb {
                min: Point { x: self.a0, y: k_lo, z: self.b0 },
                max: Point { x: self.a1, y: k_hi, z: self.b1 },
            },
            Plane::XY => Aabb {
                min: Point { x: self.a0, y: self.b0, z: k_lo },
                max: Point { x: self.a1, y: self.b1, z: k_hi },
            },
        }
    }
}

/// A point placed by plane has its three coordinates on the axes that
/// `get_axis_index` names for the plane.
pub proof fn lemma_placed_by_axis_index(plane: Plane, k: Scalar, a: Scalar, b: Scalar)
    ensures
        placed(plane, k, a, b).at(plane.axis_index().0 as int) == k,
        placed(plane, k, a, b).at(plane.axis_index().1 as int) == a,
        placed(plane, k, a, b).at(plane.axis_index().2 as int) == b,
{
}

/// Every point of a rectangle lies in the box around it, as long as the
/// box takes in the plane of the rectangle.
pub proof fn lemma_rect_box_holds_rect(r: AARect, k_lo: Scalar, k_hi: Scalar, a: Scalar, b: Scalar)
    requires
        k_lo <= r.k <= k_hi,
        r.holds(a, b),
    ensures
        (Aabb {
            min: placed(r.plane, k_lo, r.a0, r.b0),
            max: placed(r.plane, k_hi, r.a1, r.b1),
        }).holds(placed(r.plane, r.k, a, b)),
{
}

} // verus!
