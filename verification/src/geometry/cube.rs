//! An axis-aligned box made of six rectangles.

use vstd::prelude::*;
use crate::geometry::rectangular::{placed, AARect, Plane};
use crate::utility::aabb::Aabb;
use crate::utility::scalar::Point;

verus! {

/// A box between two opposite corners, with its six sides.
pub struct Cube {
    pub cube_min: Point,
    pub cube_max: Point,
    pub sides: Vec<AARect>,
}

/// The six sides of the box between the corners `p0` and `p1`: for each
/// of the three planes the side at the coordinate of `p1` and then the
/// side at the coordinate of `p0`, each reaching from `p0` to `p1` on the
/// two axes of its plane.
pub open spec fn sides_of(p0: Point, p1: Point) -> Seq<AARect> {
    seq![
        AARect { plane: Plane::XY, a0: p0.x, a1: p1.x, b0: p0.y, b1: p1.y, k: p1.z },
        AARect { plane: Plane::XY, a0: p0.x, a1: p1.x, b0: p0.y, b1: p1.y, k: p0.z },
        AARect { plane: Plane::XZ, a0: p0.x, a1: p1.x, b0: p0.z, b1: p1.z, k: p1.y },
        AARect { plane: Plane::XZ, a0: p0.x, a1: p1.x, b0: p0.z, b1: p1.z, k: p0.y },
        AARect { plane: Plane::YZ, a0: p0.y, a1: p1.y, b0: p0.z, b1: p1.z, k: p1.x },
        AARect { plane: Plane::YZ, a0: p0.y, a1: p1.y, b0: p0.z, b1: p1.z, k: p0.x },
    ]
}

impl Cube {
    /// Makes the box between the corners `p0` and `p1`.
    pub fn new(p0: Point, p1: Point) -> (cube: Cube)
        ensures
            cube.cube_min == p0,
            cube.cube_max == p1,
            cube.sides@ == sides_of(p0, p1),
    {
        let mut sides: Vec<AARect> = Vec::new();
        sides.push(AARect::new(Plane::XY, p0.x, p1.x, p0.y, p1.y, p1.z));
        sides.push(AARect::new(Plane::XY, p0.x, p1.x, p0.y, p1.y, p0.z));
        sides.push(AARect::new(Plane::XZ, p0.x, p1.x, p0.z, p1.z, p1.y));
        sides.push(AARect::new(Plane::XZ, p0.x, p1.x, p0.z, p1.z, p0.y));
        sides.push(AARect::new(Plane::YZ, p0.y, p1.y, p0.z, p1.z, p1.x));
        sides.push(AARect::new(Plane::YZ, p0.y, p1.y, p0.z, p1.z, p0.x));
        assert(sides@ =~= sides_of(p0, p1));
        Cube { cube_min: p0, cube_max: p1, sides }
    }

    /// Returns the box itself, as the box around it.
    pub fn bounding_box(&self) -> (b: Aabb)
        ensures
            b == (Aabb { min: self.cube_min, max: self.cube_max }),
    {
        Aabb { min: self.cube_min, max: self.cube_max }
    }
}

/// Every point of every side of a box lies in the box.
pub proof fn lemma_cube_holds_its_sides(p0: Point, p1: Point, side: int, a: i64, b: i64)
    requires
        p0.below(p1),
        0 <= side < 6,
        sides_of(p0, p1)[side].holds(a, b),
    ensures
        (Aabb { min: p0, max: p1 }).holds(
            placed(sides_of(p0, p1)[side].plane, sides_of(p0, p1)[side].k, a, b),
        ),
{
}

} // verus!
