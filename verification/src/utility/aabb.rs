//! Axis-aligned bounding boxes.

use vstd::prelude::*;
use crate::utility::scalar::{ffmax, ffmin, max_of, min_of, Point, Scalar};

verus! {

/// The two parameters at which a ray crosses the pair of parallel planes that
/// bound a box on one axis, in either order.
#[derive(Debug, Clone, Copy, PartialEq, Eq, Structural)]
pub struct Slab {
    pub t0: Scalar,
    pub t1: Scalar,
}

impl Slab {
    /// The parameter at which the ray comes between the two planes.
    pub open spec fn enter(self) -> int {
        min_of(self.t0 as int, self.t1 as int)
    }

    /// The parameter at which the ray leaves the space between them.
    pub open spec fn leave(self) -> int {
        max_of(self.t0 as int, self.t1 as int)
    }
}

/// Where a ray crosses the six planes of a box: one slab per axis.
#[derive(Debug, Clone, Copy, PartialEq, Eq, Structural)]
pub struct Crossings {
    pub x: Slab,
    pub y: Slab,
    pub z: Slab,
}

impl Crossings {
    /// The parameter from which on the ray is inside all three slabs and
    /// past `t_min`.
    pub open spec fn enter(self, t_min: int) -> int {
        max_of(max_of(t_min, self.x.enter()), max_of(self.y.enter(), self.z.enter()))
    }

    /// The parameter up to which the ray is inside all three slabs and not
    /// past `t_max`.
    pub open spec fn leave(self, t_max: int) -> int {
        min_of(min_of(t_max, self.x.leave()), min_of(self.y.leave(), self.z.leave()))
    }

    /// Whether the ray is inside the box over a stretch of parameters
    /// between `t_min` and `t_max`: it enters all three slabs before it
    /// leaves any of them.
    pub open spec fn overlap(self, t_min: int, t_max: int) -> bool {
        self.enter(t_min) < self.leave(t_max)
    }

    /// The slab test: tells whether a ray with these crossings passes
    /// through the box between `t_min` and `t_max`.
    pub fn hit(&self, t_min: Scalar, t_max: Scalar) -> (inside: bool)
        ensures
            inside == self.overlap(t_min as int, t_max as int),
    {
        let mut lo = t_min;
        let mut hi = t_max;
        lo = ffmax(lo, ffmin(self.x.t0, self.x.t1));
        hi = ffmin(hi, ffmax(self.x.t0, self.x.t1));
        if hi <= lo {
            return false;
        }
        lo = ffmax(lo, ffmin(self.y.t0, self.y.t1));
        hi = ffmin(hi, ffmax(self.y.t0, self.y.t1));
        if hi <= lo {
            return false;
        }
        lo = ffmax(lo, ffmin(self.z.t0, self.z.t1));
        hi = ffmin(hi, ffmax(self.z.t0, self.z.t1));
        lo < hi
    }
}

/// The slab test lets through every ray that is inside the box at a
/// parameter which the search admits, unless it is only just entering the
/// box there. That is why a box around something flat is made a little
/// thicker than what it holds.
pub proof fn lemma_slab_test_passes_a_ray_inside(c: Crossings, t_min: int, t_max: int, t: int)
    requires
        t_min < t <= t_max,
        c.x.enter() < t <= c.x.leave(),
        c.y.enter() < t <= c.y.leave(),
        c.z.enter() < t <= c.z.leave(),
    ensures
        c.overlap(t_min, t_max),
{
}

/// The slab test turns away fewer rays the farther the search reaches.
pub proof fn lemma_slab_test_is_monotone(c: Crossings, t_min: int, t_max: int, farther: int)
    requires
        t_max <= farther,
        c.overlap(t_min, t_max),
    ensures
        c.overlap(t_min, farther),
{
}

/// An axis-aligned box, given by its two extreme corners.
///
/// A box whose `min` is not below its `max` on some axis holds no point.
#[derive(Debug, Clone, Copy, PartialEq, Eq, Structural)]
pub struct Aabb {
    pub min: Point,
    pub max: Point,
}

impl Aabb {
    /// Whether `p` lies in the box, faces included.
    pub open spec fn holds(self, p: Point) -> bool {
        self.min.below(p) && p.below(self.max)
    }

    /// Whether the box reaches at least as far as `inner` in all six
    /// directions.
    pub open spec fn encloses(self, inner: Aabb) -> bool {
        self.min.below(inner.min) && inner.max.below(self.max)
    }

    /// The box that reaches exactly as far as the farther of `self` and
    /// `other` in each of the six directions.
    pub open spec fn union(self, other: Aabb) -> Aabb {
        Aabb { min: self.min.lower(other.min), max: self.max.upper(other.max) }
    }

    /// Makes the box with corners `min` and `max`.
    pub fn new(min: Point, max: Point) -> (b: Aabb)
        ensures
            b == (Aabb { min, max }),
    {
        Aabb { min, max }
    }

    /// Returns the corner with the smallest coordinates.
    pub fn get_min(&self) -> (p: Point)
        ensures
            p == self.min,
    {
        self.min
    }

    /// Returns the corner with the largest coordinates.
    pub fn get_max(&self) -> (p: Point)
        ensures
            p == self.max,
    {
        self.max
    }

    /// The box that holds the point `p` and nothing else.
    pub open spec fn of_point(p: Point) -> Aabb {
        Aabb { min: p, max: p }
    }

    /// Corner number `n` of the box, for `n` from 0 to 7: bit 0 of `n`
    /// picks `max` over `min` on the x axis, bit 2 on the y axis and bit 1
    /// on the z axis.
    pub open spec fn corner(self, n: int) -> Point {
        Point {
            x: if n % 2 == 1 {
                self.max.x
            } else {
                self.min.x
            },
            y: if n / 4 == 1 {
                self.max.y
            } else {
                self.min.y
            },
            z: if (n / 2) % 2 == 1 {
                self.max.z
            } else {
                self.min.z
            },
        }
    }

    /// Returns the eight corners of the box.
    pub fn corners(&self) -> (c: [Point; 8])
        ensures
            forall|n: int| 0 <= n < 8 ==> #[trigger] c[n] == self.corner(n),
    {
        let lo = self.min;
        let hi = self.max;
        [
            Point { x: lo.x, y: lo.y, z: lo.z },
            Point { x: hi.x, y: lo.y, z: lo.z },
            Point { x: lo.x, y: lo.y, z: hi.z },
            Point { x: hi.x, y: lo.y, z: hi.z },
            Point { x: lo.x, y: hi.y, z: lo.z },
            Point { x: hi.x, y: hi.y, z: lo.z },
            Point { x: lo.x, y: hi.y, z: hi.z },
            Point { x: hi.x, y: hi.y, z: hi.z },
        ]
    }

    /// Returns the smallest box around all of `boxes`, or `None` if there
    /// are none.
    pub fn surrounding_all(boxes: &Vec<Aabb>) -> (hull: Option<Aabb>)
        ensures
            hull is Some <==> boxes.len() > 0,
            hull matches Some(b) ==> is_hull(b, boxes@),
    {
        if boxes.len() == 0 {
            return None;
        }
        let mut acc = boxes[0];
        let mut k: usize = 1;
        proof {
            lemma_hull_of_one(acc);
            assert(boxes@.take(1) =~= seq![acc]);
        }
        while k < boxes.len()
            invariant
                1 <= k <= boxes.len(),
                is_hull(acc, boxes@.take(k as int)),
            decreases boxes.len() - k,
        {
            proof {
                lemma_hull_of_one(boxes[k as int]);
                lemma_hull_of_both(acc, boxes@.take(k as int), boxes[k as int], seq![boxes[k as int]]);
                assert(boxes@.take(k as int) + seq![boxes[k as int]] =~= boxes@.take(k + 1));
            }
            acc = Aabb::surrounding_box(&acc, &boxes[k]);
            k = k + 1;
        }
        assert(boxes@.take(k as int) =~= boxes@);
        Some(acc)
    }

    /// Returns the smallest box that holds all of `points`, or `None` if
    /// there are none.
    pub fn around(points: &Vec<Point>) -> (hull: Option<Aabb>)
        ensures
            hull is Some <==> points.len() > 0,
            hull matches Some(b) ==> is_hull(b, points@.map_values(|p: Point| Aabb::of_point(p))),
    {
        if points.len() == 0 {
            return None;
        }
        let ghost boxes = points@.map_values(|p: Point| Aabb::of_point(p));
        let mut acc = Aabb { min: points[0], max: points[0] };
        let mut k: usize = 1;
        proof {
            lemma_hull_of_one(acc);
            assert(boxes.take(1) =~= seq![acc]);
        }
        while k < points.len()
            invariant
                1 <= k <= points.len(),
                boxes == points@.map_values(|p: Point| Aabb::of_point(p)),
                is_hull(acc, boxes.take(k as int)),
            decreases points.len() - k,
        {
            let next = Aabb { min: points[k], max: points[k] };
            proof {
                lemma_hull_of_one(next);
                lemma_hull_of_both(acc, boxes.take(k as int), next, seq![next]);
                assert(boxes.take(k as int) + seq![next] =~= boxes.take(k + 1));
            }
            acc = Aabb::surrounding_box(&acc, &next);
            k = k + 1;
        }
        assert(boxes.take(k as int) =~= boxes);
        Some(acc)
    }

    /// Returns the smallest box around `box0` and `box1`.
    pub fn surrounding_box(box0: &Aabb, box1: &Aabb) -> (b: Aabb)
        ensures
            b == box0.union(*box1),
    {
        Aabb {
            min: Point {
                x: ffmin(box0.min.x, box1.min.x),
                y: ffmin(box0.min.y, box1.min.y),
                z: ffmin(box0.min.z, box1.min.z),
            },
            max: Point {
                x: ffmax(box0.max.x, box1.max.x),
                y: ffmax(box0.max.y, box1.max.y),
                z: ffmax(box0.max.z, box1.max.z),
            },
        }
    }
}

/// Whether some box of `boxes` reaches exactly as far down on `axis` as `b`.
pub open spec fn touches_min(b: Aabb, boxes: Seq<Aabb>, axis: int) -> bool {
    exists|i: int| 0 <= i < boxes.len() && b.min.at(axis) == (#[trigger] boxes[i]).min.at(axis)
}

/// Whether some box of `boxes` reaches exactly as far up on `axis` as `b`.
pub open spec fn touches_max(b: Aabb, boxes: Seq<Aabb>, axis: int) -> bool {
    exists|i: int| 0 <= i < boxes.len() && b.max.at(axis) == (#[trigger] boxes[i]).max.at(axis)
}

/// Whether `b` is the smallest box around all of `boxes`: it encloses each
/// of them, and each of its six faces lies on a face of one of them.
pub open spec fn is_hull(b: Aabb, boxes: Seq<Aabb>) -> bool {
    &&& forall|i: int| 0 <= i < boxes.len() ==> b.encloses(#[trigger] boxes[i])
    &&& touches_min(b, boxes, 0) && touches_min(b, boxes, 1) && touches_min(b, boxes, 2)
    &&& touches_max(b, boxes, 0) && touches_max(b, boxes, 1) && touches_max(b, boxes, 2)
}

/// A box is the smallest box around itself.
pub proof fn lemma_hull_of_one(b: Aabb)
    ensures
        is_hull(b, seq![b]),
{
    let boxes = seq![b];
    assert(boxes[0] == b);
}

/// The smallest box around a collection of boxes is unique.
pub proof fn lemma_hull_is_unique(a: Aabb, b: Aabb, boxes: Seq<Aabb>)
    requires
        is_hull(a, boxes),
        is_hull(b, boxes),
    ensures
        a == b,
{
}

/// The box around the hulls of two collections is the hull of both taken
/// together.
pub proof fn lemma_hull_of_both(a: Aabb, first: Seq<Aabb>, b: Aabb, second: Seq<Aabb>)
    requires
        is_hull(a, first),
        is_hull(b, second),
    ensures
        is_hull(a.union(b), first + second),
{
    let u = a.union(b);
    let both = first + second;
    assert forall|i: int| 0 <= i < both.len() implies u.encloses(#[trigger] both[i]) by {
        if i < first.len() {
            assert(both[i] == first[i]);
        } else {
            assert(both[i] == second[i - first.len()]);
        }
    }
    assert forall|axis: int| 0 <= axis < 3 implies touches_min(u, both, axis) && touches_max(
        u,
        both,
        axis,
    ) by {
        let i0 = choose|i: int|
            0 <= i < first.len() && a.min.at(axis) == (#[trigger] first[i]).min.at(axis);
        let j0 = choose|i: int|
            0 <= i < second.len() && b.min.at(axis) == (#[trigger] second[i]).min.at(axis);
        assert(both[i0] == first[i0]);
        assert(both[j0 + first.len()] == second[j0]);
        let i1 = choose|i: int|
            0 <= i < first.len() && a.max.at(axis) == (#[trigger] first[i]).max.at(axis);
        let j1 = choose|i: int|
            0 <= i < second.len() && b.max.at(axis) == (#[trigger] second[i]).max.at(axis);
        assert(both[i1] == first[i1]);
        assert(both[j1 + first.len()] == second[j1]);
    }
}

/// The smallest box around a collection depends only on which boxes the
/// collection holds, not on their order or number.
pub proof fn lemma_hull_of_same_boxes(b: Aabb, first: Seq<Aabb>, second: Seq<Aabb>)
    requires
        is_hull(b, first),
        forall|x: Aabb| first.contains(x) <==> second.contains(x),
    ensures
        is_hull(b, second),
{
    assert forall|i: int| 0 <= i < second.len() implies b.encloses(#[trigger] second[i]) by {
        assert(second.contains(second[i]));
        assert(first.contains(second[i]));
    }
    assert forall|axis: int| 0 <= axis < 3 implies touches_min(b, second, axis) && touches_max(
        b,
        second,
        axis,
    ) by {
        let i0 = choose|i: int|
            0 <= i < first.len() && b.min.at(axis) == (#[trigger] first[i]).min.at(axis);
        assert(first.contains(first[i0]));
        assert(second.contains(first[i0]));
        let j0 = choose|j: int| 0 <= j < second.len() && second[j] == first[i0];
        assert(b.min.at(axis) == second[j0].min.at(axis));
        let i1 = choose|i: int|
            0 <= i < first.len() && b.max.at(axis) == (#[trigger] first[i]).max.at(axis);
        assert(first.contains(first[i1]));
        assert(second.contains(first[i1]));
        let j1 = choose|j: int| 0 <= j < second.len() && second[j] == first[i1];
        assert(b.max.at(axis) == second[j1].max.at(axis));
    }
}

/// The box around two boxes encloses both, and every box that encloses both
/// encloses it: it is the tightest such box on each axis.
pub proof fn lemma_surrounding_box_is_tightest(a: Aabb, b: Aabb, c: Aabb)
    ensures
        a.union(b).encloses(a),
        a.union(b).encloses(b),
        c.encloses(a) && c.encloses(b) ==> c.encloses(a.union(b)),
{
}

} // verus!
