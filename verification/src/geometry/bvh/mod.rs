//! A bounding volume hierarchy: a binary tree of boxes over a set of
//! primitives, built once and then searched for the nearest hit of a ray.
//!
//! The tree lives in an array of nodes. It refers to a primitive by its
//! number in the list that the tree was built from, and each node covers the
//! primitives in a stretch of `order`, a rearrangement of those numbers.

use vstd::prelude::*;
use crate::geometry::nearest::{admits, Probe, Reach};
use crate::utility::aabb::{Aabb, Crossings};
use crate::utility::scalar::Point;

pub mod builder;
pub mod laws;
pub mod traverse;

verus! {

/// What the hierarchy has to know of a primitive: the box around it and the
/// point by which it is sorted, which is the centre of the box or any point
/// that sorts as the centre does, such as the sum of the two corners.
#[derive(Debug, Clone, Copy, PartialEq, Eq, Structural)]
pub struct Bounds {
    pub bbox: Aabb,
    pub center: Point,
}

/// How a node is divided: the axis along which its primitives were sorted
/// and the two nodes that took over the lower and the upper half.
#[derive(Debug, Clone, Copy, PartialEq, Eq, Structural)]
pub struct Split {
    pub axis: usize,
    pub left: usize,
    pub right: usize,
}

/// A node of the hierarchy: it covers the primitives `order[first]` up to
/// `order[first + count - 1]`, and `bbox` is the box around them. A node
/// without a split that covers one primitive is a leaf.
#[derive(Debug, Clone, Copy, PartialEq, Eq, Structural)]
pub struct Node {
    pub bbox: Aabb,
    pub first: usize,
    pub count: usize,
    pub split: Option<Split>,
}

/// The hierarchy over the primitives described by `bounds`. Node 0 is the
/// root.
pub struct BVH {
    pub bounds: Vec<Bounds>,
    pub order: Vec<usize>,
    pub nodes: Vec<Node>,
}

/// The numbers of `n` primitives, in order.
pub open spec fn numbering(n: nat) -> Seq<usize> {
    Seq::new(n, |i: int| i as usize)
}

/// The same numbers as objects of a search.
pub open spec fn as_objects(primitives: Seq<usize>) -> Seq<int> {
    Seq::new(primitives.len(), |i: int| primitives[i] as int)
}

impl BVH {
    /// The primitives that node `i` covers, in the order in which the tree
    /// holds them.
    pub open spec fn covered(self, i: int) -> Seq<usize> {
        self.order@.subrange(
            self.nodes@[i].first as int,
            self.nodes@[i].first + self.nodes@[i].count,
        )
    }

    /// Whether `order` holds each primitive exactly once.
    pub open spec fn order_is_rearranged(self) -> bool {
        &&& self.order@.len() == self.bounds@.len()
        &&& self.order@.to_multiset() =~= numbering(self.bounds@.len()).to_multiset()
    }

    /// Whether the primitives of node `i` lie within `order`.
    pub open spec fn covers_a_stretch(self, i: int) -> bool {
        &&& 1 <= self.nodes@[i].count
        &&& self.nodes@[i].first + self.nodes@[i].count <= self.order@.len()
    }

    /// Whether the split `s` of node `i` sends the lower half of the
    /// node's primitives, rounded down, to a later node `left` and the rest
    /// to the node after it.
    pub open spec fn halves(self, i: int, s: Split) -> bool {
        let node = self.nodes@[i];
        let l = self.nodes@[s.left as int];
        let r = self.nodes@[s.right as int];
        &&& node.count >= 2
        &&& s.axis < 3
        &&& i < s.left
        &&& s.right == s.left + 1
        &&& s.right < self.nodes@.len()
        &&& l.first == node.first
        &&& l.count == node.count / 2
        &&& r.first == node.first + node.count / 2
        &&& r.count == node.count - node.count / 2
    }

    /// Whether, along the axis of the split `s` of node `i`, no primitive
    /// of the lower half has its centre above that of a primitive of the
    /// upper half.
    pub open spec fn sorted_apart(self, i: int, s: Split) -> bool {
        forall|p: usize, q: usize|
            #![trigger self.covered(s.left as int).contains(p), self.covered(s.right as int).contains(q)]
            self.covered(s.left as int).contains(p) && self.covered(s.right as int).contains(q)
                ==> self.bounds@[p as int].center.at(s.axis as int) <= self.bounds@[q as int].center.at(
                s.axis as int,
            )
    }

    /// Whether node `i` is a finished node: a leaf with the box of its
    /// primitive, or a branch divided in halves that are sorted apart, with
    /// the box around the boxes of its two children.
    pub open spec fn node_is_sound(self, i: int) -> bool {
        let node = self.nodes@[i];
        &&& self.covers_a_stretch(i)
        &&& match node.split {
            None => {
                &&& node.count == 1
                &&& node.bbox == self.bounds@[self.order@[node.first as int] as int].bbox
            },
            Some(s) => {
                &&& self.halves(i, s)
                &&& self.sorted_apart(i, s)
                &&& node.bbox == self.nodes@[s.left as int].bbox.union(
                    self.nodes@[s.right as int].bbox,
                )
            },
        }
    }

    /// Whether this is a finished hierarchy over all primitives of
    /// `bounds`: the root covers them all, every node is sound, and there
    /// are as many nodes as a binary tree with a leaf for each primitive
    /// has.
    pub open spec fn wf(self) -> bool {
        &&& self.order_is_rearranged()
        &&& self.nodes@.len() >= 1
        &&& self.nodes@.len() == 2 * self.bounds@.len() - 1
        &&& self.nodes@[0].first == 0
        &&& self.nodes@[0].count == self.bounds@.len()
        &&& forall|i: int| 0 <= i < self.nodes@.len() ==> #[trigger] self.node_is_sound(i)
    }
}

/// A ray in a scene, as the search meets it: which hits count, what each
/// primitive answers, and where the ray crosses the planes of a box.
pub struct World {
    pub t_min: int,
    pub probe: Probe,
    pub crossings: spec_fn(Aabb) -> Crossings,
}

impl World {
    /// Whether the slab test never turns away a ray from a box around a
    /// primitive that the ray hits within the limits of the search.
    pub open spec fn boxes_are_sound(self, bounds: Seq<Bounds>, top: int) -> bool {
        forall|p: int, b: Aabb, limit: int|
            #![trigger (self.probe)(p, limit), (self.crossings)(b)]
            0 <= p < bounds.len() && limit <= top && b.encloses(bounds[p].bbox) && (match (
                self.probe
            )(p, limit) {
                Some(t) => admits(self.t_min, limit, t),
                None => false,
            }) ==> (self.crossings)(b).overlap(self.t_min, limit)
    }
}

impl BVH {
    /// What a search that reaches as far as `reach` finds in the subtree of
    /// node `i`: nothing if the slab test turns the ray away from the
    /// node's box; at a leaf the answer of its primitive; at a branch what
    /// the upper half adds to what the lower half found, the lower half
    /// having shortened the reach for the upper.
    pub open spec fn visit(self, world: World, i: int, reach: Reach) -> Reach
        decreases self.nodes@.len() - i,
    {
        if !(0 <= i < self.nodes@.len()) {
            reach
        } else if !(world.crossings)(self.nodes@[i].bbox).overlap(world.t_min, reach.limit) {
            reach
        } else {
            match self.nodes@[i].split {
                None => reach.offer(
                    world.t_min,
                    (world.probe)(self.order@[self.nodes@[i].first as int] as int, reach.limit),
                ),
                Some(s) => if i < s.left < self.nodes@.len() && i < s.right < self.nodes@.len() {
                    self.visit(world, s.right as int, self.visit(world, s.left as int, reach))
                } else {
                    reach
                },
            }
        }
    }
}

} // verus!
