//! Building the hierarchy, one split at a time.
//!
//! The builder starts with a single node over all primitives and divides
//! nodes until each covers one primitive. To divide a node it has to know
//! how far the centres of the node's primitives extend on each axis, which
//! it cannot work out from scalars: it hands out the box around the
//! centres, and the caller hands back the three extents.

use vstd::prelude::*;
use crate::geometry::bvh::laws::lemma_order_names_every_primitive;
use crate::geometry::bvh::{numbering, Bounds, Node, Split, BVH};
use crate::utility::aabb::{
    is_hull, lemma_hull_is_unique, lemma_hull_of_both, lemma_hull_of_one,
    lemma_hull_of_same_boxes, Aabb,
};
use crate::utility::scalar::Point;

verus! {

/// Why no hierarchy can be built.
#[derive(Debug, Clone, Copy, PartialEq, Eq, Structural)]
pub enum BvhError {
    /// There is no primitive.
    Empty,
    /// The primitive with this number has no box; it is the first such.
    Unbounded { primitive: usize },
}

/// A hierarchy under construction. `open` holds the nodes that cover more
/// than one primitive and are not divided yet, the next to be divided last.
pub struct BvhBuilder {
    pub tree: BVH,
    pub open: Vec<usize>,
}

/// Whether the stretch of `inner` lies within the stretch of `outer`.
pub open spec fn stretch_within(inner: Node, outer: Node) -> bool {
    outer.first <= inner.first && inner.first + inner.count <= outer.first + outer.count
}

/// Whether the stretches of `a` and `b` have no position in common.
pub open spec fn stretch_apart(a: Node, b: Node) -> bool {
    a.first + a.count <= b.first || b.first + b.count <= a.first
}

/// The axis on which `extents` is largest; of several such, the first.
pub open spec fn widest(extents: Point) -> int {
    if extents.x >= extents.y && extents.x >= extents.z {
        0
    } else if extents.y >= extents.z {
        1
    } else {
        2
    }
}

/// Returns the axis on which `extents` is largest; of several such, the
/// first.
pub fn widest_axis(extents: &Point) -> (axis: usize)
    ensures
        axis == widest(*extents),
        axis < 3,
        forall|a: int| 0 <= a < 3 ==> extents.at(a) <= extents.at(axis as int),
        forall|a: int| 0 <= a < axis ==> extents.at(a) < extents.at(axis as int),
{
    if extents.x >= extents.y && extents.x >= extents.z {
        0
    } else if extents.y >= extents.z {
        1
    } else {
        2
    }
}

/// The boxes of the primitives `primitives`, in their order.
pub open spec fn boxes_of(bounds: Seq<Bounds>, primitives: Seq<usize>) -> Seq<Aabb> {
    Seq::new(primitives.len(), |k: int| bounds[primitives[k] as int].bbox)
}

impl BVH {
    /// Whether node `i` is not divided.
    pub open spec fn is_frontier(self, i: int) -> bool {
        self.nodes@[i].split is None
    }

    /// Whether node `i` is still to be divided.
    pub open spec fn awaits_split(self, i: int) -> bool {
        self.nodes@[i].split is None && self.nodes@[i].count >= 2
    }

    /// Whether node `i` is as far as construction has come: an undivided
    /// node has the smallest box around its primitives, a divided node is a
    /// sound branch.
    pub open spec fn node_is_underway(self, i: int) -> bool {
        let node = self.nodes@[i];
        &&& self.covers_a_stretch(i)
        &&& match node.split {
            None => is_hull(node.bbox, boxes_of(self.bounds@, self.covered(i))),
            Some(s) => {
                &&& self.halves(i, s)
                &&& self.sorted_apart(i, s)
                &&& node.bbox == self.nodes@[s.left as int].bbox.union(
                    self.nodes@[s.right as int].bbox,
                )
            },
        }
    }

    /// Whether the undivided nodes cover stretches that have nothing in
    /// common with each other, and that lie within or apart from the
    /// stretch of every divided node.
    pub open spec fn frontier_is_laminar(self) -> bool {
        &&& forall|i: int, j: int|
            #![trigger self.nodes@[i], self.nodes@[j]]
            0 <= i < self.nodes@.len() && 0 <= j < self.nodes@.len() && i != j && self.is_frontier(i)
                && self.is_frontier(j) ==> stretch_apart(self.nodes@[i], self.nodes@[j])
        &&& forall|i: int, j: int|
            #![trigger self.nodes@[i], self.nodes@[j]]
            0 <= i < self.nodes@.len() && 0 <= j < self.nodes@.len() && self.is_frontier(i)
                && !self.is_frontier(j) ==> stretch_within(self.nodes@[i], self.nodes@[j])
                || stretch_apart(self.nodes@[i], self.nodes@[j])
    }

    /// Whether this is a hierarchy under construction over all primitives
    /// of `bounds`: the root covers them all, every node is as far as
    /// construction has come, and the undivided nodes lie as they should.
    pub open spec fn underway(self) -> bool {
        &&& self.order_is_rearranged()
        &&& self.nodes@.len() >= 1
        &&& self.nodes@[0].first == 0
        &&& self.nodes@[0].count == self.bounds@.len()
        &&& forall|i: int| 0 <= i < self.nodes@.len() ==> #[trigger] self.node_is_underway(i)
        &&& self.frontier_is_laminar()
    }

    /// Whether `self` is `before` with its node `i` divided along `axis`:
    /// the node's stretch of `order` sorted by centre along that axis, two
    /// undivided nodes added at the end for its lower and upper half, and
    /// the node itself pointing at them.
    pub open spec fn divided(self, before: BVH, i: int, axis: int) -> bool {
        let node = before.nodes@[i];
        let a = node.first as int;
        let b = node.first + node.count;
        let half = node.count / 2;
        let left = before.nodes@.len() as int;
        let right = left + 1;
        &&& self.bounds@ == before.bounds@
        &&& self.order@.len() == before.order@.len()
        &&& forall|k: int|
            0 <= k < a || b <= k < before.order@.len() ==> (#[trigger] self.order@[k])
                == before.order@[k]
        &&& self.order@.subrange(a, b).to_multiset() =~= before.order@.subrange(a, b).to_multiset()
        &&& forall|j: int, k: int|
            #![trigger self.order@[j], self.order@[k]]
            a <= j <= k < b ==> self.bounds@[self.order@[j] as int].center.at(axis)
                <= self.bounds@[self.order@[k] as int].center.at(axis)
        &&& self.nodes@.len() == before.nodes@.len() + 2
        &&& self.nodes@.len() <= usize::MAX
        &&& forall|j: int|
            0 <= j < before.nodes@.len() && j != i ==> (#[trigger] self.nodes@[j])
                == before.nodes@[j]
        &&& self.nodes@[i] == (Node {
            bbox: node.bbox,
            first: node.first,
            count: node.count,
            split: Some(Split { axis: axis as usize, left: left as usize, right: right as usize }),
        })
        &&& self.nodes@[left].first == a
        &&& self.nodes@[left].count == half
        &&& self.nodes@[left].split is None
        &&& self.nodes@[right].first == a + half
        &&& self.nodes@[right].count == node.count - half
        &&& self.nodes@[right].split is None
    }
}

/// The number of nodes that dividing `node` down to single primitives
/// will add.
pub open spec fn nodes_to_come(node: Node) -> int {
    if node.split is None {
        2 * node.count - 2
    } else {
        0
    }
}

/// The number of nodes that dividing the first `k` of `nodes` down to
/// single primitives will add.
pub open spec fn nodes_still_to_come(nodes: Seq<Node>, k: int) -> int
    decreases k,
{
    if k <= 0 {
        0
    } else {
        nodes_still_to_come(nodes, k - 1) + nodes_to_come(nodes[k - 1])
    }
}

impl BvhBuilder {
    /// Whether the builder holds a hierarchy under construction, `open`
    /// lists exactly the nodes that are still to be divided, each once,
    /// and the nodes there are and those still to come make up a binary
    /// tree with a leaf for each primitive.
    pub open spec fn inv(self) -> bool {
        let t = self.tree;
        &&& t.underway()
        &&& t.nodes@.len() + nodes_still_to_come(t.nodes@, t.nodes@.len() as int) == 2
            * t.bounds@.len() - 1
        &&& self.open@.no_duplicates()
        &&& forall|k: int|
            0 <= k < self.open@.len() ==> (#[trigger] self.open@[k]) < t.nodes@.len()
                && t.awaits_split(self.open@[k] as int)
        &&& forall|i: int|
            0 <= i < t.nodes@.len() && #[trigger] t.awaits_split(i) ==> self.open@.contains(
                i as usize,
            )
    }

    /// The nodes open after the last open node, which covered `count`
    /// primitives, has been divided into the nodes `left` and `left + 1`:
    /// the two halves take its place if they cover more than one
    /// primitive, the lower one to be divided next.
    pub open spec fn reopened(self, count: int, left: int) -> Seq<usize> {
        let half = count / 2;
        self.open@.drop_last() + (if count - half >= 2 {
            seq![(left + 1) as usize]
        } else {
            Seq::<usize>::empty()
        }) + (if half >= 2 {
            seq![left as usize]
        } else {
            Seq::<usize>::empty()
        })
    }
}

/// Sorts the stretch of `order` from `lo` up to `hi` by the coordinate on
/// `axis` of the centres of the primitives that it names.
///
/// This is `sort_unstable_by_key` of std on that stretch. Of the result it
/// is claimed that the rest of `order` is untouched, that the stretch holds
/// the same numbers as before, each as often, and that their keys ascend.
#[verifier::external_body]
fn sort_stretch(order: &mut Vec<usize>, bounds: &Vec<Bounds>, lo: usize, hi: usize, axis: usize)
    requires
        lo <= hi <= old(order)@.len(),
        axis < 3,
        forall|k: int| lo <= k < hi ==> (#[trigger] old(order)@[k]) < bounds@.len(),
    ensures
        final(order)@.len() == old(order)@.len(),
        forall|k: int|
            0 <= k < lo || hi <= k < old(order)@.len() ==> (#[trigger] final(order)@[k]) == old(
                order,
            )@[k],
        final(order)@.subrange(lo as int, hi as int).to_multiset() =~= old(order)@.subrange(
            lo as int,
            hi as int,
        ).to_multiset(),
        forall|j: int, k: int|
            #![trigger final(order)@[j], final(order)@[k]]
            lo <= j <= k < hi ==> bounds@[final(order)@[j] as int].center.at(axis as int)
                <= bounds@[final(order)@[k] as int].center.at(axis as int),
{
    order[lo..hi].sort_unstable_by_key(|p| bounds[*p].center.get(axis));
}

/// Returns the smallest box around the primitives that `order` names from
/// position `lo` up to position `hi`.
fn stretch_hull(bounds: &Vec<Bounds>, order: &Vec<usize>, lo: usize, hi: usize) -> (hull: Aabb)
    requires
        lo < hi <= order@.len(),
        forall|k: int| lo <= k < hi ==> (#[trigger] order@[k]) < bounds@.len(),
    ensures
        is_hull(hull, boxes_of(bounds@, order@.subrange(lo as int, hi as int))),
{
    let ghost boxes = boxes_of(bounds@, order@.subrange(lo as int, hi as int));
    let mut acc = bounds[order[lo]].bbox;
    let mut k: usize = lo + 1;
    proof {
        lemma_hull_of_one(acc);
        assert(boxes.take(1) =~= seq![acc]);
    }
    while k < hi
        invariant
            lo < k <= hi <= order@.len(),
            forall|k: int| lo <= k < hi ==> (#[trigger] order@[k]) < bounds@.len(),
            boxes == boxes_of(bounds@, order@.subrange(lo as int, hi as int)),
            is_hull(acc, boxes.take(k - lo)),
        decreases hi - k,
    {
        let next = bounds[order[k]].bbox;
        proof {
            lemma_hull_of_one(next);
            lemma_hull_of_both(acc, boxes.take(k - lo), next, seq![next]);
            assert(boxes.take(k - lo) + seq![next] =~= boxes.take(k - lo + 1));
        }
        acc = Aabb::surrounding_box(&acc, &next);
        k = k + 1;
    }
    assert(boxes.take(k - lo) =~= boxes);
    acc
}

/// The centres of the primitives `primitives`, in their order, each as the
/// box that holds it and nothing else.
pub open spec fn centres_of(bounds: Seq<Bounds>, primitives: Seq<usize>) -> Seq<Aabb> {
    Seq::new(primitives.len(), |k: int| Aabb::of_point(bounds[primitives[k] as int].center))
}

/// Returns the smallest box that holds the centres of the primitives that
/// `order` names from position `lo` up to position `hi`.
fn stretch_centres(bounds: &Vec<Bounds>, order: &Vec<usize>, lo: usize, hi: usize) -> (hull: Aabb)
    requires
        lo < hi <= order@.len(),
        forall|k: int| lo <= k < hi ==> (#[trigger] order@[k]) < bounds@.len(),
    ensures
        is_hull(hull, centres_of(bounds@, order@.subrange(lo as int, hi as int))),
{
    let ghost centres = centres_of(bounds@, order@.subrange(lo as int, hi as int));
    let first = bounds[order[lo]].center;
    let mut acc = Aabb { min: first, max: first };
    let mut k: usize = lo + 1;
    proof {
        lemma_hull_of_one(acc);
        assert(centres.take(1) =~= seq![acc]);
    }
    while k < hi
        invariant
            lo < k <= hi <= order@.len(),
            forall|k: int| lo <= k < hi ==> (#[trigger] order@[k]) < bounds@.len(),
            centres == centres_of(bounds@, order@.subrange(lo as int, hi as int)),
            is_hull(acc, centres.take(k - lo)),
        decreases hi - k,
    {
        let centre = bounds[order[k]].center;
        let next = Aabb { min: centre, max: centre };
        proof {
            lemma_hull_of_one(next);
            lemma_hull_of_both(acc, centres.take(k - lo), next, seq![next]);
            assert(centres.take(k - lo) + seq![next] =~= centres.take(k - lo + 1));
        }
        acc = Aabb::surrounding_box(&acc, &next);
        k = k + 1;
    }
    assert(centres.take(k - lo) =~= centres);
    acc
}

/// Rearranging a stretch of a sequence leaves every stretch that contains
/// it, and every stretch apart from it, with the members it had.
proof fn lemma_stretch_keeps_members(
    before: Seq<usize>,
    after: Seq<usize>,
    a: int,
    b: int,
    lo: int,
    hi: int,
)
    requires
        0 <= a <= b <= before.len(),
        after.len() == before.len(),
        forall|k: int| 0 <= k < a || b <= k < before.len() ==> (#[trigger] after[k]) == before[k],
        after.subrange(a, b).to_multiset() =~= before.subrange(a, b).to_multiset(),
        0 <= lo <= hi <= before.len(),
        (lo <= a && b <= hi) || hi <= a || b <= lo,
    ensures
        forall|p: usize| after.subrange(lo, hi).contains(p) <==> before.subrange(lo, hi).contains(p),
{
    broadcast use vstd::seq_lib::group_to_multiset_ensures;

    assert forall|p: usize| after.subrange(lo, hi).contains(p) implies before.subrange(
        lo,
        hi,
    ).contains(p) by {
        let k = choose|k: int| 0 <= k < hi - lo && after.subrange(lo, hi)[k] == p;
        let g = lo + k;
        if a <= g < b {
            assert(after.subrange(a, b)[g - a] == p);
            assert(after.subrange(a, b).contains(p));
            assert(after.subrange(a, b).to_multiset().count(p) > 0);
            assert(before.subrange(a, b).contains(p));
            let m = choose|m: int| 0 <= m < b - a && before.subrange(a, b)[m] == p;
            assert(before.subrange(lo, hi)[a + m - lo] == p);
        } else {
            assert(after[g] == before[g]);
            assert(before.subrange(lo, hi)[k] == p);
        }
    }
    assert forall|p: usize| before.subrange(lo, hi).contains(p) implies after.subrange(
        lo,
        hi,
    ).contains(p) by {
        let k = choose|k: int| 0 <= k < hi - lo && before.subrange(lo, hi)[k] == p;
        let g = lo + k;
        if a <= g < b {
            assert(before.subrange(a, b)[g - a] == p);
            assert(before.subrange(a, b).contains(p));
            assert(before.subrange(a, b).to_multiset().count(p) > 0);
            assert(after.subrange(a, b).contains(p));
            let m = choose|m: int| 0 <= m < b - a && after.subrange(a, b)[m] == p;
            assert(after.subrange(lo, hi)[a + m - lo] == p);
        } else {
            assert(after[g] == before[g]);
            assert(after.subrange(lo, hi)[k] == p);
        }
    }
}

/// Rearranging a stretch of a sequence rearranges the sequence.
proof fn lemma_stretch_rearranges_all(before: Seq<usize>, after: Seq<usize>, a: int, b: int)
    requires
        0 <= a <= b <= before.len(),
        after.len() == before.len(),
        forall|k: int| 0 <= k < a || b <= k < before.len() ==> (#[trigger] after[k]) == before[k],
        after.subrange(a, b).to_multiset() =~= before.subrange(a, b).to_multiset(),
    ensures
        after.to_multiset() =~= before.to_multiset(),
{
    let n = before.len() as int;
    assert(before =~= before.subrange(0, a) + before.subrange(a, b) + before.subrange(b, n));
    assert(after =~= after.subrange(0, a) + after.subrange(a, b) + after.subrange(b, n));
    assert(after.subrange(0, a) =~= before.subrange(0, a));
    assert(after.subrange(b, n) =~= before.subrange(b, n));
    vstd::seq_lib::lemma_multiset_commutative(before.subrange(0, a), before.subrange(a, b));
    vstd::seq_lib::lemma_multiset_commutative(
        before.subrange(0, a) + before.subrange(a, b),
        before.subrange(b, n),
    );
    vstd::seq_lib::lemma_multiset_commutative(after.subrange(0, a), after.subrange(a, b));
    vstd::seq_lib::lemma_multiset_commutative(
        after.subrange(0, a) + after.subrange(a, b),
        after.subrange(b, n),
    );
}

/// Dividing a node leaves every node that was there before with the
/// members it had, and every undivided one among them, but for the node
/// that is divided, with the same primitives in the same positions.
proof fn lemma_division_keeps_members(before: BVH, after: BVH, i: int, axis: int, x: int)
    requires
        before.underway(),
        0 <= i < before.nodes@.len(),
        before.awaits_split(i),
        after.divided(before, i, axis),
        0 <= x < before.nodes@.len(),
    ensures
        after.nodes@[x].first == before.nodes@[x].first,
        after.nodes@[x].count == before.nodes@[x].count,
        after.nodes@[x].bbox == before.nodes@[x].bbox,
        forall|p: usize| after.covered(x).contains(p) <==> before.covered(x).contains(p),
        before.is_frontier(x) && x != i ==> after.covered(x) =~= before.covered(x),
{
    let node = before.nodes@[i];
    let other = before.nodes@[x];
    assert(before.node_is_underway(i));
    assert(before.node_is_underway(x));
    if x != i {
        assert(after.nodes@[x] == other);
        if before.is_frontier(x) {
            assert(stretch_apart(before.nodes@[i], before.nodes@[x]));
        } else {
            assert(stretch_within(before.nodes@[i], before.nodes@[x]) || stretch_apart(
                before.nodes@[i],
                before.nodes@[x],
            ));
        }
    }
    lemma_stretch_keeps_members(
        before.order@,
        after.order@,
        node.first as int,
        node.first + node.count,
        other.first as int,
        other.first + other.count,
    );
}

/// Dividing a node leaves every other node that was there before as far
/// as construction had brought it.
proof fn lemma_division_keeps_other_nodes(before: BVH, after: BVH, i: int, axis: int, x: int)
    requires
        before.underway(),
        0 <= i < before.nodes@.len(),
        before.awaits_split(i),
        after.divided(before, i, axis),
        0 <= x < before.nodes@.len(),
        x != i,
    ensures
        after.node_is_underway(x),
{
    assert(before.node_is_underway(x));
    lemma_division_keeps_members(before, after, i, axis, x);
    match before.nodes@[x].split {
        None => {
            assert(boxes_of(after.bounds@, after.covered(x)) =~= boxes_of(
                before.bounds@,
                before.covered(x),
            ));
        },
        Some(s) => {
            lemma_division_keeps_members(before, after, i, axis, s.left as int);
            lemma_division_keeps_members(before, after, i, axis, s.right as int);
            assert(after.halves(x, s));
            assert forall|p: usize, q: usize|
                #![trigger after.covered(s.left as int).contains(p), after.covered(s.right as int).contains(q)]
                after.covered(s.left as int).contains(p) && after.covered(s.right as int).contains(
                    q,
                ) implies after.bounds@[p as int].center.at(s.axis as int)
                <= after.bounds@[q as int].center.at(s.axis as int) by {
                assert(before.covered(s.left as int).contains(p));
                assert(before.covered(s.right as int).contains(q));
            }
        },
    }
}

/// Of a stretch sorted along an axis, no member of a lower part has its
/// centre above that of a member of the part that follows it.
proof fn lemma_sorted_stretch_is_sorted_apart(
    bounds: Seq<Bounds>,
    order: Seq<usize>,
    a: int,
    m: int,
    b: int,
    axis: int,
)
    requires
        0 <= a <= m <= b <= order.len(),
        forall|j: int, k: int|
            #![trigger order[j], order[k]]
            a <= j <= k < b ==> bounds[order[j] as int].center.at(axis) <= bounds[order[k] as int].center.at(
                axis,
            ),
    ensures
        forall|p: usize, q: usize|
            #![trigger order.subrange(a, m).contains(p), order.subrange(m, b).contains(q)]
            order.subrange(a, m).contains(p) && order.subrange(m, b).contains(q)
                ==> bounds[p as int].center.at(axis) <= bounds[q as int].center.at(axis),
{
    assert forall|p: usize, q: usize|
        #![trigger order.subrange(a, m).contains(p), order.subrange(m, b).contains(q)]
        order.subrange(a, m).contains(p) && order.subrange(m, b).contains(q) implies bounds[p as int].center.at(
        axis,
    ) <= bounds[q as int].center.at(axis) by {
        let j = choose|j: int| 0 <= j < m - a && order.subrange(a, m)[j] == p;
        let k = choose|k: int| 0 <= k < b - m && order.subrange(m, b)[k] == q;
        assert(order[a + j] == p);
        assert(order[m + k] == q);
    }
}

/// The smallest box around a collection of primitives is the box around
/// the smallest boxes of two parts that together hold the same primitives.
proof fn lemma_hull_of_halves(
    bounds: Seq<Bounds>,
    whole: Seq<usize>,
    lower: Seq<usize>,
    upper: Seq<usize>,
    b: Aabb,
    bl: Aabb,
    bu: Aabb,
)
    requires
        is_hull(b, boxes_of(bounds, whole)),
        forall|p: usize| whole.contains(p) <==> (lower + upper).contains(p),
        is_hull(bl, boxes_of(bounds, lower)),
        is_hull(bu, boxes_of(bounds, upper)),
    ensures
        b == bl.union(bu),
{
    let was = boxes_of(bounds, whole);
    let parts = lower + upper;
    let now = boxes_of(bounds, parts);
    assert forall|x: Aabb| was.contains(x) <==> now.contains(x) by {
        if was.contains(x) {
            let k = choose|k: int| 0 <= k < was.len() && was[k] == x;
            assert(whole.contains(whole[k]));
            let m = choose|m: int| 0 <= m < parts.len() && parts[m] == whole[k];
            assert(now[m] == x);
        }
        if now.contains(x) {
            let k = choose|k: int| 0 <= k < now.len() && now[k] == x;
            assert(parts.contains(parts[k]));
            assert(whole.contains(parts[k]));
            let m = choose|m: int| 0 <= m < whole.len() && whole[m] == parts[k];
            assert(was[m] == x);
        }
    }
    lemma_hull_of_same_boxes(b, was, now);
    lemma_hull_of_both(bl, boxes_of(bounds, lower), bu, boxes_of(bounds, upper));
    assert(boxes_of(bounds, lower) + boxes_of(bounds, upper) =~= now);
    lemma_hull_is_unique(b, bl.union(bu), now);
}

/// The divided node is a sound branch over its two new halves.
proof fn lemma_division_closes_the_node(before: BVH, after: BVH, i: int, axis: int)
    requires
        before.underway(),
        0 <= i < before.nodes@.len(),
        before.awaits_split(i),
        after.divided(before, i, axis),
        0 <= axis < 3,
        is_hull(
            after.nodes@[before.nodes@.len() as int].bbox,
            boxes_of(after.bounds@, after.covered(before.nodes@.len() as int)),
        ),
        is_hull(
            after.nodes@[before.nodes@.len() as int + 1].bbox,
            boxes_of(after.bounds@, after.covered(before.nodes@.len() as int + 1)),
        ),
    ensures
        after.node_is_underway(i),
{
    let node = before.nodes@[i];
    let left = before.nodes@.len() as int;
    let right = left + 1;
    let half = node.count / 2;
    let a = node.first as int;
    let s = after.nodes@[i].split.unwrap();
    assert(before.node_is_underway(i));
    lemma_division_keeps_members(before, after, i, axis, i);
    assert(after.halves(i, s));
    assert(after.covered(left) == after.order@.subrange(a, a + half));
    assert(after.covered(right) == after.order@.subrange(a + half, a + node.count));
    lemma_sorted_stretch_is_sorted_apart(
        after.bounds@,
        after.order@,
        a,
        a + half,
        a + node.count,
        axis,
    );
    assert(after.sorted_apart(i, s));
    assert(after.covered(i) =~= after.covered(left) + after.covered(right));
    lemma_hull_of_halves(
        before.bounds@,
        before.covered(i),
        after.covered(left),
        after.covered(right),
        node.bbox,
        after.nodes@[left].bbox,
        after.nodes@[right].bbox,
    );
}

/// After a division the undivided nodes still cover stretches apart from
/// each other and within or apart from those of the divided nodes.
proof fn lemma_division_keeps_frontier_laminar(before: BVH, after: BVH, i: int, axis: int)
    requires
        before.underway(),
        0 <= i < before.nodes@.len(),
        before.awaits_split(i),
        after.divided(before, i, axis),
    ensures
        after.frontier_is_laminar(),
{
    let n = before.nodes@.len() as int;
    assert(before.node_is_underway(i));
    assert forall|x: int, y: int|
        #![trigger after.nodes@[x], after.nodes@[y]]
        0 <= x < after.nodes@.len() && 0 <= y < after.nodes@.len() && x != y && after.is_frontier(
            x,
        ) && after.is_frontier(y) implies stretch_apart(after.nodes@[x], after.nodes@[y]) by {
        if x < n && y < n {
            assert(after.nodes@[x] == before.nodes@[x]);
            assert(after.nodes@[y] == before.nodes@[y]);
            assert(stretch_apart(before.nodes@[x], before.nodes@[y]));
        } else if x < n {
            assert(after.nodes@[x] == before.nodes@[x]);
            assert(stretch_apart(before.nodes@[x], before.nodes@[i]));
        } else if y < n {
            assert(after.nodes@[y] == before.nodes@[y]);
            assert(stretch_apart(before.nodes@[y], before.nodes@[i]));
        }
    }
    assert forall|x: int, y: int|
        #![trigger after.nodes@[x], after.nodes@[y]]
        0 <= x < after.nodes@.len() && 0 <= y < after.nodes@.len() && after.is_frontier(x)
            && !after.is_frontier(y) implies stretch_within(after.nodes@[x], after.nodes@[y])
        || stretch_apart(after.nodes@[x], after.nodes@[y]) by {
        if x < n {
            assert(after.nodes@[x] == before.nodes@[x]);
            if y == i {
                assert(stretch_apart(before.nodes@[x], before.nodes@[i]));
            } else {
                assert(after.nodes@[y] == before.nodes@[y]);
                assert(stretch_within(before.nodes@[x], before.nodes@[y]) || stretch_apart(
                    before.nodes@[x],
                    before.nodes@[y],
                ));
            }
        } else {
            if y != i {
                assert(after.nodes@[y] == before.nodes@[y]);
                assert(stretch_within(before.nodes@[i], before.nodes@[y]) || stretch_apart(
                    before.nodes@[i],
                    before.nodes@[y],
                ));
            }
        }
    }
}

/// A division leaves a hierarchy under construction.
proof fn lemma_division_keeps_underway(before: BVH, after: BVH, i: int, axis: int)
    requires
        before.underway(),
        0 <= i < before.nodes@.len(),
        before.awaits_split(i),
        after.divided(before, i, axis),
        0 <= axis < 3,
        is_hull(
            after.nodes@[before.nodes@.len() as int].bbox,
            boxes_of(after.bounds@, after.covered(before.nodes@.len() as int)),
        ),
        is_hull(
            after.nodes@[before.nodes@.len() as int + 1].bbox,
            boxes_of(after.bounds@, after.covered(before.nodes@.len() as int + 1)),
        ),
    ensures
        after.underway(),
{
    let n = before.nodes@.len() as int;
    let node = before.nodes@[i];
    assert(before.node_is_underway(i));
    lemma_stretch_rearranges_all(
        before.order@,
        after.order@,
        node.first as int,
        node.first + node.count,
    );
    assert(after.node_is_underway(n));
    assert(after.node_is_underway(n + 1));
    lemma_division_closes_the_node(before, after, i, axis);
    assert forall|x: int| 0 <= x < after.nodes@.len() implies #[trigger] after.node_is_underway(
        x,
    ) by {
        if x < n && x != i {
            lemma_division_keeps_other_nodes(before, after, i, axis, x);
        }
    }
    lemma_division_keeps_frontier_laminar(before, after, i, axis);
    if i != 0 {
        assert(after.nodes@[0] == before.nodes@[0]);
    }
}

/// Two lists of nodes that agree on their first `k` nodes but for node
/// `i` have the same number of nodes to come from those, but for what node
/// `i` brings.
proof fn lemma_nodes_to_come_differ_at(a: Seq<Node>, b: Seq<Node>, k: int, i: int)
    requires
        0 <= k <= a.len(),
        k <= b.len(),
        forall|j: int| 0 <= j < k && j != i ==> (#[trigger] b[j]) == a[j],
    ensures
        nodes_still_to_come(b, k) == nodes_still_to_come(a, k) + if 0 <= i < k {
            nodes_to_come(b[i]) - nodes_to_come(a[i])
        } else {
            0
        },
    decreases k,
{
    if k > 0 {
        lemma_nodes_to_come_differ_at(a, b, k - 1, i);
        if k - 1 != i {
            assert(b[k - 1] == a[k - 1]);
        }
    }
}

/// Nodes that cover one primitive each, or are divided, have no nodes to
/// come.
proof fn lemma_no_nodes_to_come(nodes: Seq<Node>, k: int)
    requires
        0 <= k <= nodes.len(),
        forall|j: int| 0 <= j < k && (#[trigger] nodes[j]).split is None ==> nodes[j].count == 1,
    ensures
        nodes_still_to_come(nodes, k) == 0,
    decreases k,
{
    if k > 0 {
        lemma_no_nodes_to_come(nodes, k - 1);
    }
}

/// A division adds two nodes and leaves two fewer to come.
proof fn lemma_division_keeps_count(before: BVH, after: BVH, i: int, axis: int)
    requires
        0 <= i < before.nodes@.len(),
        before.awaits_split(i),
        after.divided(before, i, axis),
    ensures
        after.nodes@.len() + nodes_still_to_come(after.nodes@, after.nodes@.len() as int)
            == before.nodes@.len() + nodes_still_to_come(
            before.nodes@,
            before.nodes@.len() as int,
        ),
{
    let n = before.nodes@.len() as int;
    lemma_nodes_to_come_differ_at(before.nodes@, after.nodes@, n, i);
    assert(nodes_still_to_come(after.nodes@, n + 2) == nodes_still_to_come(after.nodes@, n + 1)
        + nodes_to_come(after.nodes@[n + 1]));
    assert(nodes_still_to_come(after.nodes@, n + 1) == nodes_still_to_come(after.nodes@, n)
        + nodes_to_come(after.nodes@[n]));
}

/// After a division `open` again lists exactly the nodes still to be
/// divided, each once.
proof fn lemma_division_keeps_open_exact(before: BvhBuilder, after: BvhBuilder, axis: int)
    requires
        before.inv(),
        before.open@.len() > 0,
        after.tree.divided(before.tree, before.open@.last() as int, axis),
        after.open@ == before.reopened(
            before.tree.nodes@[before.open@.last() as int].count as int,
            before.tree.nodes@.len() as int,
        ),
    ensures
        after.open@.no_duplicates(),
        forall|k: int|
            0 <= k < after.open@.len() ==> (#[trigger] after.open@[k]) < after.tree.nodes@.len()
                && after.tree.awaits_split(after.open@[k] as int),
        forall|x: int|
            0 <= x < after.tree.nodes@.len() && #[trigger] after.tree.awaits_split(x)
                ==> after.open@.contains(x as usize),
{
    let i = before.open@.last() as int;
    let t = before.tree;
    let u = after.tree;
    let n = t.nodes@.len() as int;
    let node = t.nodes@[i];
    let half = node.count / 2;
    let kept = before.open@.drop_last();
    assert(t.awaits_split(i));
    assert forall|k: int| 0 <= k < kept.len() implies (#[trigger] kept[k]) < n && kept[k] != i
        && u.awaits_split(kept[k] as int) by {
        assert(kept[k] == before.open@[k]);
        assert(t.awaits_split(before.open@[k] as int));
        assert(before.open@[k] != before.open@[before.open@.len() - 1]);
        assert(u.nodes@[kept[k] as int] == t.nodes@[kept[k] as int]);
    }
    assert forall|k: int| 0 <= k < after.open@.len() implies (#[trigger] after.open@[k])
        < u.nodes@.len() && u.awaits_split(after.open@[k] as int) by {
        if k < kept.len() {
            assert(after.open@[k] == kept[k]);
        }
    }
    assert forall|j: int, k: int| 0 <= j < k < after.open@.len() implies after.open@[j]
        != after.open@[k] by {
        if k < kept.len() {
            assert(after.open@[j] == before.open@[j]);
            assert(after.open@[k] == before.open@[k]);
        } else if j < kept.len() {
            assert(after.open@[j] == kept[j]);
        }
    }
    assert forall|x: int| 0 <= x < u.nodes@.len() && #[trigger] u.awaits_split(x) implies after.open@.contains(
        x as usize,
    ) by {
        if x < n {
            assert(x != i);
            assert(u.nodes@[x] == t.nodes@[x]);
            assert(t.awaits_split(x));
            assert(before.open@.contains(x as usize));
            let k = choose|k: int| 0 <= k < before.open@.len() && before.open@[k] == x as usize;
            assert(k < kept.len());
            assert(after.open@[k] == x as usize);
        } else if x == n {
            assert(after.open@[after.open@.len() - 1] == n as usize);
        } else {
            assert(after.open@[kept.len() as int] == (n + 1) as usize);
        }
    }
}

impl BVH {
    /// Divides node `i` along `axis`.
    fn divide(&mut self, i: usize, axis: usize)
        requires
            old(self).underway(),
            i < old(self).nodes@.len(),
            old(self).awaits_split(i as int),
            axis < 3,
        ensures
            final(self).divided(*old(self), i as int, axis as int),
            final(self).underway(),
    {
        proof {
            assert(self.node_is_underway(i as int));
            lemma_order_names_every_primitive(*self);
        }
        let node = self.nodes[i];
        let lo = node.first;
        let hi = node.first + node.count;
        sort_stretch(&mut self.order, &self.bounds, lo, hi, axis);
        proof {
            lemma_stretch_rearranges_all(old(self).order@, self.order@, lo as int, hi as int);
            lemma_order_names_every_primitive(*self);
        }
        let half = node.count / 2;
        let mid = lo + half;
        let lower = stretch_hull(&self.bounds, &self.order, lo, mid);
        let upper = stretch_hull(&self.bounds, &self.order, mid, hi);
        let left = self.nodes.len();
        self.nodes.push(Node { bbox: lower, first: lo, count: half, split: None });
        let right = self.nodes.len();
        self.nodes.push(Node { bbox: upper, first: mid, count: node.count - half, split: None });
        self.nodes.set(
            i,
            Node {
                bbox: node.bbox,
                first: node.first,
                count: node.count,
                split: Some(Split { axis, left, right }),
            },
        );
        proof {
            assert(self.nodes.len() == self.nodes@.len());
            assert(self.covered(left as int) == self.order@.subrange(lo as int, mid as int));
            assert(self.covered(right as int) == self.order@.subrange(mid as int, hi as int));
            assert(self.divided(*old(self), i as int, axis as int));
            lemma_division_keeps_underway(*old(self), *self, i as int, axis as int);
        }
    }
}

impl BvhBuilder {
    /// Starts a hierarchy over the primitives described by `items`, where
    /// `None` stands for a primitive that has no box. The hierarchy starts
    /// as one node that covers them all in the order given.
    ///
    /// Fails if there is no primitive, and else if one of them has no box.
    pub fn new(items: Vec<Option<Bounds>>) -> (made: Result<BvhBuilder, BvhError>)
        ensures
            match made {
                Ok(builder) => {
                    &&& items@.len() > 0
                    &&& forall|k: int| 0 <= k < items@.len() ==> (#[trigger] items@[k]) is Some
                    &&& builder.inv()
                    &&& builder.tree.bounds@ == Seq::new(
                        items@.len(),
                        |k: int| items@[k].unwrap(),
                    )
                    &&& builder.tree.order@ == numbering(items@.len())
                    &&& builder.tree.nodes@.len() == 1
                    &&& builder.open@ == if items@.len() >= 2 {
                        seq![0usize]
                    } else {
                        Seq::<usize>::empty()
                    }
                },
                Err(BvhError::Empty) => items@.len() == 0,
                Err(BvhError::Unbounded { primitive }) => {
                    &&& primitive < items@.len()
                    &&& items@[primitive as int] is None
                    &&& forall|k: int| 0 <= k < primitive ==> (#[trigger] items@[k]) is Some
                },
            },
    {
        let n = items.len();
        if n == 0 {
            return Err(BvhError::Empty);
        }
        let mut bounds: Vec<Bounds> = Vec::new();
        let mut order: Vec<usize> = Vec::new();
        let mut k: usize = 0;
        while k < n
            invariant
                n == items@.len(),
                k <= n,
                bounds@.len() == k,
                order@.len() == k,
                forall|j: int| 0 <= j < k ==> (#[trigger] items@[j]) is Some,
                forall|j: int| 0 <= j < k ==> (#[trigger] bounds@[j]) == items@[j].unwrap(),
                forall|j: int| 0 <= j < k ==> (#[trigger] order@[j]) == j,
            decreases n - k,
        {
            match items[k] {
                Some(b) => {
                    bounds.push(b);
                    order.push(k);
                },
                None => {
                    return Err(BvhError::Unbounded { primitive: k });
                },
            }
            k = k + 1;
        }
        let bbox = stretch_hull(&bounds, &order, 0, n);
        let mut nodes: Vec<Node> = Vec::new();
        nodes.push(Node { bbox, first: 0, count: n, split: None });
        let mut open: Vec<usize> = Vec::new();
        if n >= 2 {
            open.push(0);
        }
        let builder = BvhBuilder { tree: BVH { bounds, order, nodes }, open };
        proof {
            let t = builder.tree;
            assert(t.order@ =~= numbering(n as nat));
            assert(t.bounds@ =~= Seq::new(items@.len(), |k: int| items@[k].unwrap()));
            assert(t.covered(0) =~= t.order@.subrange(0, n as int));
            assert(t.node_is_underway(0));
            assert(nodes_still_to_come(t.nodes@, 1) == nodes_still_to_come(t.nodes@, 0)
                + nodes_to_come(t.nodes@[0]));
            if n >= 2 {
                assert(builder.open@[0] == 0);
                assert(builder.open@ =~= seq![0usize]);
            }
        }
        Ok(builder)
    }

    /// Returns the smallest box that holds the centres of the primitives
    /// of the node to be divided next, or `None` when no node is left to
    /// divide. How far this box extends on each axis is what `split` has
    /// to be told.
    pub fn pending(&self) -> (centres: Option<Aabb>)
        requires
            self.inv(),
        ensures
            centres is Some <==> self.open@.len() > 0,
            centres matches Some(c) ==> is_hull(
                c,
                centres_of(self.tree.bounds@, self.tree.covered(self.open@.last() as int)),
            ),
    {
        let waiting = self.open.len();
        if waiting > 0 {
            let i = self.open[waiting - 1];
            proof {
                assert(self.tree.awaits_split(i as int));
                assert(self.tree.node_is_underway(i as int));
                lemma_order_names_every_primitive(self.tree);
            }
            let node = self.tree.nodes[i];
            Some(stretch_centres(&self.tree.bounds, &self.tree.order, node.first, node.first + node.count))
        } else {
            None
        }
    }

    /// Divides the node to be divided next, given how far the centres of
    /// its primitives extend on the three axes: sorts its primitives by
    /// centre along the axis of the largest extent, and splits them at the
    /// middle into two new nodes, each with the smallest box around its
    /// primitives. Those of
    /// the two that cover more than one primitive are to be divided in
    /// their turn, the lower one next. When no node is left to divide,
    /// nothing changes.
    pub fn split(&mut self, extents: Point)
        requires
            old(self).inv(),
        ensures
            final(self).inv(),
            old(self).open@.len() > 0 ==> {
                &&& final(self).tree.divided(
                    old(self).tree,
                    old(self).open@.last() as int,
                    widest(extents),
                )
                &&& final(self).open@ == old(self).reopened(
                    old(self).tree.nodes@[old(self).open@.last() as int].count as int,
                    old(self).tree.nodes@.len() as int,
                )
            },
            old(self).open@.len() == 0 ==> {
                &&& final(self).open@ == old(self).open@
                &&& final(self).tree.bounds@ == old(self).tree.bounds@
                &&& final(self).tree.order@ == old(self).tree.order@
                &&& final(self).tree.nodes@ == old(self).tree.nodes@
            },
    {
        let i = match self.open.pop() {
            Some(i) => i,
            None => {
                return;
            },
        };
        let axis = widest_axis(&extents);
        assert(old(self).tree.awaits_split(i as int));
        let count = self.tree.nodes[i].count;
        let left = self.tree.nodes.len();
        self.tree.divide(i, axis);
        let half = count / 2;
        if count - half >= 2 {
            self.open.push(left + 1);
        }
        if half >= 2 {
            self.open.push(left);
        }
        proof {
            assert(self.open@ =~= old(self).reopened(count as int, left as int));
            lemma_division_keeps_open_exact(*old(self), *self, axis as int);
            lemma_division_keeps_count(old(self).tree, self.tree, i as int, axis as int);
        }
    }

    /// Hands over the finished hierarchy, or `None` while a node is left to
    /// divide.
    pub fn finish(self) -> (done: Option<BVH>)
        requires
            self.inv(),
        ensures
            done is Some <==> self.open@.len() == 0,
            done matches Some(tree) ==> {
                &&& tree.wf()
                &&& tree.bounds@ == self.tree.bounds@
                &&& tree.order@ == self.tree.order@
                &&& tree.nodes@ == self.tree.nodes@
            },
    {
        if self.open.len() > 0 {
            return None;
        }
        proof {
            let t = self.tree;
            assert forall|i: int| 0 <= i < t.nodes@.len() && (#[trigger] t.nodes@[i]).split
                is None implies t.nodes@[i].count == 1 by {
                assert(t.node_is_underway(i));
                if t.nodes@[i].count >= 2 {
                    assert(t.awaits_split(i));
                    assert(self.open@.contains(i as usize));
                }
            }
            lemma_no_nodes_to_come(t.nodes@, t.nodes@.len() as int);
            assert forall|i: int| 0 <= i < t.nodes@.len() implies #[trigger] t.node_is_sound(i) by {
                assert(t.node_is_underway(i));
                let node = t.nodes@[i];
                if node.split is None {
                    let only = t.bounds@[t.order@[node.first as int] as int].bbox;
                    assert(boxes_of(t.bounds@, t.covered(i)) =~= seq![only]);
                    lemma_hull_of_one(only);
                    lemma_hull_is_unique(node.bbox, only, seq![only]);
                }
            }
        }
        Some(self.tree)
    }
}

} // verus!
