//! Searching the hierarchy for the nearest hit.
//!
//! The search does not compute where a ray goes. It asks the caller, one
//! question at a time, where the ray crosses the planes of a node's box or
//! where it hits a primitive, and decides from each answer what to ask next.

use vstd::prelude::*;
use crate::geometry::bvh::{World, BVH};
use crate::geometry::nearest::{admits, Closest, Reach};
use crate::utility::aabb::{Aabb, Crossings};
use crate::utility::scalar::Scalar;

verus! {

/// What a search needs to know next.
#[derive(Debug, Clone, Copy, PartialEq, Eq, Structural)]
pub enum Query {
    /// Where the ray crosses the planes of `bbox`, the box of node `node`.
    Slab { node: usize, bbox: Aabb },
    /// Where the ray hits `primitive`, hits beyond `limit` not counting.
    Probe { primitive: usize, limit: Scalar },
    /// Nothing: the search is over.
    Done,
}

/// A search of a hierarchy in progress.
///
/// `stack` holds the nodes still to be visited, the next one last. `leaf`
/// is the primitive of a leaf whose box the ray passes and whose answer is
/// awaited.
pub struct Traversal<T> {
    pub stack: Vec<usize>,
    pub leaf: Option<usize>,
    pub closest: Closest<T>,
}

/// What searching the nodes of `stack`, the last one first, adds to
/// `reach`.
pub open spec fn visit_all(tree: BVH, world: World, stack: Seq<usize>, reach: Reach) -> Reach
    decreases stack.len(),
{
    if stack.len() == 0 {
        reach
    } else {
        visit_all(tree, world, stack.drop_last(), tree.visit(world, stack.last() as int, reach))
    }
}

/// The nodes left to visit and the primitive to ask after the slab test of
/// the last node of `stack` has told `passes`: a node that the ray does not
/// pass is dropped; a leaf gives way to its primitive; a branch gives way
/// to its halves, the lower one to be visited first.
pub open spec fn after_slab(tree: BVH, stack: Seq<usize>, passes: bool) -> (Seq<usize>, Option<usize>) {
    let node = tree.nodes@[stack.last() as int];
    let rest = stack.drop_last();
    if !passes {
        (rest, None)
    } else {
        match node.split {
            None => (rest, Some(tree.order@[node.first as int])),
            Some(s) => (rest.push(s.right).push(s.left), None),
        }
    }
}

impl<T> Traversal<T> {
    /// Whether the search refers to nodes and primitives of `tree` only.
    pub open spec fn wf(self, tree: BVH) -> bool {
        &&& forall|k: int| 0 <= k < self.stack@.len() ==> (#[trigger] self.stack@[k]) < tree.nodes@.len()
        &&& self.leaf matches Some(p) ==> p < tree.bounds@.len()
    }

    /// Whether the search waits for the crossings of a box.
    pub open spec fn awaits_slab(self) -> bool {
        self.leaf is None && self.stack@.len() > 0
    }

    /// What the search will have found at its end if every answer still to
    /// come is the one that `world` gives.
    pub open spec fn outcome(self, tree: BVH, world: World) -> Reach {
        visit_all(
            tree,
            world,
            self.stack@,
            match self.leaf {
                Some(p) => self.closest.reach().offer(
                    world.t_min,
                    (world.probe)(p as int, self.closest.limit as int),
                ),
                None => self.closest.reach(),
            },
        )
    }

    /// Returns what the caller has to find out next.
    pub fn query(&self, tree: &BVH) -> (q: Query)
        requires
            tree.wf(),
            self.wf(*tree),
        ensures
            q == match self.leaf {
                Some(primitive) => Query::Probe { primitive, limit: self.closest.limit },
                None => if self.stack@.len() > 0 {
                    Query::Slab {
                        node: self.stack@.last(),
                        bbox: tree.nodes@[self.stack@.last() as int].bbox,
                    }
                } else {
                    Query::Done
                },
            },
    {
        match self.leaf {
            Some(primitive) => Query::Probe { primitive, limit: self.closest.limit() },
            None => {
                let depth = self.stack.len();
                if depth > 0 {
                    let node = self.stack[depth - 1];
                    Query::Slab { node, bbox: tree.nodes[node].bbox }
                } else {
                    Query::Done
                }
            },
        }
    }

    /// Takes in where the ray crosses the planes of the box asked for, and
    /// applies the slab test with the present limit of the search. A call
    /// while the search is not waiting for crossings changes nothing.
    pub fn answer_slab(&mut self, tree: &BVH, crossings: Crossings)
        requires
            tree.wf(),
            old(self).wf(*tree),
        ensures
            final(self).wf(*tree),
            final(self).closest == old(self).closest,
            old(self).awaits_slab() ==> (final(self).stack@, final(self).leaf) == after_slab(
                *tree,
                old(self).stack@,
                crossings.overlap(old(self).closest.t_min as int, old(self).closest.limit as int),
            ),
            !old(self).awaits_slab() ==> final(self).stack@ == old(self).stack@ && final(self).leaf
                == old(self).leaf,
    {
        if self.leaf.is_some() {
            return;
        }
        let top = match self.stack.pop() {
            Some(top) => top,
            None => {
                return;
            },
        };
        assert(self.stack@ == old(self).stack@.drop_last());
        assert(top == old(self).stack@.last());
        assert(tree.node_is_sound(top as int));
        if crossings.hit(self.closest.t_min, self.closest.limit) {
            let node = tree.nodes[top];
            match node.split {
                None => {
                    proof {
                        crate::geometry::bvh::laws::lemma_order_names_every_primitive(*tree);
                    }
                    self.leaf = Some(tree.order[node.first]);
                },
                Some(s) => {
                    self.stack.push(s.right);
                    self.stack.push(s.left);
                },
            }
        }
    }

    /// Takes in the answer of the primitive asked for: a hit at a parameter
    /// with the caller's record of it, or `None`. A call while the search
    /// is not waiting for a primitive changes nothing.
    pub fn answer_probe(&mut self, hit: Option<(Scalar, T)>)
        ensures
            final(self).stack == old(self).stack,
            final(self).leaf is None,
            final(self).closest.t_min == old(self).closest.t_min,
            old(self).leaf is None ==> final(self).closest == old(self).closest,
            old(self).leaf is Some ==> {
                &&& final(self).closest.reach() == old(self).closest.reach().offer(
                    old(self).closest.t_min as int,
                    match hit {
                        Some(h) => Some(h.0 as int),
                        None => None,
                    },
                )
                &&& final(self).closest.best == match hit {
                    Some(h) => if admits(
                        old(self).closest.t_min as int,
                        old(self).closest.limit as int,
                        h.0 as int,
                    ) {
                        Some(h.1)
                    } else {
                        old(self).closest.best
                    },
                    None => old(self).closest.best,
                }
            },
    {
        if self.leaf.is_some() {
            self.closest.offer(hit);
            self.leaf = None;
        }
    }

    /// Ends the search: returns the nearest hit that was admitted, if any.
    pub fn finish(self) -> (hit: Option<(Scalar, T)>)
        ensures
            hit == match self.closest.best {
                Some(record) => Some((self.closest.limit, record)),
                None => None,
            },
    {
        self.closest.into_nearest()
    }
}

impl BVH {
    /// Returns the box around everything in the hierarchy.
    pub fn bounding_box(&self) -> (b: Aabb)
        requires
            self.wf(),
        ensures
            b == self.nodes@[0].bbox,
    {
        self.nodes[0].bbox
    }

    /// Starts the search for the nearest hit in the hierarchy, admitting
    /// hits after `t_min` and up to `t_max`. The search begins at the root.
    pub fn hit<T>(&self, t_min: Scalar, t_max: Scalar) -> (search: Traversal<T>)
        requires
            self.wf(),
        ensures
            search.wf(*self),
            search.stack@ == seq![0usize],
            search.leaf is None,
            search.closest.t_min == t_min,
            search.closest.limit == t_max,
            search.closest.best is None,
    {
        let mut stack: Vec<usize> = Vec::new();
        stack.push(0);
        Traversal { stack, leaf: None, closest: Closest::new(t_min, t_max) }
    }
}

/// A search that has just started will find what visiting the root finds.
pub proof fn lemma_search_starts_at_root<T>(tree: BVH, world: World, search: Traversal<T>)
    requires
        search.stack@ == seq![0usize],
        search.leaf is None,
    ensures
        search.outcome(tree, world) == tree.visit(world, 0, search.closest.reach()),
{
    let stack = search.stack@;
    assert(stack.drop_last().len() == 0);
    let first = tree.visit(world, stack.last() as int, search.closest.reach());
    assert(visit_all(tree, world, stack.drop_last(), first) == first);
}

/// An answer to a slab query that is the one `world` gives leaves the
/// outcome of the search as it was.
pub proof fn lemma_slab_answer_keeps_outcome<T>(
    tree: BVH,
    world: World,
    before: Traversal<T>,
    after: Traversal<T>,
)
    requires
        tree.wf(),
        before.wf(tree),
        before.awaits_slab(),
        world.t_min == before.closest.t_min,
        after.closest == before.closest,
        (after.stack@, after.leaf) == after_slab(
            tree,
            before.stack@,
            (world.crossings)(tree.nodes@[before.stack@.last() as int].bbox).overlap(
                before.closest.t_min as int,
                before.closest.limit as int,
            ),
        ),
    ensures
        after.outcome(tree, world) == before.outcome(tree, world),
{
    let i = before.stack@.last() as int;
    let rest = before.stack@.drop_last();
    let reach = before.closest.reach();
    let node = tree.nodes@[i];
    assert(tree.node_is_sound(i));
    let here = tree.visit(world, i, reach);
    assert(before.outcome(tree, world) == visit_all(tree, world, rest, here));
    if (world.crossings)(node.bbox).overlap(world.t_min, reach.limit) {
        match node.split {
            None => {
                assert(after.stack@ == rest);
                assert(after.leaf == Some(tree.order@[node.first as int]));
            },
            Some(s) => {
                let lower = tree.visit(world, s.left as int, reach);
                let pushed = rest.push(s.right).push(s.left);
                assert(after.stack@ == pushed);
                assert(pushed.last() == s.left);
                assert(pushed.drop_last() =~= rest.push(s.right));
                assert(rest.push(s.right).last() == s.right);
                assert(rest.push(s.right).drop_last() =~= rest);
                assert(visit_all(tree, world, pushed, reach) == visit_all(
                    tree,
                    world,
                    rest.push(s.right),
                    lower,
                ));
                assert(visit_all(tree, world, rest.push(s.right), lower) == visit_all(
                    tree,
                    world,
                    rest,
                    tree.visit(world, s.right as int, lower),
                ));
                assert(here == tree.visit(world, s.right as int, lower));
            },
        }
    } else {
        assert(after.stack@ == rest);
        assert(here == reach);
    }
}

/// An answer to a probe query that is the one `world` gives leaves the
/// outcome of the search as it was.
pub proof fn lemma_probe_answer_keeps_outcome<T>(
    tree: BVH,
    world: World,
    before: Traversal<T>,
    after: Traversal<T>,
)
    requires
        before.leaf is Some,
        world.t_min == before.closest.t_min,
        after.stack == before.stack,
        after.leaf is None,
        after.closest.reach() == before.closest.reach().offer(
            world.t_min,
            (world.probe)(before.leaf.unwrap() as int, before.closest.limit as int),
        ),
    ensures
        after.outcome(tree, world) == before.outcome(tree, world),
{
}

/// When nothing is left to ask, the outcome is what the search holds.
pub proof fn lemma_search_ends_with_its_outcome<T>(tree: BVH, world: World, search: Traversal<T>)
    requires
        search.leaf is None,
        search.stack@.len() == 0,
    ensures
        search.outcome(tree, world) == search.closest.reach(),
{
}

} // verus!
