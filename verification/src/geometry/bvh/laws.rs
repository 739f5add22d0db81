//! What holds of every finished hierarchy.

use vstd::prelude::*;
use crate::geometry::bvh::builder::boxes_of;
use crate::geometry::bvh::{as_objects, numbering, World, BVH};
use crate::geometry::hittablelist::indices;
use crate::geometry::nearest::{
    answers_nearest, lemma_scan_concat, lemma_scan_of_misses, lemma_scan_order_is_immaterial,
    lemma_scan_shrinks, scan, Reach,
};
use crate::utility::aabb::{is_hull, lemma_hull_of_both, lemma_hull_of_one};

verus! {

/// In a finished hierarchy, `order` names primitives only, and names each
/// of them.
pub proof fn lemma_order_names_every_primitive(tree: BVH)
    requires
        tree.order_is_rearranged(),
    ensures
        forall|k: int| 0 <= k < tree.order@.len() ==> (#[trigger] tree.order@[k]) < tree.bounds@.len(),
        forall|p: usize| p < tree.bounds@.len() ==> tree.order@.contains(p),
        tree.order@.no_duplicates(),
{
    broadcast use vstd::seq_lib::group_to_multiset_ensures;

    let n = tree.bounds@.len();
    let all = numbering(n);
    assert(tree.bounds.len() == n);
    assert forall|k: int| 0 <= k < tree.order@.len() implies (#[trigger] tree.order@[k]) < n by {
        let p = tree.order@[k];
        assert(tree.order@.contains(p));
        assert(tree.order@.to_multiset().count(p) > 0);
        assert(all.to_multiset().count(p) > 0);
        assert(all.contains(p));
        let j = choose|j: int| 0 <= j < all.len() && all[j] == p;
    }
    assert forall|p: usize| p < n implies tree.order@.contains(p) by {
        assert(all[p as int] == p);
        assert(all.contains(p));
        assert(all.to_multiset().count(p) > 0);
    }
    assert(all.no_duplicates());
    all.lemma_multiset_has_no_duplicates();
    tree.order@.lemma_multiset_has_no_duplicates_conv();
}

/// The box of every node encloses the box of every primitive that the node
/// covers.
pub proof fn lemma_node_box_encloses_its_primitives(tree: BVH, i: int)
    requires
        tree.wf(),
        0 <= i < tree.nodes@.len(),
    ensures
        forall|k: int|
            0 <= k < tree.covered(i).len() ==> tree.nodes@[i].bbox.encloses(
                tree.bounds@[(#[trigger] tree.covered(i)[k]) as int].bbox,
            ),
    decreases tree.nodes@.len() - i,
{
    assert(tree.node_is_sound(i));
    let node = tree.nodes@[i];
    match node.split {
        None => {},
        Some(s) => {
            assert(tree.node_is_sound(s.left as int));
            assert(tree.node_is_sound(s.right as int));
            lemma_node_box_encloses_its_primitives(tree, s.left as int);
            lemma_node_box_encloses_its_primitives(tree, s.right as int);
            let half = node.count / 2;
            assert forall|k: int| 0 <= k < tree.covered(i).len() implies node.bbox.encloses(
                tree.bounds@[(#[trigger] tree.covered(i)[k]) as int].bbox,
            ) by {
                if k < half {
                    assert(tree.covered(i)[k] == tree.covered(s.left as int)[k]);
                } else {
                    assert(tree.covered(i)[k] == tree.covered(s.right as int)[k - half]);
                }
            }
        },
    }
}

/// The box of every node is the smallest box around the boxes of the
/// primitives that the node covers.
pub proof fn lemma_node_box_is_tight(tree: BVH, i: int)
    requires
        tree.wf(),
        0 <= i < tree.nodes@.len(),
    ensures
        is_hull(tree.nodes@[i].bbox, boxes_of(tree.bounds@, tree.covered(i))),
    decreases tree.nodes@.len() - i,
{
    assert(tree.node_is_sound(i));
    let node = tree.nodes@[i];
    match node.split {
        None => {
            lemma_hull_of_one(node.bbox);
            assert(boxes_of(tree.bounds@, tree.covered(i)) =~= seq![node.bbox]);
        },
        Some(s) => {
            lemma_node_box_is_tight(tree, s.left as int);
            lemma_node_box_is_tight(tree, s.right as int);
            let lower = boxes_of(tree.bounds@, tree.covered(s.left as int));
            let upper = boxes_of(tree.bounds@, tree.covered(s.right as int));
            lemma_hull_of_both(
                tree.nodes@[s.left as int].bbox,
                lower,
                tree.nodes@[s.right as int].bbox,
                upper,
            );
            assert(tree.covered(i) =~= tree.covered(s.left as int) + tree.covered(s.right as int));
            assert(lower + upper =~= boxes_of(tree.bounds@, tree.covered(i)));
        },
    }
}

/// Searching the subtree of a node finds what a scan of the node's
/// primitives finds, in the order in which the tree holds them, provided
/// that the slab test is sound for the boxes of the scene.
pub proof fn lemma_visit_is_scan(tree: BVH, world: World, top: int, i: int, reach: Reach)
    requires
        tree.wf(),
        world.boxes_are_sound(tree.bounds@, top),
        0 <= i < tree.nodes@.len(),
        reach.limit <= top,
    ensures
        tree.visit(world, i, reach) == scan(
            world.probe,
            world.t_min,
            as_objects(tree.covered(i)),
            reach,
        ),
    decreases tree.nodes@.len() - i,
{
    lemma_order_names_every_primitive(tree);
    assert(tree.node_is_sound(i));
    let node = tree.nodes@[i];
    let objects = as_objects(tree.covered(i));
    if !(world.crossings)(node.bbox).overlap(world.t_min, reach.limit) {
        lemma_node_box_encloses_its_primitives(tree, i);
        assert forall|k: int| 0 <= k < objects.len() implies reach.offer(
            world.t_min,
            (world.probe)(#[trigger] objects[k], reach.limit),
        ) == reach by {
            let p = tree.covered(i)[k];
            assert(p == tree.order@[node.first + k]);
            assert(objects[k] == p as int);
            assert(node.bbox.encloses(tree.bounds@[p as int].bbox));
        }
        lemma_scan_of_misses(world.probe, world.t_min, objects, reach);
    } else {
        match node.split {
            None => {
                assert(objects.len() == 1);
                assert(objects[0] == tree.order@[node.first as int] as int);
                assert(objects.drop_first().len() == 0);
                let next = reach.offer(world.t_min, (world.probe)(objects[0], reach.limit));
                assert(scan(world.probe, world.t_min, objects.drop_first(), next) == next);
            },
            Some(s) => {
                let lower = as_objects(tree.covered(s.left as int));
                let upper = as_objects(tree.covered(s.right as int));
                assert(tree.node_is_sound(s.left as int));
                assert(tree.node_is_sound(s.right as int));
                lemma_visit_is_scan(tree, world, top, s.left as int, reach);
                let middle = tree.visit(world, s.left as int, reach);
                lemma_scan_shrinks(world.probe, world.t_min, lower, reach);
                lemma_visit_is_scan(tree, world, top, s.right as int, middle);
                lemma_scan_concat(world.probe, world.t_min, lower, upper, reach);
                assert(objects =~= lower + upper);
            },
        }
    }
}

/// The hierarchy and the plain list agree: for a ray whose primitives each
/// answer with their nearest hit and whose slab test is sound for the
/// boxes of the scene, searching the tree from its root finds a hit exactly
/// when asking the primitives one by one in list order finds one, and at the
/// same parameter.
pub proof fn lemma_tree_search_matches_list_search(tree: BVH, world: World, t_max: int)
    requires
        tree.wf(),
        answers_nearest(world.probe, t_max),
        world.boxes_are_sound(tree.bounds@, t_max),
    ensures
        tree.visit(world, 0, Reach { limit: t_max, found: false }) == scan(
            world.probe,
            world.t_min,
            indices(tree.bounds@.len()),
            Reach { limit: t_max, found: false },
        ),
{
    let reach = Reach { limit: t_max, found: false };
    lemma_visit_is_scan(tree, world, t_max, 0, reach);
    lemma_order_names_every_primitive(tree);
    let held = as_objects(tree.covered(0));
    let listed = indices(tree.bounds@.len());
    assert(tree.covered(0) =~= tree.order@);
    assert forall|object: int| held.contains(object) <==> listed.contains(object) by {
        if held.contains(object) {
            let k = choose|k: int| 0 <= k < held.len() && held[k] == object;
            assert(held[k] == tree.order@[k] as int);
            assert(listed[object] == object);
        }
        if listed.contains(object) {
            let j = choose|j: int| 0 <= j < listed.len() && listed[j] == object;
            assert(tree.order@.contains(object as usize));
            let k = choose|k: int| 0 <= k < tree.order@.len() && tree.order@[k] == object as usize;
            assert(held[k] == object);
        }
    }
    lemma_scan_order_is_immaterial(world.probe, world.t_min, t_max, held, listed, reach);
}

} // verus!
