//! Keeping the nearest of the hits that a ray finds.
//!
//! A search along a ray accepts hit parameters in the half-open interval from
//! `t_min` (excluded) to a limit (included), and each accepted hit becomes
//! the new limit, so the interval only shrinks.

use vstd::prelude::*;
use crate::utility::scalar::Scalar;

verus! {

/// How far a search still reaches, and whether it has accepted a hit.
///
/// Once a hit has been accepted, `limit` is its parameter.
pub struct Reach {
    pub limit: int,
    pub found: bool,
}

/// Whether a hit at parameter `t` counts for a search between `t_min` and
/// `limit`.
pub open spec fn admits(t_min: int, limit: int, t: int) -> bool {
    t_min < t <= limit
}

/// Tells whether a hit at parameter `t` counts for a search between `t_min`
/// and `limit`.
pub fn admitted(t_min: Scalar, limit: Scalar, t: Scalar) -> (counts: bool)
    ensures
        counts == admits(t_min as int, limit as int, t as int),
{
    t_min < t && t <= limit
}

impl Reach {
    /// The reach after `candidate` has been offered: an admitted hit
    /// replaces what was found before, anything else changes nothing.
    pub open spec fn offer(self, t_min: int, candidate: Option<int>) -> Reach {
        match candidate {
            Some(t) => if admits(t_min, self.limit, t) {
                Reach { limit: t, found: true }
            } else {
                self
            },
            None => self,
        }
    }

    /// The parameter of the nearest hit, if one was found.
    pub open spec fn nearest(self) -> Option<int> {
        if self.found {
            Some(self.limit)
        } else {
            None
        }
    }
}

/// The nearest hit that a search has accepted so far, with whatever the
/// caller wants to remember of it.
pub struct Closest<T> {
    pub t_min: Scalar,
    pub limit: Scalar,
    pub best: Option<T>,
}

impl<T> Closest<T> {
    /// How far the search reaches now.
    pub open spec fn reach(self) -> Reach {
        Reach { limit: self.limit as int, found: self.best is Some }
    }

    /// Starts a search that admits hits after `t_min` and up to `t_max`.
    pub fn new(t_min: Scalar, t_max: Scalar) -> (c: Closest<T>)
        ensures
            c.t_min == t_min,
            c.limit == t_max,
            c.best is None,
    {
        Closest { t_min, limit: t_max, best: None }
    }

    /// Returns the largest parameter that the search still admits.
    pub fn limit(&self) -> (l: Scalar)
        ensures
            l == self.limit,
    {
        self.limit
    }

    /// Takes in the answer of one object: a hit at parameter `t` with the
    /// caller's record of it, or `None` for a miss. A hit that the search
    /// admits becomes the nearest one and its parameter the new limit;
    /// any other answer changes nothing.
    pub fn offer(&mut self, candidate: Option<(Scalar, T)>)
        ensures
            final(self).t_min == old(self).t_min,
            final(self).reach() == old(self).reach().offer(
                old(self).t_min as int,
                match candidate {
                    Some(c) => Some(c.0 as int),
                    None => None,
                },
            ),
            final(self).best == match candidate {
                Some(c) => if admits(old(self).t_min as int, old(self).limit as int, c.0 as int) {
                    Some(c.1)
                } else {
                    old(self).best
                },
                None => old(self).best,
            },
    {
        if let Some((t, record)) = candidate {
            if self.t_min < t && t <= self.limit {
                self.limit = t;
                self.best = Some(record);
            }
        }
    }

    /// Ends the search: returns the parameter of the nearest hit with the
    /// caller's record of it, or `None` if no hit was admitted.
    pub fn into_nearest(self) -> (hit: Option<(Scalar, T)>)
        ensures
            hit == match self.best {
                Some(record) => Some((self.limit, record)),
                None => None,
            },
    {
        match self.best {
            Some(record) => Some((self.limit, record)),
            None => None,
        }
    }
}

/// What a fixed ray meets in a fixed scene: `probe(object, limit)` is the
/// parameter at which the ray hits the object when hits beyond `limit` do not
/// count, or `None` when it has no such hit.
pub type Probe = spec_fn(int, int) -> Option<int>;

/// The answer `hit` cut down to the parameters up to `limit`.
pub open spec fn clip(hit: Option<int>, limit: int) -> Option<int> {
    match hit {
        Some(t) => if t <= limit {
            Some(t)
        } else {
            None
        },
        None => None,
    }
}

/// Every object answers with its nearest hit: lowering the limit below
/// `top` only removes the answer, when the answer lies beyond the new limit,
/// and never brings up another.
pub open spec fn answers_nearest(probe: Probe, top: int) -> bool {
    forall|object: int, limit: int|
        limit <= top ==> #[trigger] probe(object, limit) == clip(probe(object, top), limit)
}

/// The reach after the objects of `objects` have been probed in order, each
/// with the limit that the ones before it left.
pub open spec fn scan(probe: Probe, t_min: int, objects: Seq<int>, reach: Reach) -> Reach
    decreases objects.len(),
{
    if objects.len() == 0 {
        reach
    } else {
        scan(
            probe,
            t_min,
            objects.drop_first(),
            reach.offer(t_min, probe(objects[0], reach.limit)),
        )
    }
}

/// Whether the ray hits `object` at a parameter that a search from `t_min`
/// up to `limit` admits, going by the object's answer under the limit `top`.
pub open spec fn reachable(probe: Probe, t_min: int, top: int, object: int, limit: int) -> bool {
    probe(object, top) matches Some(t) && admits(t_min, limit, t)
}

/// Whether the ray does not hit `object` after `t_min` and before `bound`,
/// going by the object's answer under the limit `top`.
pub open spec fn not_before(probe: Probe, t_min: int, top: int, object: int, bound: int) -> bool {
    probe(object, top) matches Some(t) ==> (t_min < t ==> bound <= t)
}

/// A search never reaches farther after a scan than before it, and what it
/// had found stays found.
pub proof fn lemma_scan_shrinks(probe: Probe, t_min: int, objects: Seq<int>, reach: Reach)
    ensures
        scan(probe, t_min, objects, reach).limit <= reach.limit,
        reach.found ==> scan(probe, t_min, objects, reach).found,
    decreases objects.len(),
{
    if objects.len() > 0 {
        lemma_scan_shrinks(
            probe,
            t_min,
            objects.drop_first(),
            reach.offer(t_min, probe(objects[0], reach.limit)),
        );
    }
}

/// A scan of objects of which none answers with a hit that the search
/// admits changes nothing.
pub proof fn lemma_scan_of_misses(probe: Probe, t_min: int, objects: Seq<int>, reach: Reach)
    requires
        forall|i: int|
            0 <= i < objects.len() ==> reach.offer(
                t_min,
                probe(#[trigger] objects[i], reach.limit),
            ) == reach,
    ensures
        scan(probe, t_min, objects, reach) == reach,
    decreases objects.len(),
{
    if objects.len() > 0 {
        let rest = objects.drop_first();
        assert(reach.offer(t_min, probe(objects[0], reach.limit)) == reach);
        assert forall|i: int| 0 <= i < rest.len() implies reach.offer(
            t_min,
            probe(#[trigger] rest[i], reach.limit),
        ) == reach by {
            assert(rest[i] == objects[i + 1]);
        }
        lemma_scan_of_misses(probe, t_min, rest, reach);
    }
}

/// Scanning two runs of objects one after the other is scanning their
/// concatenation.
pub proof fn lemma_scan_concat(
    probe: Probe,
    t_min: int,
    first: Seq<int>,
    second: Seq<int>,
    reach: Reach,
)
    ensures
        scan(probe, t_min, first + second, reach) == scan(
            probe,
            t_min,
            second,
            scan(probe, t_min, first, reach),
        ),
    decreases first.len(),
{
    if first.len() == 0 {
        assert(first + second =~= second);
    } else {
        assert((first + second).drop_first() =~= first.drop_first() + second);
        lemma_scan_concat(
            probe,
            t_min,
            first.drop_first(),
            second,
            reach.offer(t_min, probe(first[0], reach.limit)),
        );
    }
}

/// What a scan amounts to when every object answers with its nearest hit.
///
/// If the ray reaches none of the objects, the scan changes nothing.
/// Otherwise it finds a hit, its limit is the parameter at which the ray
/// hits one of the objects, and no object is hit after `t_min` and before
/// that parameter.
pub proof fn lemma_scan_finds_minimum(
    probe: Probe,
    t_min: int,
    top: int,
    objects: Seq<int>,
    reach: Reach,
)
    requires
        answers_nearest(probe, top),
        reach.limit <= top,
    ensures
        ({
            let end = scan(probe, t_min, objects, reach);
            &&& (forall|i: int|
                0 <= i < objects.len() ==> !reachable(probe, t_min, top, #[trigger] objects[i], reach.limit))
                ==> end == reach
            &&& (exists|i: int|
                0 <= i < objects.len() && reachable(probe, t_min, top, #[trigger] objects[i], reach.limit))
                ==> {
                &&& end.found
                &&& exists|i: int|
                    0 <= i < objects.len() && probe(#[trigger] objects[i], top) == Some(end.limit)
                        && admits(t_min, reach.limit, end.limit)
                &&& forall|i: int|
                    0 <= i < objects.len() ==> not_before(probe, t_min, top, #[trigger] objects[i], end.limit)
            }
        }),
    decreases objects.len(),
{
    if objects.len() > 0 {
        let head = objects[0];
        let rest = objects.drop_first();
        let next = reach.offer(t_min, probe(head, reach.limit));
        let end = scan(probe, t_min, objects, reach);
        assert(probe(head, reach.limit) == clip(probe(head, top), reach.limit));
        lemma_scan_finds_minimum(probe, t_min, top, rest, next);
        lemma_scan_shrinks(probe, t_min, rest, next);
        assert(forall|i: int| 0 <= i < rest.len() ==> rest[i] == objects[i + 1]);
        if reachable(probe, t_min, top, head, reach.limit) {
            let t0 = probe(head, top).unwrap();
            assert(next == Reach { limit: t0, found: true });
            if exists|i: int|
                0 <= i < rest.len() && reachable(probe, t_min, top, #[trigger] rest[i], next.limit) {
                let j = choose|i: int|
                    0 <= i < rest.len() && probe(#[trigger] rest[i], top) == Some(end.limit)
                        && admits(t_min, next.limit, end.limit);
                assert(objects[j + 1] == rest[j]);
                assert forall|i: int| 0 <= i < objects.len() implies not_before(
                    probe,
                    t_min,
                    top,
                    #[trigger] objects[i],
                    end.limit,
                ) by {
                    if i > 0 {
                        assert(rest[i - 1] == objects[i]);
                    }
                }
            } else {
                assert(end == next);
                assert(objects[0] == head);
                assert forall|i: int| 0 <= i < objects.len() implies not_before(
                    probe,
                    t_min,
                    top,
                    #[trigger] objects[i],
                    end.limit,
                ) by {
                    if i > 0 {
                        assert(rest[i - 1] == objects[i]);
                        assert(!reachable(probe, t_min, top, rest[i - 1], next.limit));
                    }
                }
            }
        } else {
            assert(next == reach);
            if exists|i: int|
                0 <= i < objects.len() && reachable(probe, t_min, top, #[trigger] objects[i], reach.limit) {
                let k = choose|i: int|
                    0 <= i < objects.len() && reachable(probe, t_min, top, #[trigger] objects[i], reach.limit);
                assert(k > 0);
                assert(rest[k - 1] == objects[k]);
                let j = choose|i: int|
                    0 <= i < rest.len() && probe(#[trigger] rest[i], top) == Some(end.limit)
                        && admits(t_min, next.limit, end.limit);
                assert(objects[j + 1] == rest[j]);
                assert forall|i: int| 0 <= i < objects.len() implies not_before(
                    probe,
                    t_min,
                    top,
                    #[trigger] objects[i],
                    end.limit,
                ) by {
                    if i > 0 {
                        assert(rest[i - 1] == objects[i]);
                    } else {
                        lemma_scan_shrinks(probe, t_min, rest, next);
                    }
                }
            } else {
                assert forall|i: int|
                    0 <= i < rest.len() implies !reachable(probe, t_min, top, #[trigger] rest[i], next.limit) by {
                    assert(rest[i] == objects[i + 1]);
                }
            }
        }
    }
}

/// The answer of an object that the ray meets at `t` and nowhere else.
pub open spec fn hit_at(t: int, t_min: int, limit: int) -> Option<int> {
    if admits(t_min, limit, t) {
        Some(t)
    } else {
        None
    }
}

/// An object that the ray meets in one place answers with its nearest hit.
pub proof fn lemma_single_hit_answers_nearest(t: int, t_min: int, top: int, limit: int)
    requires
        limit <= top,
    ensures
        hit_at(t, t_min, limit) == clip(hit_at(t, t_min, top), limit),
{
}

/// A list of objects that each answer with their nearest hit answers with
/// its nearest hit too: it can stand as one object in another list or in a
/// hierarchy.
pub proof fn lemma_list_answers_nearest(
    probe: Probe,
    t_min: int,
    top: int,
    objects: Seq<int>,
    limit: int,
)
    requires
        answers_nearest(probe, top),
        limit <= top,
    ensures
        scan(probe, t_min, objects, Reach { limit, found: false }).nearest() == clip(
            scan(probe, t_min, objects, Reach { limit: top, found: false }).nearest(),
            limit,
        ),
{
    let far = Reach { limit: top, found: false };
    let near = Reach { limit, found: false };
    let a = scan(probe, t_min, objects, far);
    let b = scan(probe, t_min, objects, near);
    lemma_scan_finds_minimum(probe, t_min, top, objects, far);
    lemma_scan_finds_minimum(probe, t_min, top, objects, near);
    if exists|i: int|
        0 <= i < objects.len() && reachable(probe, t_min, top, #[trigger] objects[i], top) {
        let ia = choose|i: int|
            0 <= i < objects.len() && probe(#[trigger] objects[i], top) == Some(a.limit) && admits(
                t_min,
                top,
                a.limit,
            );
        if a.limit <= limit {
            assert(reachable(probe, t_min, top, objects[ia], limit));
            let ib = choose|i: int|
                0 <= i < objects.len() && probe(#[trigger] objects[i], top) == Some(b.limit)
                    && admits(t_min, limit, b.limit);
            assert(not_before(probe, t_min, top, objects[ib], a.limit));
            assert(not_before(probe, t_min, top, objects[ia], b.limit));
        } else {
            assert forall|i: int| 0 <= i < objects.len() implies !reachable(
                probe,
                t_min,
                top,
                #[trigger] objects[i],
                limit,
            ) by {
                assert(not_before(probe, t_min, top, objects[i], a.limit));
            }
        }
    } else {
        assert forall|i: int| 0 <= i < objects.len() implies !reachable(
            probe,
            t_min,
            top,
            #[trigger] objects[i],
            limit,
        ) by {
            assert(!reachable(probe, t_min, top, objects[i], top));
        }
    }
}

/// When every object answers with its nearest hit, the order in which a
/// scan asks the objects does not matter, nor how often it asks each: two
/// runs of the same objects find the same.
pub proof fn lemma_scan_order_is_immaterial(
    probe: Probe,
    t_min: int,
    top: int,
    first: Seq<int>,
    second: Seq<int>,
    reach: Reach,
)
    requires
        answers_nearest(probe, top),
        reach.limit <= top,
        forall|object: int| first.contains(object) <==> second.contains(object),
    ensures
        scan(probe, t_min, first, reach) == scan(probe, t_min, second, reach),
{
    lemma_scan_finds_minimum(probe, t_min, top, first, reach);
    lemma_scan_finds_minimum(probe, t_min, top, second, reach);
    let a = scan(probe, t_min, first, reach);
    let b = scan(probe, t_min, second, reach);
    if exists|i: int|
        0 <= i < first.len() && reachable(probe, t_min, top, #[trigger] first[i], reach.limit) {
        let i = choose|i: int|
            0 <= i < first.len() && reachable(probe, t_min, top, #[trigger] first[i], reach.limit);
        assert(first.contains(first[i]));
        let j = choose|j: int| 0 <= j < second.len() && second[j] == first[i];
        assert(reachable(probe, t_min, top, second[j], reach.limit));
        let ia = choose|i: int|
            0 <= i < first.len() && probe(#[trigger] first[i], top) == Some(a.limit) && admits(
                t_min,
                reach.limit,
                a.limit,
            );
        let ib = choose|i: int|
            0 <= i < second.len() && probe(#[trigger] second[i], top) == Some(b.limit) && admits(
                t_min,
                reach.limit,
                b.limit,
            );
        assert(first.contains(first[ia]));
        let ja = choose|j: int| 0 <= j < second.len() && second[j] == first[ia];
        assert(not_before(probe, t_min, top, second[ja], b.limit));
        assert(second.contains(second[ib]));
        let jb = choose|j: int| 0 <= j < first.len() && first[j] == second[ib];
        assert(not_before(probe, t_min, top, first[jb], a.limit));
    } else {
        assert forall|j: int| 0 <= j < second.len() implies !reachable(
            probe,
            t_min,
            top,
            #[trigger] second[j],
            reach.limit,
        ) by {
            assert(second.contains(second[j]));
            let i = choose|i: int| 0 <= i < first.len() && first[i] == second[j];
            assert(!reachable(probe, t_min, top, first[i], reach.limit));
        }
    }
}

} // verus!
