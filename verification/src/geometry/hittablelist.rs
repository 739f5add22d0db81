//! An unordered list of objects, searched one after the other.

use vstd::prelude::*;
use crate::geometry::nearest::{admits, scan, Closest, Probe, Reach};
use crate::utility::aabb::{is_hull, lemma_hull_of_both, lemma_hull_of_one, Aabb};
use crate::utility::random::random_index;
use crate::utility::scalar::Scalar;

verus! {

/// The numbers from 0 up to `n`, in order: the objects of a list of `n`.
pub open spec fn indices(n: nat) -> Seq<int> {
    Seq::new(n, |i: int| i)
}

/// A list of objects, each known by the box around it, or by `None` if it
/// has no box. An object is referred to by its position in the list.
pub struct HittableList {
    pub objects: Vec<Option<Aabb>>,
}

impl HittableList {
    /// Whether the list has a box: it is not empty and each object has one.
    pub open spec fn bounded(self) -> bool {
        self.objects@.len() > 0 && forall|i: int|
            0 <= i < self.objects@.len() ==> (#[trigger] self.objects@[i]) is Some
    }

    /// The boxes of the objects, in list order.
    pub open spec fn boxes(self) -> Seq<Aabb> {
        Seq::new(self.objects@.len(), |i: int| self.objects@[i].unwrap())
    }

    /// Makes the list of the given objects.
    pub fn new(objects: Vec<Option<Aabb>>) -> (list: HittableList)
        ensures
            list.objects == objects,
    {
        HittableList { objects }
    }

    /// Empties the list.
    pub fn clear(&mut self)
        ensures
            final(self).objects@ == Seq::<Option<Aabb>>::empty(),
    {
        self.objects.clear();
    }

    /// Appends an object.
    pub fn add(&mut self, object: Option<Aabb>)
        ensures
            final(self).objects@ == old(self).objects@.push(object),
    {
        self.objects.push(object);
    }

    /// Returns the smallest box around the boxes of all objects, or `None`
    /// if the list is empty or one of its objects has no box.
    pub fn bounding_box(&self) -> (hull: Option<Aabb>)
        ensures
            hull is Some <==> self.bounded(),
            hull matches Some(b) ==> is_hull(b, self.boxes()),
    {
        if self.objects.len() == 0 {
            return None;
        }
        let mut acc = match self.objects[0] {
            Some(first) => first,
            None => {
                return None;
            },
        };
        let ghost boxes = self.boxes();
        let mut k: usize = 1;
        proof {
            lemma_hull_of_one(acc);
            assert(boxes.take(1) =~= seq![acc]);
        }
        while k < self.objects.len()
            invariant
                1 <= k <= self.objects.len(),
                boxes == self.boxes(),
                forall|i: int| 0 <= i < k ==> (#[trigger] self.objects@[i]) is Some,
                is_hull(acc, boxes.take(k as int)),
            decreases self.objects.len() - k,
        {
            match self.objects[k] {
                Some(next) => {
                    proof {
                        lemma_hull_of_one(next);
                        lemma_hull_of_both(acc, boxes.take(k as int), next, seq![next]);
                        assert(boxes.take(k as int) + seq![next] =~= boxes.take(k + 1));
                    }
                    acc = Aabb::surrounding_box(&acc, &next);
                },
                None => {
                    return None;
                },
            }
            k = k + 1;
        }
        assert(boxes.take(k as int) =~= boxes);
        Some(acc)
    }

    /// Starts the search for the nearest hit among the objects, admitting
    /// hits after `t_min` and up to `t_max`.
    pub fn hit<T>(&self, t_min: Scalar, t_max: Scalar) -> (search: Scan<T>)
        ensures
            search.next == 0,
            search.len == self.objects@.len(),
            search.closest.t_min == t_min,
            search.closest.limit == t_max,
            search.closest.best is None,
    {
        Scan { next: 0, len: self.objects.len(), closest: Closest::new(t_min, t_max) }
    }

    /// Picks one of the objects at random.
    pub fn random(&self) -> (object: usize)
        requires
            self.objects@.len() > 0,
        ensures
            object < self.objects@.len(),
    {
        random_index(self.objects.len() - 1)
    }
}

impl Default for HittableList {
    fn default() -> (list: HittableList)
        ensures
            list.objects@ == Seq::<Option<Aabb>>::empty(),
    {
        HittableList { objects: Vec::new() }
    }
}

/// A search through a list in progress: the objects before `next` have
/// answered, the others have not.
pub struct Scan<T> {
    pub next: usize,
    pub len: usize,
    pub closest: Closest<T>,
}

impl<T> Scan<T> {
    /// What the search will have found at its end if each object still to
    /// be asked answers as `probe` says.
    pub open spec fn outcome(self, probe: Probe) -> Reach {
        scan(
            probe,
            self.closest.t_min as int,
            indices(self.len as nat).skip(self.next as int),
            self.closest.reach(),
        )
    }

    /// Returns the object to ask next, or `None` when all have answered.
    pub fn current(&self) -> (object: Option<usize>)
        ensures
            object == if self.next < self.len {
                Some(self.next)
            } else {
                None
            },
    {
        if self.next < self.len {
            Some(self.next)
        } else {
            None
        }
    }

    /// Returns the largest parameter at which the object to ask next may
    /// report a hit.
    pub fn limit(&self) -> (l: Scalar)
        ensures
            l == self.closest.limit,
    {
        self.closest.limit()
    }

    /// Takes in the answer of the current object and moves on to the next.
    /// Once all objects have answered, a further answer is ignored.
    pub fn answer(&mut self, hit: Option<(Scalar, T)>)
        ensures
            final(self).len == old(self).len,
            old(self).next < old(self).len ==> {
                &&& final(self).next == old(self).next + 1
                &&& final(self).closest.t_min == old(self).closest.t_min
                &&& final(self).closest.reach() == old(self).closest.reach().offer(
                    old(self).closest.t_min as int,
                    match hit {
                        Some(h) => Some(h.0 as int),
                        None => None,
                    },
                )
                &&& final(self).closest.best == match hit {
                    Some(h) => if admits(
                        old(self).closest.t_min as int,
                        old(self).closest.limit as int,
                        h.0 as int,
                    ) {
                        Some(h.1)
                    } else {
                        old(self).closest.best
                    },
                    None => old(self).closest.best,
                }
            },
            old(self).next >= old(self).len ==> *final(self) == *old(self),
    {
        if self.next < self.len {
            self.closest.offer(hit);
            self.next = self.next + 1;
        }
    }

    /// Ends the search: returns the nearest hit that was admitted, if any.
    pub fn finish(self) -> (hit: Option<(Scalar, T)>)
        ensures
            hit == match self.closest.best {
                Some(record) => Some((self.closest.limit, record)),
                None => None,
            },
    {
        self.closest.into_nearest()
    }
}

/// A search through a list that has just started will find what a scan of
/// all its objects in list order finds.
pub proof fn lemma_scan_starts_with_all<T>(search: Scan<T>, probe: Probe)
    requires
        search.next == 0,
    ensures
        search.outcome(probe) == scan(
            probe,
            search.closest.t_min as int,
            indices(search.len as nat),
            search.closest.reach(),
        ),
{
    assert(indices(search.len as nat).skip(0) =~= indices(search.len as nat));
}

/// Each answer to a search through a list that agrees with `probe` leaves
/// the outcome of the search as it was, and when no object is left the
/// outcome is what the search holds.
pub proof fn lemma_scan_step<T>(before: Scan<T>, after: Scan<T>, probe: Probe)
    requires
        before.next < before.len,
        after.next == before.next + 1,
        after.len == before.len,
        after.closest.t_min == before.closest.t_min,
        after.closest.reach() == before.closest.reach().offer(
            before.closest.t_min as int,
            probe(before.next as int, before.closest.limit as int),
        ),
    ensures
        after.outcome(probe) == before.outcome(probe),
        after.next == after.len ==> after.outcome(probe) == after.closest.reach(),
{
    let rest = indices(before.len as nat).skip(before.next as int);
    assert(rest[0] == before.next as int);
    assert(rest.drop_first() =~= indices(after.len as nat).skip(after.next as int));
}

} // verus!
