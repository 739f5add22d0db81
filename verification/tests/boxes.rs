use pathtracer::utility::aabb::{Aabb, Crossings, Slab};
use pathtracer::utility::scalar::{ffmax, ffmin, Point};

fn p(x: i64, y: i64, z: i64) -> Point {
    Point::new(x, y, z)
}

fn encloses(outer: &Aabb, inner: &Aabb) -> bool {
    outer.min.x <= inner.min.x
        && outer.min.y <= inner.min.y
        && outer.min.z <= inner.min.z
        && inner.max.x <= outer.max.x
        && inner.max.y <= outer.max.y
        && inner.max.z <= outer.max.z
}

#[test]
fn ffmin_and_ffmax_pick_by_order() {
    assert_eq!(ffmin(3, 7), 3);
    assert_eq!(ffmin(7, 3), 3);
    assert_eq!(ffmin(-5, -5), -5);
    assert_eq!(ffmax(3, 7), 7);
    assert_eq!(ffmax(7, 3), 7);
    assert_eq!(ffmax(i64::MIN, i64::MAX), i64::MAX);
    assert_eq!(ffmin(i64::MIN, i64::MAX), i64::MIN);
}

#[test]
fn point_get_reads_each_axis() {
    let q = p(10, 20, 30);
    assert_eq!(q.get(0), 10);
    assert_eq!(q.get(1), 20);
    assert_eq!(q.get(2), 30);
}

#[test]
fn aabb_keeps_its_corners() {
    let b = Aabb::new(p(1, 2, 3), p(4, 5, 6));
    assert_eq!(b.get_min(), p(1, 2, 3));
    assert_eq!(b.get_max(), p(4, 5, 6));
}

#[test]
fn surrounding_box_takes_the_extremes() {
    let a = Aabb::new(p(0, 5, -3), p(4, 9, 2));
    let b = Aabb::new(p(-2, 6, -1), p(3, 12, 8));
    let s = Aabb::surrounding_box(&a, &b);
    assert_eq!(s, Aabb::new(p(-2, 5, -3), p(4, 12, 8)));
}

#[test]
fn surrounding_box_contains_both_and_is_tightest() {
    let a = Aabb::new(p(0, 0, 0), p(2, 2, 2));
    let b = Aabb::new(p(5, -1, 1), p(6, 1, 9));
    let s = Aabb::surrounding_box(&a, &b);
    assert!(encloses(&s, &a));
    assert!(encloses(&s, &b));
    let shrunk = [
        Aabb::new(p(s.min.x + 1, s.min.y, s.min.z), s.max),
        Aabb::new(p(s.min.x, s.min.y + 1, s.min.z), s.max),
        Aabb::new(p(s.min.x, s.min.y, s.min.z + 1), s.max),
        Aabb::new(s.min, p(s.max.x - 1, s.max.y, s.max.z)),
        Aabb::new(s.min, p(s.max.x, s.max.y - 1, s.max.z)),
        Aabb::new(s.min, p(s.max.x, s.max.y, s.max.z - 1)),
    ];
    for tighter in shrunk.iter() {
        assert!(!(encloses(tighter, &a) && encloses(tighter, &b)));
    }
}

#[test]
fn surrounding_box_of_a_box_with_itself_is_the_box() {
    let a = Aabb::new(p(-7, 0, 3), p(1, 1, 4));
    assert_eq!(Aabb::surrounding_box(&a, &a), a);
}

#[test]
fn surrounding_all_of_nothing_is_none() {
    assert_eq!(Aabb::surrounding_all(&Vec::new()), None);
}

#[test]
fn surrounding_all_folds_every_box() {
    let boxes = vec![
        Aabb::new(p(0, 0, 0), p(1, 1, 1)),
        Aabb::new(p(-4, 2, 0), p(-3, 3, 1)),
        Aabb::new(p(2, -9, 5), p(3, -8, 6)),
    ];
    assert_eq!(Aabb::surrounding_all(&boxes), Some(Aabb::new(p(-4, -9, 0), p(3, 3, 6))));
}

#[test]
fn around_holds_every_point() {
    assert_eq!(Aabb::around(&Vec::new()), None);
    let points = vec![p(3, 1, 4), p(1, 5, 9), p(2, 6, 5)];
    assert_eq!(Aabb::around(&points), Some(Aabb::new(p(1, 1, 4), p(3, 6, 9))));
    assert_eq!(Aabb::around(&vec![p(7, 7, 7)]), Some(Aabb::new(p(7, 7, 7), p(7, 7, 7))));
}

#[test]
fn corners_come_in_fixed_order() {
    let b = Aabb::new(p(0, 10, 100), p(1, 11, 101));
    let c = b.corners();
    assert_eq!(c[0], p(0, 10, 100));
    assert_eq!(c[1], p(1, 10, 100));
    assert_eq!(c[2], p(0, 10, 101));
    assert_eq!(c[3], p(1, 10, 101));
    assert_eq!(c[4], p(0, 11, 100));
    assert_eq!(c[5], p(1, 11, 100));
    assert_eq!(c[6], p(0, 11, 101));
    assert_eq!(c[7], p(1, 11, 101));
    assert_eq!(Aabb::around(&c.to_vec()), Some(b));
}

fn crossings(x: (i64, i64), y: (i64, i64), z: (i64, i64)) -> Crossings {
    Crossings {
        x: Slab { t0: x.0, t1: x.1 },
        y: Slab { t0: y.0, t1: y.1 },
        z: Slab { t0: z.0, t1: z.1 },
    }
}

#[test]
fn slab_test_needs_a_common_stretch() {
    let c = crossings((2, 8), (3, 9), (1, 7));
    assert!(c.hit(0, 100));
    assert!(c.hit(0, 4));
    assert!(!c.hit(0, 3));
    assert!(!c.hit(7, 100));
    assert!(c.hit(6, 100));
}

#[test]
fn slab_test_takes_crossings_in_either_order() {
    let forward = crossings((2, 8), (3, 9), (1, 7));
    let backward = crossings((8, 2), (9, 3), (7, 1));
    for (t_min, t_max) in [(0, 100), (0, 3), (7, 100), (4, 5), (-10, 2)] {
        assert_eq!(forward.hit(t_min, t_max), backward.hit(t_min, t_max));
    }
}

#[test]
fn slab_test_rejects_slabs_that_do_not_meet() {
    let c = crossings((0, 2), (5, 9), (0, 100));
    assert!(!c.hit(-100, 100));
    let flat = crossings((4, 4), (0, 9), (0, 9));
    assert!(!flat.hit(0, 100));
}

#[test]
fn slab_test_lets_an_unbounded_slab_pass() {
    let c = crossings((i64::MIN, i64::MAX), (i64::MIN, i64::MAX), (3, 5));
    assert!(c.hit(0, 100));
    assert!(!c.hit(5, 100));
    let outside = crossings((i64::MAX, i64::MAX), (i64::MIN, i64::MAX), (3, 5));
    assert!(!outside.hit(0, 100));
}
