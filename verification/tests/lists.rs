use pathtracer::geometry::hittablelist::HittableList;
use pathtracer::geometry::nearest::{admitted, Closest};
use pathtracer::utility::aabb::Aabb;
use pathtracer::utility::scalar::Point;

fn cube_at(x: i64) -> Aabb {
    Aabb::new(Point::new(x, 0, 0), Point::new(x + 1, 1, 1))
}

#[test]
fn admitted_is_open_below_and_closed_above() {
    assert!(admitted(0, 10, 5));
    assert!(admitted(0, 10, 10));
    assert!(admitted(0, 10, 1));
    assert!(!admitted(0, 10, 0));
    assert!(!admitted(0, 10, 11));
    assert!(!admitted(0, 10, -3));
    assert!(!admitted(5, 5, 5));
}

#[test]
fn closest_starts_with_nothing() {
    let c: Closest<char> = Closest::new(1, 50);
    assert_eq!(c.limit(), 50);
    assert_eq!(c.into_nearest(), None);
}

#[test]
fn closest_keeps_the_nearest_offer() {
    let mut c = Closest::new(0, 100);
    c.offer(Some((40, 'a')));
    assert_eq!(c.limit(), 40);
    c.offer(Some((70, 'b')));
    assert_eq!(c.limit(), 40);
    c.offer(None);
    assert_eq!(c.limit(), 40);
    c.offer(Some((10, 'c')));
    assert_eq!(c.limit(), 10);
    assert_eq!(c.into_nearest(), Some((10, 'c')));
}

#[test]
fn closest_turns_away_what_lies_outside_the_search() {
    let mut c = Closest::new(5, 100);
    c.offer(Some((5, 'a')));
    c.offer(Some((3, 'b')));
    c.offer(Some((101, 'c')));
    assert_eq!(c.limit(), 100);
    assert_eq!(c.into_nearest(), None);
}

#[test]
fn closest_takes_a_tie_from_the_later_offer() {
    let mut c = Closest::new(0, 100);
    c.offer(Some((30, 'a')));
    c.offer(Some((30, 'b')));
    assert_eq!(c.into_nearest(), Some((30, 'b')));
}

#[test]
fn closest_admits_a_hit_at_the_limit() {
    let mut c = Closest::new(0, 100);
    c.offer(Some((100, 'a')));
    assert_eq!(c.into_nearest(), Some((100, 'a')));
}

#[test]
fn list_new_clear_add() {
    let mut list = HittableList::new(vec![Some(cube_at(0)), None]);
    assert_eq!(list.objects.len(), 2);
    list.add(Some(cube_at(5)));
    assert_eq!(list.objects, vec![Some(cube_at(0)), None, Some(cube_at(5))]);
    list.clear();
    assert_eq!(list.objects.len(), 0);
    let empty = HittableList::default();
    assert_eq!(empty.objects.len(), 0);
}

#[test]
fn list_without_objects_has_no_box() {
    assert_eq!(HittableList::default().bounding_box(), None);
}

#[test]
fn list_with_an_unbounded_object_has_no_box() {
    assert_eq!(HittableList::new(vec![None]).bounding_box(), None);
    assert_eq!(HittableList::new(vec![Some(cube_at(0)), None]).bounding_box(), None);
    assert_eq!(
        HittableList::new(vec![Some(cube_at(0)), Some(cube_at(3)), None, Some(cube_at(9))])
            .bounding_box(),
        None
    );
}

#[test]
fn list_box_is_the_union_of_the_boxes() {
    assert_eq!(HittableList::new(vec![Some(cube_at(4))]).bounding_box(), Some(cube_at(4)));
    let list = HittableList::new(vec![Some(cube_at(4)), Some(cube_at(-2)), Some(cube_at(9))]);
    assert_eq!(
        list.bounding_box(),
        Some(Aabb::new(Point::new(-2, 0, 0), Point::new(10, 1, 1)))
    );
}

#[test]
fn scan_asks_each_object_in_turn_with_the_shrunk_limit() {
    let list = HittableList::new(vec![Some(cube_at(0)), Some(cube_at(1)), Some(cube_at(2))]);
    let mut scan = list.hit::<&str>(0, 1000);
    assert_eq!(scan.current(), Some(0));
    assert_eq!(scan.limit(), 1000);
    scan.answer(Some((500, "first")));
    assert_eq!(scan.current(), Some(1));
    assert_eq!(scan.limit(), 500);
    scan.answer(None);
    assert_eq!(scan.current(), Some(2));
    assert_eq!(scan.limit(), 500);
    scan.answer(Some((200, "third")));
    assert_eq!(scan.current(), None);
    assert_eq!(scan.limit(), 200);
    assert_eq!(scan.finish(), Some((200, "third")));
}

#[test]
fn scan_of_an_empty_list_finds_nothing() {
    let list = HittableList::default();
    let scan = list.hit::<u8>(0, 1000);
    assert_eq!(scan.current(), None);
    assert_eq!(scan.finish(), None);
}

#[test]
fn scan_ignores_answers_after_the_last_object() {
    let list = HittableList::new(vec![None]);
    let mut scan = list.hit::<u8>(0, 1000);
    scan.answer(Some((10, 1)));
    assert_eq!(scan.current(), None);
    scan.answer(Some((5, 2)));
    assert_eq!(scan.current(), None);
    assert_eq!(scan.finish(), Some((10, 1)));
}

#[test]
fn scan_finds_the_minimum_in_any_order() {
    let hits = [Some(70), None, Some(30), Some(90), Some(30), None, Some(55)];
    let list = HittableList::new(vec![None; 7]);
    let mut scan = list.hit::<usize>(0, 1000);
    while let Some(object) = scan.current() {
        let limit = scan.limit();
        let answer = match hits[object] {
            Some(t) if t <= limit => Some((t, object)),
            _ => None,
        };
        scan.answer(answer);
    }
    assert_eq!(scan.finish(), Some((30, 4)));
}

#[test]
fn random_picks_every_object_sooner_or_later() {
    let list = HittableList::new(vec![None, None, None]);
    let mut seen = [false; 3];
    for _ in 0..2000 {
        let object = list.random();
        assert!(object < 3);
        seen[object] = true;
    }
    assert_eq!(seen, [true, true, true]);
    let single = HittableList::new(vec![None]);
    assert_eq!(single.random(), 0);
}
