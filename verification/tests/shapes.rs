use pathtracer::geometry::constantmedium::span;
use pathtracer::geometry::cube::Cube;
use pathtracer::geometry::mesh::{covers, triangle_box, Face, Mesh};
use pathtracer::geometry::rectangular::{get_axis_index, AARect, Plane};
use pathtracer::geometry::rotate::RotateAxis;
use pathtracer::geometry::sphere::nearest_root;
use pathtracer::utility::aabb::Aabb;
use pathtracer::utility::scalar::Point;

#[test]
fn rotate_axis_index_names_the_fixed_axis_first() {
    assert_eq!(RotateAxis::get_axis_index(&RotateAxis::X), (0, 1, 2));
    assert_eq!(RotateAxis::get_axis_index(&RotateAxis::Y), (1, 0, 2));
    assert_eq!(RotateAxis::get_axis_index(&RotateAxis::Z), (2, 0, 1));
}

#[test]
fn plane_axis_index_names_the_perpendicular_axis_first() {
    assert_eq!(get_axis_index(&Plane::YZ), (0, 1, 2));
    assert_eq!(get_axis_index(&Plane::XZ), (1, 0, 2));
    assert_eq!(get_axis_index(&Plane::XY), (2, 0, 1));
}

#[test]
fn axis_indices_are_the_three_axes() {
    for plane in [Plane::XY, Plane::XZ, Plane::YZ] {
        let (k, a, b) = get_axis_index(&plane);
        let mut seen = [false; 3];
        seen[k] = true;
        seen[a] = true;
        seen[b] = true;
        assert_eq!(seen, [true, true, true]);
    }
    for axis in [RotateAxis::X, RotateAxis::Y, RotateAxis::Z] {
        let (r, a, b) = RotateAxis::get_axis_index(&axis);
        let mut seen = [false; 3];
        seen[r] = true;
        seen[a] = true;
        seen[b] = true;
        assert_eq!(seen, [true, true, true]);
    }
}

#[test]
fn rect_in_bounds_includes_the_edges() {
    let r = AARect::new(Plane::XZ, 213, 343, 227, 332, 554);
    assert!(r.in_bounds(213, 227));
    assert!(r.in_bounds(343, 332));
    assert!(r.in_bounds(300, 300));
    assert!(!r.in_bounds(212, 300));
    assert!(!r.in_bounds(344, 300));
    assert!(!r.in_bounds(300, 226));
    assert!(!r.in_bounds(300, 333));
}

#[test]
fn rect_box_is_laid_out_by_plane() {
    let xy = AARect::new(Plane::XY, 1, 2, 3, 4, 10);
    assert_eq!(
        xy.bounding_box(9, 11),
        Aabb::new(Point::new(1, 3, 9), Point::new(2, 4, 11))
    );
    let xz = AARect::new(Plane::XZ, 1, 2, 3, 4, 10);
    assert_eq!(
        xz.bounding_box(9, 11),
        Aabb::new(Point::new(1, 9, 3), Point::new(2, 11, 4))
    );
    let yz = AARect::new(Plane::YZ, 1, 2, 3, 4, 10);
    assert_eq!(
        yz.bounding_box(9, 11),
        Aabb::new(Point::new(9, 1, 3), Point::new(11, 2, 4))
    );
}

#[test]
fn cube_has_six_sides_on_its_faces() {
    let p0 = Point::new(0, 0, 0);
    let p1 = Point::new(165, 330, 165);
    let cube = Cube::new(p0, p1);
    assert_eq!(cube.bounding_box(), Aabb::new(p0, p1));
    assert_eq!(cube.sides.len(), 6);
    assert_eq!(cube.sides[0], AARect::new(Plane::XY, 0, 165, 0, 330, 165));
    assert_eq!(cube.sides[1], AARect::new(Plane::XY, 0, 165, 0, 330, 0));
    assert_eq!(cube.sides[2], AARect::new(Plane::XZ, 0, 165, 0, 165, 330));
    assert_eq!(cube.sides[3], AARect::new(Plane::XZ, 0, 165, 0, 165, 0));
    assert_eq!(cube.sides[4], AARect::new(Plane::YZ, 0, 330, 0, 165, 165));
    assert_eq!(cube.sides[5], AARect::new(Plane::YZ, 0, 330, 0, 165, 0));
}

#[test]
fn cube_box_encloses_the_box_of_every_side() {
    let p0 = Point::new(-3, 2, 10);
    let p1 = Point::new(4, 9, 12);
    let cube = Cube::new(p0, p1);
    let outer = cube.bounding_box();
    for side in cube.sides.iter() {
        let b = side.bounding_box(side.k, side.k);
        assert!(outer.min.x <= b.min.x && outer.min.y <= b.min.y && outer.min.z <= b.min.z);
        assert!(b.max.x <= outer.max.x && b.max.y <= outer.max.y && b.max.z <= outer.max.z);
    }
}

#[test]
fn mesh_groups_indices_by_threes() {
    let mesh = Mesh::new(5, vec![0, 1, 2, 2, 3, 4, 4, 0]);
    assert_eq!(mesh.tris.len(), 2);
    assert_eq!(mesh.tris[0], Face { a: 0, b: 1, c: 2 });
    assert_eq!(mesh.tris[1], Face { a: 2, b: 3, c: 4 });
    let none = Mesh::new(0, vec![]);
    assert_eq!(none.tris.len(), 0);
    let short = Mesh::new(3, vec![0, 1]);
    assert_eq!(short.tris.len(), 0);
}

#[test]
fn mesh_fits_checks_the_indices_that_are_used() {
    assert!(Mesh::fits(&vec![0, 1, 2, 2, 3, 4], 5));
    assert!(!Mesh::fits(&vec![0, 1, 2, 2, 3, 5], 5));
    assert!(!Mesh::fits(&vec![0, 1, 2], 2));
    assert!(Mesh::fits(&vec![0, 1, 2, 9], 3));
    assert!(Mesh::fits(&vec![7, 7], 0));
    assert!(Mesh::fits(&vec![], 0));
}

#[test]
fn triangle_box_spans_the_three_corners() {
    let b = triangle_box(Point::new(0, 5, 2), Point::new(3, -1, 2), Point::new(1, 1, 8));
    assert_eq!(b, Aabb::new(Point::new(0, -1, 2), Point::new(3, 5, 8)));
}

#[test]
fn triangle_covers_where_no_coordinate_is_negative() {
    assert!(covers(0, 1, 2, 3));
    assert!(covers(0, 0, 0, 6));
    assert!(!covers(0, -1, 3, 4));
    assert!(!covers(0, 3, -1, 4));
    assert!(!covers(0, 3, 4, -1));
    assert!(covers(100, 100, 150, 101));
    assert!(!covers(100, 99, 150, 101));
}

#[test]
fn sphere_takes_the_near_root_and_falls_back_to_the_far_one() {
    assert_eq!(nearest_root(5, 9, 0, 100), Some(5));
    assert_eq!(nearest_root(-4, 9, 0, 100), Some(9));
    assert_eq!(nearest_root(-4, -2, 0, 100), None);
    assert_eq!(nearest_root(5, 9, 0, 4), None);
    assert_eq!(nearest_root(5, 9, 5, 100), Some(9));
    assert_eq!(nearest_root(5, 9, 0, 5), Some(5));
    assert_eq!(nearest_root(5, 9, 9, 100), None);
    assert_eq!(nearest_root(-4, 9, 0, 8), None);
}

#[test]
fn medium_span_is_the_stretch_inside_the_search() {
    assert_eq!(span(Some(2), Some(9), 0, 100), Some((2, 9)));
    assert_eq!(span(Some(-5), Some(9), 0, 100), Some((0, 9)));
    assert_eq!(span(Some(2), Some(9), 0, 6), Some((2, 6)));
    assert_eq!(span(Some(2), Some(9), 9, 100), None);
    assert_eq!(span(Some(2), Some(9), 0, 2), None);
    assert_eq!(span(None, Some(9), 0, 100), None);
    assert_eq!(span(Some(2), None, 0, 100), None);
    assert_eq!(span(None, None, 0, 100), None);
}
