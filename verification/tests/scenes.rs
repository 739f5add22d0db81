use pathtracer::geometry::hittablelist::HittableList;
use pathtracer::geometry::nearest::admitted;
use pathtracer::geometry::rectangular::{get_axis_index, AARect, Plane};
use pathtracer::geometry::sphere::nearest_root;
use pathtracer::integrator::{cut_off, ray_color, Radiance, Surface};
use pathtracer::utility::scalar::{bits_of_scalar, scalar_of_bits};

/// The scalar for a number: an integer that sorts as the number does.
fn key(x: f64) -> i64 {
    assert!(!x.is_nan());
    scalar_of_bits((x + 0.0).to_bits())
}

/// The number for a scalar.
fn number(k: i64) -> f64 {
    f64::from_bits(bits_of_scalar(k))
}

type V = [f64; 3];

fn sub(a: V, b: V) -> V {
    [a[0] - b[0], a[1] - b[1], a[2] - b[2]]
}

fn add(a: V, b: V) -> V {
    [a[0] + b[0], a[1] + b[1], a[2] + b[2]]
}

fn scale(a: V, s: f64) -> V {
    [a[0] * s, a[1] * s, a[2] * s]
}

fn dot(a: V, b: V) -> f64 {
    a[0] * b[0] + a[1] * b[1] + a[2] * b[2]
}

fn cross(a: V, b: V) -> V {
    [
        a[1] * b[2] - a[2] * b[1],
        a[2] * b[0] - a[0] * b[2],
        a[0] * b[1] - a[1] * b[0],
    ]
}

fn unit(a: V) -> V {
    scale(a, 1.0 / dot(a, a).sqrt())
}

#[test]
fn scalars_of_bit_patterns() {
    assert_eq!(scalar_of_bits(0), 0);
    assert_eq!(scalar_of_bits(1), 1);
    assert_eq!(scalar_of_bits(0x7FFF_FFFF_FFFF_FFFF), i64::MAX);
    assert_eq!(scalar_of_bits(0x8000_0000_0000_0000), -1);
    assert_eq!(scalar_of_bits(0x8000_0000_0000_0001), -2);
    assert_eq!(scalar_of_bits(0xFFFF_FFFF_FFFF_FFFF), i64::MIN);
    assert_eq!(scalar_of_bits(1.0f64.to_bits()), 0x3FF0_0000_0000_0000);
    assert_eq!(bits_of_scalar(0), 0);
    assert_eq!(bits_of_scalar(i64::MAX), 0x7FFF_FFFF_FFFF_FFFF);
    assert_eq!(bits_of_scalar(-1), 0x8000_0000_0000_0000);
    assert_eq!(bits_of_scalar(i64::MIN), 0xFFFF_FFFF_FFFF_FFFF);
    for bits in [0u64, 5, 1 << 52, (1 << 63) - 1, 1 << 63, (1 << 63) + 77, u64::MAX] {
        assert_eq!(bits_of_scalar(scalar_of_bits(bits)), bits);
    }
}

#[test]
fn scalars_sort_as_numbers_do() {
    let numbers = [
        f64::NEG_INFINITY,
        -1.0e300,
        -2.5,
        -1.0e-300,
        0.0,
        1.0e-300,
        0.001,
        1.0,
        554.0,
        f64::MAX,
        f64::INFINITY,
    ];
    for pair in numbers.windows(2) {
        assert!(key(pair[0]) < key(pair[1]));
    }
    for x in numbers {
        assert_eq!(number(key(x)), x);
    }
    assert_eq!(key(-0.0), key(0.0));
    assert!(scalar_of_bits((-0.0f64).to_bits()) < scalar_of_bits(0.0f64.to_bits()));
}

#[test]
fn a_ray_sent_back_at_a_sphere_hits_it_where_it_started_from() {
    let sphere = Sphere { center: [3.0, -1.0, 2.0], radius: 2.5 };
    let gap = 0.125;
    let directions = [
        [1.0, 0.0, 0.0],
        [0.0, -1.0, 0.0],
        [0.6, 0.0, 0.8],
        [-0.48, 0.6, 0.64],
        [0.0, 0.28, -0.96],
    ];
    for d in directions {
        let origin = add(sphere.center, scale(d, sphere.radius + gap));
        let back = scale(d, -1.0);
        let (near, far) = sphere.roots(origin, back).unwrap();
        let t = number(nearest_root(key(near), key(far), key(0.001), key(f64::INFINITY)).unwrap());
        assert!((t - gap).abs() < 1e-9);
        let normal = scale(sub(add(origin, scale(back, t)), sphere.center), 1.0 / sphere.radius);
        assert!((dot(normal, normal) - 1.0).abs() < 1e-9);
        assert!((dot(normal, d) - 1.0).abs() < 1e-9);
    }
}

struct Sphere {
    center: V,
    radius: f64,
}

impl Sphere {
    /// The two parameters at which the ray meets the sphere.
    fn roots(&self, origin: V, dir: V) -> Option<(f64, f64)> {
        let oc = sub(origin, self.center);
        let a = dot(dir, dir);
        let half_b = dot(oc, dir);
        let c = dot(oc, oc) - self.radius * self.radius;
        let discriminant = half_b * half_b - a * c;
        if discriminant < 0.0 {
            return None;
        }
        let root = discriminant.sqrt();
        Some(((-half_b - root) / a, (-half_b + root) / a))
    }
}

/// The nearest hit of the ray among the spheres, by the list search.
fn nearest_sphere(spheres: &[Sphere], origin: V, dir: V) -> Option<(f64, usize)> {
    let list = HittableList::new(vec![None; spheres.len()]);
    let mut scan = list.hit::<usize>(key(0.001), key(f64::INFINITY));
    while let Some(object) = scan.current() {
        let hit = spheres[object].roots(origin, dir).and_then(|(near, far)| {
            nearest_root(key(near), key(far), key(0.001), scan.limit())
        });
        scan.answer(hit.map(|t| (t, object)));
    }
    scan.finish().map(|(t, object)| (number(t), object))
}

/// The colour along a ray in a scene of diffuse spheres under a sky.
fn colour(spheres: &[Sphere], albedo: V, sky: V, origin: V, dir: V, depth: u64) -> V {
    if cut_off(depth) {
        return [0.0, 0.0, 0.0];
    }
    let met = nearest_sphere(spheres, origin, dir);
    let surface = match met {
        None => Surface::Nothing,
        Some(_) => Surface::Scattering,
    };
    match ray_color(depth, surface) {
        Radiance::Black => [0.0, 0.0, 0.0],
        Radiance::Background => sky,
        Radiance::Emitted => [0.0, 0.0, 0.0],
        Radiance::Scattered { depth: deeper } => {
            let (t, object) = met.unwrap();
            let p = add(origin, scale(dir, t));
            let normal = unit(sub(p, spheres[object].center));
            let onward = colour(spheres, albedo, sky, p, normal, deeper);
            [albedo[0] * onward[0], albedo[1] * onward[1], albedo[2] * onward[2]]
        }
    }
}

#[test]
fn two_spheres_under_a_sky_at_depth_one() {
    let spheres = [
        Sphere { center: [0.0, 2.0, 0.0], radius: 2.0 },
        Sphere { center: [0.0, -2.0, 0.0], radius: 2.0 },
    ];
    let sky = [0.7, 0.8, 1.0];
    let albedo = [0.4, 0.31, 1.0];
    let lookfrom = [13.0, 2.0, 3.0];
    let w = unit(lookfrom);
    let u = unit(cross([0.0, 1.0, 0.0], w));
    let v = cross(w, u);
    let half = (20.0f64.to_radians() / 2.0).tan() * 10.0;
    let mut missed = 0;
    let mut struck = 0;
    for row in 0..41 {
        for column in 0..41 {
            let s = (column as f64 / 40.0) * 2.0 - 1.0;
            let t = (row as f64 / 40.0) * 2.0 - 1.0;
            let target = add(
                sub(lookfrom, scale(w, 10.0)),
                add(scale(u, s * half), scale(v, t * half)),
            );
            let dir = sub(target, lookfrom);
            let misses_both = spheres.iter().all(|sphere| match sphere.roots(lookfrom, dir) {
                None => true,
                Some((_, far)) => far <= 0.001,
            });
            let seen = colour(&spheres, albedo, sky, lookfrom, dir, 1);
            if misses_both {
                assert_eq!(seen, sky);
                missed += 1;
            } else {
                for channel in seen {
                    assert!(!channel.is_nan());
                    assert!(channel >= 0.0);
                }
                assert_eq!(seen, [0.0, 0.0, 0.0]);
                struck += 1;
            }
        }
    }
    assert!(missed > 0);
    assert!(struck > 0);
}

#[test]
fn the_nearer_of_two_spheres_is_hit_first() {
    let spheres = [
        Sphere { center: [0.0, 0.0, -10.0], radius: 1.0 },
        Sphere { center: [0.0, 0.0, -5.0], radius: 1.0 },
    ];
    let hit = nearest_sphere(&spheres, [0.0, 0.0, 0.0], [0.0, 0.0, -1.0]);
    assert_eq!(hit, Some((4.0, 1)));
    let from_inside = nearest_sphere(&spheres, [0.0, 0.0, -5.0], [0.0, 0.0, -1.0]);
    assert_eq!(from_inside, Some((1.0, 1)));
    let away = nearest_sphere(&spheres, [0.0, 0.0, 0.0], [0.0, 0.0, 1.0]);
    assert_eq!(away, None);
}

struct Wall {
    rect: AARect,
    plane: Plane,
    k: f64,
}

fn wall(plane: Plane, a0: f64, a1: f64, b0: f64, b1: f64, k: f64) -> Wall {
    Wall { rect: AARect::new(plane, key(a0), key(a1), key(b0), key(b1), key(k)), plane, k }
}

/// Where the ray hits the wall, if the search admits it.
fn strike(w: &Wall, origin: V, dir: V, t_min: i64, limit: i64) -> Option<i64> {
    let (k_axis, a_axis, b_axis) = get_axis_index(&w.plane);
    let t = (w.k - origin[k_axis]) / dir[k_axis];
    if !t.is_finite() || !admitted(t_min, limit, key(t)) {
        return None;
    }
    let a = origin[a_axis] + t * dir[a_axis];
    let b = origin[b_axis] + t * dir[b_axis];
    if w.rect.in_bounds(key(a), key(b)) {
        Some(key(t))
    } else {
        None
    }
}

fn cornell_walls() -> Vec<Wall> {
    vec![
        wall(Plane::YZ, 0.0, 555.0, 0.0, 555.0, 555.0),
        wall(Plane::YZ, 0.0, 555.0, 0.0, 555.0, 0.0),
        wall(Plane::XZ, 0.0, 555.0, 0.0, 555.0, 555.0),
        wall(Plane::XY, 0.0, 555.0, 0.0, 555.0, 555.0),
        wall(Plane::XZ, 213.0, 343.0, 227.0, 332.0, 554.0),
        wall(Plane::XZ, 0.0, 555.0, 0.0, 555.0, 0.0),
    ]
}

fn nearest_wall(walls: &[Wall], origin: V, dir: V) -> Option<(f64, usize)> {
    let list = HittableList::new(vec![None; walls.len()]);
    let mut scan = list.hit::<usize>(key(0.001), key(f64::INFINITY));
    while let Some(object) = scan.current() {
        let hit = strike(&walls[object], origin, dir, key(0.001), scan.limit());
        scan.answer(hit.map(|t| (t, object)));
    }
    scan.finish().map(|(t, object)| (number(t), object))
}

#[test]
fn no_ray_into_the_cornell_box_sees_the_background() {
    let walls = cornell_walls();
    let eye = [278.0, 278.0, -800.0];
    for row in 0..=37 {
        for column in 0..=37 {
            let through = [15.0 * column as f64, 15.0 * row as f64, 0.0];
            let dir = sub(through, eye);
            let met = nearest_wall(&walls, eye, dir);
            assert!(met.is_some());
            let surface = if met.unwrap().1 == 4 { Surface::Absorbing } else { Surface::Scattering };
            assert_ne!(ray_color(100, surface), Radiance::Background);
        }
    }
}

#[test]
fn the_light_hides_the_ceiling_behind_it() {
    let walls = cornell_walls();
    let up = nearest_wall(&walls, [278.0, 278.0, 278.0], [0.0, 1.0, 0.0]);
    assert_eq!(up, Some((276.0, 4)));
    let beside = nearest_wall(&walls, [100.0, 278.0, 278.0], [0.0, 1.0, 0.0]);
    assert_eq!(beside, Some((277.0, 2)));
    let down = nearest_wall(&walls, [278.0, 278.0, 278.0], [0.0, -1.0, 0.0]);
    assert_eq!(down, Some((278.0, 5)));
    let back = nearest_wall(&walls, [278.0, 278.0, 278.0], [0.0, 0.0, 1.0]);
    assert_eq!(back, Some((277.0, 3)));
    let out = nearest_wall(&walls, [278.0, 278.0, 278.0], [0.0, 0.0, -1.0]);
    assert_eq!(out, None);
}
