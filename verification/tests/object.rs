use float_ord::FloatOrd;
use pathtracer::object::{nearest, ordering_key, select_root, Root};
use pathtracer::ray::Face;

const EPSILON: f32 = 0.001;

struct Sphere {
    center: [f32; 3],
    radius: f32,
}

struct Hit {
    t: f32,
    point: [f32; 3],
    normal: [f32; 3],
    face: Face,
}

fn dot(a: [f32; 3], b: [f32; 3]) -> f32 {
    a[0] * b[0] + a[1] * b[1] + a[2] * b[2]
}

fn hit_sphere(origin: [f32; 3], direction: [f32; 3], sphere: &Sphere) -> Option<Hit> {
    let oc = [
        origin[0] - sphere.center[0],
        origin[1] - sphere.center[1],
        origin[2] - sphere.center[2],
    ];
    let a = dot(direction, direction);
    let half_b = dot(oc, direction);
    let c = dot(oc, oc) - sphere.radius * sphere.radius;
    let discriminant = half_b * half_b - a * c;
    let sqrtd = discriminant.sqrt();
    let near = (-half_b - sqrtd) / a;
    let far = (-half_b + sqrtd) / a;
    let in_range = |t: f32| (EPSILON..).contains(&t);
    let t = match select_root(discriminant < 0.0, in_range(near), in_range(far))? {
        Root::Near => near,
        Root::Far => far,
    };
    let point = [
        origin[0] + direction[0] * t,
        origin[1] + direction[1] * t,
        origin[2] + direction[2] * t,
    ];
    let outward = [
        (point[0] - sphere.center[0]) / sphere.radius,
        (point[1] - sphere.center[1]) / sphere.radius,
        (point[2] - sphere.center[2]) / sphere.radius,
    ];
    let face = Face::from_incidence(dot(direction, outward) < 0.0);
    let normal = if face.flips_normal() {
        [-outward[0], -outward[1], -outward[2]]
    } else {
        outward
    };
    Some(Hit { t, point, normal, face })
}

fn hit_list(origin: [f32; 3], direction: [f32; 3], spheres: &[Sphere]) -> Option<Hit> {
    let mut hits: Vec<Hit> =
        spheres.iter().filter_map(|sphere| hit_sphere(origin, direction, sphere)).collect();
    let ts: Vec<u32> = hits.iter().map(|hit| hit.t.to_bits()).collect();
    nearest(&ts).map(|i| hits.swap_remove(i))
}

#[test]
fn select_root_prefers_the_near_root() {
    assert_eq!(select_root(false, true, true), Some(Root::Near));
    assert_eq!(select_root(false, true, false), Some(Root::Near));
}

#[test]
fn select_root_falls_back_to_the_far_root() {
    assert_eq!(select_root(false, false, true), Some(Root::Far));
}

#[test]
fn select_root_misses_without_a_root_in_range() {
    assert_eq!(select_root(false, false, false), None);
}

#[test]
fn select_root_misses_on_a_negative_discriminant() {
    for &near in &[false, true] {
        for &far in &[false, true] {
            assert_eq!(select_root(true, near, far), None);
        }
    }
}

#[test]
fn sphere_intersection() {
    let sphere = Sphere { center: [0.0, 0.0, 0.0], radius: 0.5 };
    let hit = hit_sphere([0.0, 0.0, 1.0], [0.0, 0.0, -1.0], &sphere).expect("the ray hits");
    assert_eq!(hit.t, 0.5);
    assert_eq!(hit.point, [0.0, 0.0, 0.5]);
    assert_eq!(hit.normal, [0.0, 0.0, 1.0]);
    assert_eq!(hit.face, Face::Front);
}

#[test]
fn sphere_miss() {
    let sphere = Sphere { center: [2.0, 0.0, 0.0], radius: 0.5 };
    assert!(hit_sphere([0.0, 0.0, 1.0], [0.0, 0.0, -1.0], &sphere).is_none());
}

#[test]
fn sphere_behind_the_ray_is_out_of_range() {
    let sphere = Sphere { center: [0.0, 0.0, 3.0], radius: 0.5 };
    assert!(hit_sphere([0.0, 0.0, 1.0], [0.0, 0.0, -1.0], &sphere).is_none());
}

#[test]
fn sphere_seen_from_inside_is_hit_on_the_back_face() {
    let sphere = Sphere { center: [0.0, 0.0, 0.0], radius: 2.0 };
    let hit = hit_sphere([0.0, 0.0, 0.0], [0.0, 0.0, -1.0], &sphere).expect("the ray hits");
    assert_eq!(hit.t, 2.0);
    assert_eq!(hit.point, [0.0, 0.0, -2.0]);
    assert_eq!(hit.face, Face::Back);
    assert_eq!(hit.normal, [0.0, 0.0, 1.0]);
}

#[test]
fn scene_keeps_the_hit_with_the_smaller_t() {
    let far = Sphere { center: [0.0, 0.0, -2.0], radius: 0.5 };
    let near = Sphere { center: [0.0, 0.0, 0.0], radius: 0.5 };
    let origin = [0.0, 0.0, 1.0];
    let direction = [0.0, 0.0, -1.0];
    assert_eq!(hit_sphere(origin, direction, &far).unwrap().t, 2.5);
    assert_eq!(hit_sphere(origin, direction, &near).unwrap().t, 0.5);
    let hit = hit_list(origin, direction, &[far, near]).expect("the ray hits both");
    assert_eq!(hit.t, 0.5);
    assert_eq!(hit.point, [0.0, 0.0, 0.5]);
}

#[test]
fn scene_without_objects_or_without_hits_is_a_miss() {
    let origin = [0.0, 0.0, 1.0];
    let direction = [0.0, 0.0, -1.0];
    assert!(hit_list(origin, direction, &[]).is_none());
    let aside = Sphere { center: [5.0, 0.0, 0.0], radius: 0.5 };
    let behind = Sphere { center: [0.0, 0.0, 3.0], radius: 0.5 };
    assert!(hit_list(origin, direction, &[aside, behind]).is_none());
}

#[test]
fn nearest_of_nothing_is_none() {
    assert_eq!(nearest(&[]), None);
}

#[test]
fn nearest_finds_the_smallest_value() {
    let ts: Vec<u32> = [2.5f32, 0.5, 7.0, 0.75].iter().map(|t| t.to_bits()).collect();
    assert_eq!(nearest(&ts), Some(1));
    let ts: Vec<u32> = [3.0f32].iter().map(|t| t.to_bits()).collect();
    assert_eq!(nearest(&ts), Some(0));
}

#[test]
fn nearest_orders_negative_values_below_positive_ones() {
    let ts: Vec<u32> = [1.0f32, -0.5, 0.0, -3.0, -0.0].iter().map(|t| t.to_bits()).collect();
    assert_eq!(nearest(&ts), Some(3));
    let ts: Vec<u32> = [0.0f32, -0.0].iter().map(|t| t.to_bits()).collect();
    assert_eq!(nearest(&ts), Some(1));
}

#[test]
fn nearest_takes_the_first_of_equal_values() {
    let ts: Vec<u32> = [4.0f32, 1.5, 9.0, 1.5].iter().map(|t| t.to_bits()).collect();
    assert_eq!(nearest(&ts), Some(1));
}

#[test]
fn nearest_agrees_with_min_by_key_on_float_ord() {
    let values = [3.5f32, f32::INFINITY, 0.001, 12.0, 0.001, f32::NAN, 1e-20, 7.25];
    for len in 0..=values.len() {
        let slice = &values[..len];
        let ts: Vec<u32> = slice.iter().map(|t| t.to_bits()).collect();
        let expected = slice
            .iter()
            .enumerate()
            .min_by_key(|(_, t)| FloatOrd(**t))
            .map(|(i, _)| i);
        assert_eq!(nearest(&ts), expected);
    }
}

#[test]
fn ordering_key_exact_values() {
    assert_eq!(ordering_key(0x0000_0000), 0x8000_0000);
    assert_eq!(ordering_key(0x8000_0000), 0x7FFF_FFFF);
    assert_eq!(ordering_key(1.0f32.to_bits()), 0xBF80_0000);
    assert_eq!(ordering_key((-1.0f32).to_bits()), 0x407F_FFFF);
    assert_eq!(ordering_key(0xFFFF_FFFF), 0);
    assert_eq!(ordering_key(0x7FFF_FFFF), 0xFFFF_FFFF);
}

#[test]
fn ordering_key_sorts_as_float_ord_does() {
    let values = [
        f32::NAN,
        -f32::NAN,
        f32::NEG_INFINITY,
        -1.0e30,
        -1.0,
        -f32::MIN_POSITIVE,
        -0.0,
        0.0,
        f32::MIN_POSITIVE,
        0.001,
        0.5,
        1.0,
        2.5,
        1.0e30,
        f32::INFINITY,
    ];
    for &a in &values {
        for &b in &values {
            let by_key = ordering_key(a.to_bits()).cmp(&ordering_key(b.to_bits()));
            assert_eq!(by_key, FloatOrd(a).cmp(&FloatOrd(b)));
            if a < b {
                assert!(ordering_key(a.to_bits()) < ordering_key(b.to_bits()));
            }
        }
    }
}
