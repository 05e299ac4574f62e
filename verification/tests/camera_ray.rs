use pathtracer::camera::RollPitchYaw;
use pathtracer::ray::Face;

#[test]
fn roll_pitch_yaw_takes_pitch_first() {
    let angles = RollPitchYaw::new(1, 2, 3);
    assert_eq!(angles.pitch, 1);
    assert_eq!(angles.yaw, 2);
    assert_eq!(angles.roll, 3);
}

#[test]
fn roll_pitch_yaw_carries_floats() {
    let angles = RollPitchYaw::new(0.25f32, -1.5f32, 3.0f32);
    assert_eq!(angles.pitch, 0.25);
    assert_eq!(angles.yaw, -1.5);
    assert_eq!(angles.roll, 3.0);
}

#[test]
fn face_is_front_against_the_normal() {
    assert_eq!(Face::from_incidence(true), Face::Front);
    assert_eq!(Face::from_incidence(false), Face::Back);
}

#[test]
fn face_back_flips_the_normal() {
    assert!(!Face::Front.flips_normal());
    assert!(Face::Back.flips_normal());
}

#[test]
fn face_of_a_ray_seen_from_inside_and_outside() {
    let outward_normal = [0.0f32, 0.0, 1.0];
    let dot = |d: [f32; 3]| d[0] * outward_normal[0] + d[1] * outward_normal[1] + d[2] * outward_normal[2];
    let from_outside = [0.0f32, 0.0, -1.0];
    let from_inside = [0.0f32, 0.0, 1.0];
    let grazing = [1.0f32, 0.0, 0.0];
    assert_eq!(Face::from_incidence(dot(from_outside) < 0.0), Face::Front);
    assert_eq!(Face::from_incidence(dot(from_inside) < 0.0), Face::Back);
    assert_eq!(Face::from_incidence(dot(grazing) < 0.0), Face::Back);
}
