use raytracer::vec3::Vec3;
use raytracer::vec3::clamp_unit;

#[test]
fn add_componentwise() {
    let a = Vec3 { x: 65536, y: -131072, z: 3 };
    let b = Vec3 { x: 1, y: 65536, z: -4 };
    assert_eq!(a.add(b), Vec3 { x: 65537, y: -65536, z: -1 });
}

#[test]
fn sub_componentwise() {
    let a = Vec3 { x: 65536, y: 0, z: 10 };
    let b = Vec3 { x: 1, y: 65536, z: -4 };
    assert_eq!(a.sub(b), Vec3 { x: 65535, y: -65536, z: 14 });
}

#[test]
fn scale_componentwise() {
    let a = Vec3 { x: 3, y: -5, z: 0 };
    assert_eq!(a.scale(7), Vec3 { x: 21, y: -35, z: 0 });
}

#[test]
fn dot_is_sum_of_products() {
    let a = Vec3 { x: 2, y: 3, z: 4 };
    let b = Vec3 { x: 5, y: -6, z: 7 };
    assert_eq!(a.dot(b), 2 * 5 - 3 * 6 + 4 * 7);
}

#[test]
fn dot_with_self_is_squared_length() {
    let a = Vec3 { x: 300, y: -400, z: 0 };
    assert_eq!(a.dot(a), 250000);
}

#[test]
fn zero_vector() {
    assert_eq!(Vec3::zero(), Vec3 { x: 0, y: 0, z: 0 });
}

#[test]
fn clamp_unit_interval() {
    assert_eq!(clamp_unit(-7), 0);
    assert_eq!(clamp_unit(0), 0);
    assert_eq!(clamp_unit(12345), 12345);
    assert_eq!(clamp_unit(65536), 65536);
    assert_eq!(clamp_unit(98304), 65536);
}

#[test]
fn clamped_per_channel() {
    let v = Vec3 { x: -1, y: 98304, z: 32768 };
    assert_eq!(v.clamped(), Vec3 { x: 0, y: 65536, z: 32768 });
}
