use raytracer::geometry::GeometryError;
use raytracer::geometry::Ray;
use raytracer::geometry::Sphere;
use raytracer::geometry::scene_hit;
use raytracer::vec3::Vec3;

const S: i64 = 65536;

#[test]
fn new_rejects_nonpositive_radius() {
    let c = Vec3 { x: 0, y: 0, z: 0 };
    assert_eq!(Sphere::new(c, 0), Err(GeometryError::NonPositiveRadius));
    assert_eq!(Sphere::new(c, -5 * S), Err(GeometryError::NonPositiveRadius));
}

#[test]
fn new_rejects_out_of_range() {
    let c = Vec3 { x: 0, y: 0, z: 0 };
    assert_eq!(Sphere::new(c, 16777217), Err(GeometryError::OutOfRange));
    let far = Vec3 { x: -16777217, y: 0, z: 0 };
    assert_eq!(Sphere::new(far, S), Err(GeometryError::OutOfRange));
}

#[test]
fn new_accepts_valid_parameters() {
    let c = Vec3 { x: 100, y: -200, z: -5 * S };
    let s = Sphere::new(c, S).unwrap();
    assert_eq!(s.center, c);
    assert_eq!(s.radius, S);
}

#[test]
fn ray_outside_sphere_misses() {
    // sphere five units down -z, ray going straight up +y: d2 > radius^2
    let s = Sphere::new(Vec3 { x: 0, y: 0, z: -5 * S }, S).unwrap();
    let ray = Ray {
        origin: Vec3 { x: 0, y: 0, z: 0 },
        direction: Vec3 { x: 0, y: S, z: 0 },
    };
    assert_eq!(s.ray_intersect(&ray, 0), None);
}

#[test]
fn ray_from_center_hits_at_radius() {
    let center = Vec3 { x: 1000, y: -2000, z: 3000 };
    let s = Sphere::new(center, 3 * S).unwrap();
    let ray = Ray { origin: center, direction: Vec3 { x: 0, y: 0, z: -S } };
    assert_eq!(s.ray_intersect(&ray, 0), Some(3 * S));
}

#[test]
fn sphere_behind_origin_misses() {
    // both roots are negative, so both fall below t_min
    let s = Sphere::new(Vec3 { x: 0, y: 0, z: 5 * S }, S).unwrap();
    let ray = Ray {
        origin: Vec3 { x: 0, y: 0, z: 0 },
        direction: Vec3 { x: 0, y: 0, z: -S },
    };
    assert_eq!(s.ray_intersect(&ray, 0), None);
}

#[test]
fn head_on_hit_distance_is_exact() {
    // center five units away along the ray, radius one: hit at four units
    let s = Sphere::new(Vec3 { x: 0, y: 0, z: -5 * S }, S).unwrap();
    let ray = Ray {
        origin: Vec3 { x: 0, y: 0, z: 0 },
        direction: Vec3 { x: 0, y: 0, z: -S },
    };
    assert_eq!(s.ray_intersect(&ray, 0), Some(4 * S));
}

#[test]
fn t_min_discards_near_root() {
    // from four units in front, the near root is 4*S; with t_min above it
    // the far root 6*S is reported instead
    let s = Sphere::new(Vec3 { x: 0, y: 0, z: -5 * S }, S).unwrap();
    let ray = Ray {
        origin: Vec3 { x: 0, y: 0, z: 0 },
        direction: Vec3 { x: 0, y: 0, z: -S },
    };
    assert_eq!(s.ray_intersect(&ray, 4 * S + 1), Some(6 * S));
}

#[test]
fn scene_hit_takes_nearest() {
    let near = Sphere::new(Vec3 { x: 0, y: 0, z: -5 * S }, S).unwrap();
    let far = Sphere::new(Vec3 { x: 0, y: 0, z: -10 * S }, S).unwrap();
    let scene = vec![far, near];
    let ray = Ray {
        origin: Vec3 { x: 0, y: 0, z: 0 },
        direction: Vec3 { x: 0, y: 0, z: -S },
    };
    assert_eq!(scene_hit(&scene, &ray, 0), Some(4 * S));
}

#[test]
fn scene_hit_empty_scene_misses() {
    let scene: Vec<Sphere> = Vec::new();
    let ray = Ray {
        origin: Vec3 { x: 0, y: 0, z: 0 },
        direction: Vec3 { x: 0, y: 0, z: -S },
    };
    assert_eq!(scene_hit(&scene, &ray, 0), None);
}
