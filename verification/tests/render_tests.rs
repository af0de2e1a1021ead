use raytracer::geometry::Sphere;
use raytracer::ppm::encode;
use raytracer::render::render;
use raytracer::vec3::Vec3;

const S: i64 = 65536;
const HIT: Vec3 = Vec3 { x: 26214, y: 26214, z: 19661 };

#[test]
fn empty_scene_gradient_cell() {
    // width 4, height 2, no primitives: cell (2, 1) holds the fractions
    // (1/2, 2/4, 0) and encodes to bytes (127, 127, 0) by truncation
    let scene: Vec<Sphere> = Vec::new();
    let fb = render(&scene, 4, 2, S);
    assert_eq!(fb.get(2, 1), Vec3 { x: 32768, y: 32768, z: 0 });
    let bytes = encode(&fb);
    let header = b"P6\n4 2\n255\n".len();
    let offset = header + 3 * (1 * 4 + 2);
    assert_eq!(&bytes[offset..offset + 3], &[127, 127, 0]);
}

#[test]
fn empty_scene_full_gradient() {
    let scene: Vec<Sphere> = Vec::new();
    let fb = render(&scene, 4, 2, S);
    for j in 0..2usize {
        for i in 0..4usize {
            let expected = Vec3 {
                x: (j as i64) * S / 2,
                y: (i as i64) * S / 4,
                z: 0,
            };
            assert_eq!(fb.get(i, j), expected);
        }
    }
}

#[test]
fn centered_sphere_hits_center_pixel_only_near_axis() {
    // one unit sphere five units down -z, camera at the origin looking
    // down -z with a 90 degree field of view: the center pixel hits,
    // the four corner pixels keep the background gradient
    let sphere = Sphere::new(Vec3 { x: 0, y: 0, z: -5 * S }, S).unwrap();
    let scene = vec![sphere];
    let fb = render(&scene, 100, 100, S);
    assert_eq!(fb.get(50, 50), HIT);
    assert_eq!(fb.get(0, 0), Vec3 { x: 0, y: 0, z: 0 });
    assert_eq!(fb.get(99, 0), Vec3 { x: 0, y: 64880, z: 0 });
    assert_eq!(fb.get(0, 99), Vec3 { x: 64880, y: 0, z: 0 });
    assert_eq!(fb.get(99, 99), Vec3 { x: 64880, y: 64880, z: 0 });
}

#[test]
fn hit_pixels_form_a_disc() {
    // rows near the image center still cross the sphere at the middle
    // column, while the row edges miss; far rows miss everywhere
    let sphere = Sphere::new(Vec3 { x: 0, y: 0, z: -5 * S }, S).unwrap();
    let scene = vec![sphere];
    let fb = render(&scene, 100, 100, S);
    for j in [41usize, 50, 59] {
        assert_eq!(fb.get(0, j).z, 0, "row {j} edge should miss");
        assert_eq!(fb.get(50, j), HIT, "row {j} center should hit");
    }
    assert_eq!(fb.get(50, 20).z, 0);
    assert_eq!(fb.get(50, 80).z, 0);
}
