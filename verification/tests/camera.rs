use raytracer::camera::Camera;
use raytracer::vec3::Vec3;

const ONE: i128 = 1_000_000;

fn abs(v: i128) -> i128 {
    if v < 0 {
        -v
    } else {
        v
    }
}

#[test]
fn camera() {
    // a right-angle field of view on both axes: the tangent of half the
    // angle is one
    let camera = Camera::new(
        Vec3::new(0, 0, -ONE),
        Vec3::new(0, 0, ONE),
        Vec3::new(0, ONE, 0),
        ONE,
        ONE,
        ONE,
    );

    // ray going near the center; the tolerance covers the pixel jitter
    assert!(abs(camera.ray((1000, 1000), (2000, 2000)).dir.x - 0) <= 1000);
    assert!(abs(camera.ray((1000, 1000), (2000, 2000)).dir.y - 0) <= 1000);
    assert!(abs(camera.ray((1000, 1000), (2000, 2000)).dir.z - ONE) <= 1000);

    // ray going near the lower left
    let p = Vec3::new(-ONE, -ONE, ONE).normalize();
    assert!(abs(camera.ray((0, 0), (2000, 2000)).dir.x - p.x) <= 1000);
    assert!(abs(camera.ray((0, 0), (2000, 2000)).dir.y - p.y) <= 1000);
    assert!(abs(camera.ray((0, 0), (2000, 2000)).dir.z - p.z) <= 1000);

    // ray going near the lower right
    let p = Vec3::new(ONE, -ONE, ONE).normalize();
    assert!(abs(camera.ray((2000, 0), (2000, 2000)).dir.x - p.x) <= 1000);
    assert!(abs(camera.ray((2000, 0), (2000, 2000)).dir.y - p.y) <= 1000);
    assert!(abs(camera.ray((2000, 0), (2000, 2000)).dir.z - p.z) <= 1000);

    // ray going near the top right
    let p = Vec3::new(ONE, ONE, ONE).normalize();
    assert!(abs(camera.ray((2000, 2000), (2000, 2000)).dir.x - p.x) <= 1000);
    assert!(abs(camera.ray((2000, 2000), (2000, 2000)).dir.y - p.y) <= 1000);
    assert!(abs(camera.ray((2000, 2000), (2000, 2000)).dir.z - p.z) <= 1000);
}

#[test]
fn recalc_rebuilds_the_film_plane() {
    let mut camera = Camera::new(
        Vec3::new(0, 0, -ONE),
        Vec3::new(0, 0, ONE),
        Vec3::new(0, ONE, 0),
        ONE,
        ONE,
        ONE,
    );
    let reference = Camera::new(
        Vec3::new(0, 0, -2_000_000),
        Vec3::new(0, 0, ONE),
        Vec3::new(0, ONE, 0),
        ONE,
        ONE,
        ONE,
    );
    camera.origin = Vec3::new(0, 0, -2_000_000);
    camera.recalc();
    assert_eq!(camera.pixel_lower_left, reference.pixel_lower_left);
    assert_eq!(camera.x_vec, reference.x_vec);
    assert_eq!(camera.y_vec, reference.y_vec);
}
