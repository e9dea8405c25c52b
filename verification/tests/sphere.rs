use raytracer::geometry::{Intersect, Ray};
use raytracer::object::sphere::Sphere;

#[test]
fn test_intersect() {
    let ray = Ray::new((0, 0, 0), (0, 0, 1_000_000));

    let ray2 = Ray::new((0, 0, 0), (0, 510_000, 3_000_000));

    let ray3 = Ray::new((0, 0, 0), (0, 490_000, 3_000_000));

    let obj = Sphere::new((0, 0, 3_000_000), 500_000);

    assert!(obj.intersect(ray).is_some());
    assert!(obj.intersect(ray2).is_none());
    assert!(obj.intersect(ray3).is_some());
}

#[test]
fn ray_at_center_hits_offset_ray_misses() {
    // aimed straight at the center: always a hit
    let center_ray = Ray::from_to((0, 0, -5_000_000), (1_000_000, 2_000_000, 3_000_000));
    let obj = Sphere::new((1_000_000, 2_000_000, 3_000_000), 700_000);
    assert!(obj.intersect(center_ray).is_some());

    // aimed far to the side: no hit
    let off_ray = Ray::from_to((0, 0, -5_000_000), (1_000_000, 9_000_000, 3_000_000));
    assert!(obj.intersect(off_ray).is_none());
}

#[test]
fn sphere_behind_ray_origin_is_missed() {
    let ray = Ray::new((0, 0, 0), (0, 0, 1_000_000));
    let obj = Sphere::new((0, 0, -3_000_000), 500_000);
    assert!(obj.intersect(ray).is_none());
}

#[test]
fn sphere_bounds_are_tight() {
    let obj = Sphere::new((1_000_000, -2_000_000, 0), 500_000);
    let b = obj.bounds();
    assert_eq!(b.min.x, 500_000);
    assert_eq!(b.min.y, -2_500_000);
    assert_eq!(b.min.z, -500_000);
    assert_eq!(b.max.x, 1_500_000);
    assert_eq!(b.max.y, -1_500_000);
    assert_eq!(b.max.z, 500_000);
}
