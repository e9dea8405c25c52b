use raytracer::geometry::{Intersect, Ray};
use raytracer::object::triangle::Triangle;
use raytracer::vec3::Vec3;

const ONE: i128 = 1_000_000;

#[test]
fn correct_calc_of_normal() {
    // towards +z
    assert_eq!(
        Triangle::from_tuples((0, 0, 0), (ONE, 0, 0), (0, ONE, 0)).normal(),
        Vec3::new(0, 0, ONE)
    );

    // towards -z
    assert_eq!(
        Triangle::from_tuples((0, 0, 0), (0, ONE, 0), (ONE, 0, 0)).normal(),
        Vec3::new(0, 0, -ONE)
    );

    // towards x
    assert_eq!(
        Triangle::from_tuples((0, 0, 0), (0, ONE, 0), (0, 0, ONE)).normal(),
        Vec3::new(ONE, 0, 0)
    );

    // towards -x
    assert_eq!(
        Triangle::from_tuples((0, 0, 0), (0, 0, ONE), (0, ONE, 0)).normal(),
        Vec3::new(-ONE, 0, 0)
    );

    // towards y
    assert_eq!(
        Triangle::from_tuples((0, 0, 0), (0, 0, ONE), (ONE, 0, 0)).normal(),
        Vec3::new(0, ONE, 0)
    );

    // towards -y
    assert_eq!(
        Triangle::from_tuples((0, 0, 0), (ONE, 0, 0), (0, 0, ONE)).normal(),
        Vec3::new(0, -ONE, 0)
    );
}

#[test]
fn opposite_triangle_has_the_vertices_reversed() {
    let tri = Triangle::new(Vec3::new(0, 0, 0), Vec3::new(ONE, 0, 0), Vec3::new(0, ONE, 0));

    let opp = tri.opposite();

    let possibility_1 = Triangle::new(tri.a, tri.c, tri.b);
    let possibility_2 = Triangle::new(tri.c, tri.b, tri.a);
    let possibility_3 = Triangle::new(tri.b, tri.a, tri.c);

    assert!(
        opp.almost_equals(&possibility_1)
            || opp.almost_equals(&possibility_2)
            || opp.almost_equals(&possibility_3)
    );
}

#[test]
fn opposite_triangle_has_opposite_normal() {
    let tri = Triangle::new(Vec3::new(0, 0, 0), Vec3::new(ONE, 0, 0), Vec3::new(0, ONE, 0));
    assert_eq!(tri.opposite().normal(), Vec3::new(0, 0, -ONE));
}

#[test]
fn simple_intersection() {
    let tri = Triangle::from_tuples((0, 0, 0), (ONE, 0, 0), (0, ONE, 0));

    let ray_center_into = Ray::from_to((250_000, 250_000, ONE), (250_000, 250_000, -ONE));

    assert!(tri.intersect(ray_center_into).is_some());
}

#[test]
fn intersection_normal_points_outwards() {
    let tri = Triangle::from_tuples((0, 0, 0), (ONE, 0, 0), (0, ONE, 0));

    // normal points to z
    assert_eq!(tri.normal(), Vec3::new(0, 0, ONE));

    let ray_center_into = Ray::from_to((250_000, 250_000, ONE), (250_000, 250_000, -ONE));

    assert!(tri.intersect(ray_center_into).unwrap().dir.z > 0);
}

#[test]
fn triangle_does_not_intersect_from_its_back() {
    let tri = Triangle::from_tuples((0, 0, 0), (0, ONE, 0), (ONE, 0, 0));

    // normal points to -z
    assert_eq!(tri.normal(), Vec3::new(0, 0, -ONE));

    let ray_center_into = Ray::from_to((250_000, 250_000, ONE), (250_000, 250_000, -ONE));

    assert!(tri.intersect(ray_center_into).is_none());
}

#[test]
fn triangle_does_not_intersect_with_back_of_ray() {
    let tri = Triangle::from_tuples((0, 0, 0), (ONE, 0, 0), (0, ONE, 0));

    let ray_center_into = Ray::from_to((250_000, 250_000, -ONE), (250_000, 250_000, -2_000_000));

    assert!(tri.intersect(ray_center_into).is_none());
}

#[test]
fn winding_swap_negates_normal_on_a_skew_triangle() {
    let a = (100_000, -200_000, 300_000);
    let b = (900_000, 150_000, -400_000);
    let c = (-250_000, 700_000, 550_000);
    let n = Triangle::from_tuples(a, b, c).normal();
    let swapped = Triangle::from_tuples(a, c, b).normal();
    assert_eq!(swapped, Vec3::new(-n.x, -n.y, -n.z));
}

#[test]
fn triangle_bounds_are_tight() {
    let tri = Triangle::from_tuples((0, 0, 0), (ONE, 0, -ONE), (0, ONE, 0));
    let bounds = tri.bounds();
    assert_eq!(bounds.min, Vec3::new(0, 0, -ONE));
    assert_eq!(bounds.max, Vec3::new(ONE, ONE, 0));
}
