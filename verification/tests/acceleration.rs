//! The differential property of the acceleration structures: a k-d tree and
//! an octree built over a primitive set report the same intersections as
//! brute-force testing the same primitives.

use raytracer::geometry::{AABBox, Intersect, Ray};
use raytracer::object::sphere::Sphere;
use raytracer::object::triangle::Triangle;
use raytracer::object::Primitive;
use raytracer::space_partition::kdtree::KdTree;
use raytracer::space_partition::octree::Octree;
use raytracer::space_partition::SpacePartition;
use raytracer::vec3::Vec3;

const ONE: i128 = 1_000_000;

/// Brute force: scan every primitive, keeping the nearest hit; of equal
/// distances the later primitive stands, as in the trees' leaf scans.
fn brute_force(objects: &Vec<Primitive>, ray: Ray) -> Option<Ray> {
    let mut best: Option<Ray> = None;
    for p in objects {
        if let Some(h) = p.intersect(ray) {
            let keep = match &best {
                None => true,
                Some(b) => dist2(ray.origin, h.origin) <= dist2(ray.origin, b.origin),
            };
            if keep {
                best = Some(h);
            }
        }
    }
    best
}

fn dist2(a: Vec3, b: Vec3) -> i128 {
    // the library's fixed-point metric: squares in micro-units
    let dx = a.x - b.x;
    let dy = a.y - b.y;
    let dz = a.z - b.z;
    (dx * dx) / 1_000_000 + (dy * dy) / 1_000_000 + (dz * dz) / 1_000_000
}

fn cluster() -> Vec<Primitive> {
    let mut objects: Vec<Primitive> = Vec::new();
    for i in 0..20i128 {
        // two staggered rows of spheres
        objects.push(Primitive::Sphere(Sphere::new(
            (-4 * ONE + i * 400_000, -ONE + (i % 3) * 700_000, -2 * ONE + i * 150_000),
            300_000,
        )));
        objects.push(Primitive::Sphere(Sphere::new(
            (-4 * ONE + i * 400_000, 2 * ONE - (i % 4) * 500_000, ONE + i * 100_000),
            250_000,
        )));
    }
    // one triangle floor below everything
    objects.push(Primitive::Triangle(Triangle::from_tuples(
        (-50 * ONE, -5 * ONE, 50 * ONE),
        (50 * ONE, -5 * ONE, 50 * ONE),
        (0, -5 * ONE, -100 * ONE),
    )));
    objects
}

fn probe_rays() -> Vec<Ray> {
    vec![
        Ray::from_to((0, 0, 10 * ONE), (0, 0, -ONE)),
        Ray::from_to((-6 * ONE, ONE, 8 * ONE), (ONE, -ONE, -2 * ONE)),
        Ray::from_to((5 * ONE, 3 * ONE, 9 * ONE), (-2 * ONE, -500_000, -ONE)),
        Ray::from_to((0, 8 * ONE, 0), (300_000, -ONE, 100_000)),
        Ray::from_to((0, 0, -10 * ONE), (0, 0, ONE)),
        Ray::from_to((-8 * ONE, -4 * ONE, 6 * ONE), (2 * ONE, 500_000, -ONE)),
    ]
}

#[test]
fn kd_tree_matches_brute_force() {
    let objects = cluster();
    let tree = KdTree::from_objects(&objects);
    for ray in probe_rays() {
        let direct = brute_force(&objects, ray);
        let accelerated = tree.intersect(ray);
        assert_eq!(direct.is_some(), accelerated.is_some());
        if let (Some(d), Some(a)) = (direct, accelerated) {
            assert_eq!(d.origin, a.origin);
        }
    }
}

#[test]
fn octree_matches_brute_force() {
    let objects = cluster();
    let bounds = AABBox::new(
        Vec3::new(-60 * ONE, -60 * ONE, -110 * ONE),
        Vec3::new(60 * ONE, 60 * ONE, 60 * ONE),
    );
    let octree = Octree::new(&objects, 4, 4, bounds);
    for ray in probe_rays() {
        let direct = brute_force(&objects, ray);
        let accelerated = octree.intersect(ray);
        assert_eq!(direct.is_some(), accelerated.is_some());
        if let (Some(d), Some(a)) = (direct, accelerated) {
            assert_eq!(d.origin, a.origin);
        }
    }
}

#[test]
fn kd_tree_over_a_single_primitive_matches_brute_force() {
    let objects = vec![Primitive::Sphere(Sphere::new((0, 0, -3 * ONE), 500_000))];
    let tree = KdTree::from_objects(&objects);
    for ray in probe_rays() {
        let direct = brute_force(&objects, ray);
        let accelerated = tree.intersect(ray);
        assert_eq!(direct.is_some(), accelerated.is_some());
        if let (Some(d), Some(a)) = (direct, accelerated) {
            assert_eq!(d.origin, a.origin);
        }
    }
}

#[test]
fn octree_over_a_single_primitive_matches_brute_force() {
    let objects = vec![Primitive::Sphere(Sphere::new((0, 0, -3 * ONE), 500_000))];
    let bounds = AABBox::new(
        Vec3::new(-10 * ONE, -10 * ONE, -10 * ONE),
        Vec3::new(10 * ONE, 10 * ONE, 10 * ONE),
    );
    let octree = Octree::new(&objects, 3, 2, bounds);
    for ray in probe_rays() {
        let direct = brute_force(&objects, ray);
        let accelerated = octree.intersect(ray);
        assert_eq!(direct.is_some(), accelerated.is_some());
        if let (Some(d), Some(a)) = (direct, accelerated) {
            assert_eq!(d.origin, a.origin);
        }
    }
}
