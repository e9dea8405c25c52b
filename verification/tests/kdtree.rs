use raytracer::geometry::AABBox;
use raytracer::object::sphere::Sphere;
use raytracer::object::Primitive;
use raytracer::space_partition::kdtree::{KdTree, Node};
use raytracer::space_partition::SpacePartition;
use raytracer::vec3::Vec3;

const ONE: i128 = 1_000_000;

#[test]
fn test_single_object() {
    let sphere = Sphere::new((0, 0, 0), ONE);
    let objects: Vec<Primitive> = vec![Primitive::Sphere(sphere)];
    let tree = KdTree::from_objects(&objects);

    match &tree.root {
        Node::Leaf(bbox, idxs) => {
            assert_eq!(*bbox, AABBox::new(Vec3::new(-ONE, -ONE, -ONE), Vec3::new(ONE, ONE, ONE)));
            assert_eq!(*idxs, vec![0usize]);
        }
        _ => panic!("expected a single leaf"),
    }
}

#[test]
fn test_two_objects() {
    let sphere_a = Sphere::new((0, 0, 0), ONE);
    let sphere_b = Sphere::new((2_000_000, 0, 0), ONE);
    let objects: Vec<Primitive> = vec![Primitive::Sphere(sphere_a), Primitive::Sphere(sphere_b)];
    let tree = KdTree::from_objects(&objects);

    match &tree.root {
        Node::Leaf(bbox, idxs) => {
            assert_eq!(
                *bbox,
                AABBox::new(Vec3::new(-ONE, -ONE, -ONE), Vec3::new(3_000_000, ONE, ONE))
            );
            assert_eq!(*idxs, vec![0usize, 1usize]);
        }
        _ => panic!("expected a single leaf"),
    }
}
