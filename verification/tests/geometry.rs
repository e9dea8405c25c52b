use raytracer::geometry::AABBox;
use raytracer::vec3::Vec3;

fn v(x: i128, y: i128, z: i128) -> Vec3 {
    Vec3::new(x * 1_000_000, y * 1_000_000, z * 1_000_000)
}

#[test]
fn bbox_intersect() {
    let a = AABBox::new(v(0, 0, 0), v(5, 5, 5));
    let b = AABBox::new(v(4, 4, 4), v(10, 10, 10));
    assert!(a.intersect_other(&b));
    assert!(b.intersect_other(&a));
}

#[test]
fn bbox_intersect_inside() {
    let a = AABBox::new(v(0, 0, 0), v(5, 5, 5));
    let b = AABBox::new(v(-4, -4, -4), v(10, 10, 10));
    assert!(a.intersect_other(&b));
    assert!(b.intersect_other(&a));
}

#[test]
fn bbox_do_not_intersect() {
    let a = AABBox::new(v(0, 0, 0), v(5, 5, 5));
    let b = AABBox::new(v(-4, -4, -4), v(-1, -1, -1));
    assert!(!a.intersect_other(&b));
    assert!(!b.intersect_other(&a));
}

#[test]
fn bbox_intersect_no_vertices_inside() {
    let a = AABBox::new(v(0, 0, 0), v(1, 1, 5));
    let b = AABBox::new(v(-5, -1, 2), v(5, 3, 3));
    assert!(a.intersect_other(&b));
    assert!(b.intersect_other(&a));
}

#[test]
fn bbox_touching_counts_as_overlap() {
    let a = AABBox::new(v(0, 0, 0), v(1, 1, 1));
    let b = AABBox::new(v(1, 0, 0), v(2, 1, 1));
    assert!(a.intersect_other(&b));
    assert!(b.intersect_other(&a));
}

#[test]
fn bbox_separated_on_one_axis_only() {
    // identical on y and z, separated on x alone
    let a = AABBox::new(v(0, 0, 0), v(1, 5, 5));
    let b = AABBox::new(v(2, 0, 0), v(3, 5, 5));
    assert!(!a.intersect_other(&b));
    assert!(!b.intersect_other(&a));
}

#[test]
fn octants_split_at_the_center() {
    let a = AABBox::new(v(0, 0, 0), v(2, 2, 2));
    let parts = a.octants();
    assert_eq!(parts.len(), 8);
    assert_eq!(parts[0], AABBox::new(v(0, 0, 0), v(1, 1, 1)));
    assert_eq!(parts[4], AABBox::new(v(2, 2, 2), v(1, 1, 1)));
    for p in &parts {
        assert!(a.intersect_other(p));
    }
}
