use raytracer::camera::Camera;
use raytracer::geometry::{AABBox, Ray};
use raytracer::object::sphere::Sphere;
use raytracer::object::triangle::Triangle;
use raytracer::object::Primitive;
use raytracer::space_partition::octree::Octree;
use raytracer::tracer::{gamma_encode, render_rows, trace_ray};
use raytracer::vec3::Vec3;

const ONE: i128 = 1_000_000;

fn big_box() -> AABBox {
    AABBox::new(
        Vec3::new(-10_000_000, -10_000_000, -10_000_000),
        Vec3::new(10_000_000, 10_000_000, 10_000_000),
    )
}

#[test]
fn reflect_triangle2() {
    let ray = Ray::from_to((0, 0, 8_000_000), (4_000_000, -4_000_000, 0));
    let scene: Vec<Primitive> = vec![Primitive::Triangle(Triangle::from_tuples(
        (-2_500_000, -4_500_000, 0),
        (6_500_000, 4_500_000, 0),
        (6_500_000, -4_500_000, 0),
    ))];
    let lights = vec![Sphere::new((4_000_000, 0, 2_000_000), ONE)];
    let octree = Octree::new(&scene, 2, 2, big_box());

    println!("{:?}", trace_ray(ray, &octree, &lights, 10));
}

#[test]
fn light_straight_ahead_gives_full_intensity() {
    let no_objects: Vec<Primitive> = vec![];
    let octree = Octree::new(&no_objects, 2, 2, big_box());
    let lights = vec![Sphere::new((0, 0, 5_000_000), ONE)];
    let ray = Ray::new((0, 0, 0), (0, 0, ONE));
    assert_eq!(trace_ray(ray, &octree, &lights, 5), ONE);
}

#[test]
fn no_light_in_the_path_gives_darkness() {
    let no_objects: Vec<Primitive> = vec![];
    let octree = Octree::new(&no_objects, 2, 2, big_box());
    let lights = vec![Sphere::new((0, 0, -5_000_000), ONE)];
    let ray = Ray::new((0, 0, 0), (0, 0, ONE));
    assert_eq!(trace_ray(ray, &octree, &lights, 5), 0);

    let no_lights: Vec<Sphere> = vec![];
    assert_eq!(trace_ray(ray, &octree, &no_lights, 5), 0);
}

#[test]
fn one_bounce_attenuates_by_the_decay_factor() {
    // a sphere dead ahead; the surrounding light sphere encloses both the
    // ray origin and the hit point, so the first pass reaches the object
    // first and every jittered reflection escapes into the light:
    // the result is exactly 0.98 times full intensity
    let objects: Vec<Primitive> = vec![Primitive::Sphere(Sphere::new((0, 0, 0), ONE))];
    let octree = Octree::new(&objects, 2, 2, big_box());
    let lights = vec![Sphere::new((0, 0, 0), 10_000_000)];
    let ray = Ray::new((0, 0, 8_000_000), (0, 0, -ONE));
    assert_eq!(trace_ray(ray, &octree, &lights, 5), 980_000);
}

#[test]
fn no_bounce_budget_gives_darkness_on_an_object() {
    let objects: Vec<Primitive> = vec![Primitive::Sphere(Sphere::new((0, 0, 0), ONE))];
    let octree = Octree::new(&objects, 2, 2, big_box());
    let lights: Vec<Sphere> = vec![];
    let ray = Ray::new((0, 0, 8_000_000), (0, 0, -ONE));
    assert_eq!(trace_ray(ray, &octree, &lights, 1), 0);
}

#[test]
fn render_rows_inside_a_light_is_uniformly_bright() {
    let camera = Camera::new(
        Vec3::new(0, 0, 0),
        Vec3::new(0, 0, ONE),
        Vec3::new(0, ONE, 0),
        ONE,
        ONE,
        ONE,
    );
    let no_objects: Vec<Primitive> = vec![];
    let octree = Octree::new(&no_objects, 2, 2, big_box());
    let lights = vec![Sphere::new((0, 0, 0), 100_000_000)];
    let image = render_rows(&camera, &octree, &lights, 4, 4, 0, 4, 2, 3);
    assert_eq!(image.len(), 16);
    for px in &image {
        assert_eq!(*px, ONE);
    }
}

#[test]
fn gamma_encoding_of_known_samples() {
    assert_eq!(gamma_encode(0), 0);
    assert_eq!(gamma_encode(250_000), 127);
    assert_eq!(gamma_encode(ONE), 255);
}
