use raytracer::object::triangle::Triangle;
use raytracer::object::{triangles_from_mesh, Primitive};
use raytracer::scene::{icosahedron, spheres};

#[test]
fn spheres_scene_has_its_objects_and_light() {
    let scene = spheres();
    assert_eq!(scene.objects.len(), 6);
    assert_eq!(scene.lights.len(), 1);
    assert_eq!(scene.camera.origin.z, 8_000_000);
}

#[test]
fn icosahedron_scene_has_twenty_faces_and_a_floor() {
    let scene = icosahedron();
    assert_eq!(scene.objects.len(), 21);
    assert_eq!(scene.lights.len(), 1);
}

#[test]
fn mesh_faces_become_triangles_in_order() {
    let vertices: Vec<(i128, i128, i128)> = vec![
        (0, 0, 0),
        (1_000_000, 0, 0),
        (0, 1_000_000, 0),
        (0, 0, 1_000_000),
    ];
    let faces: Vec<(usize, usize, usize)> = vec![(0, 1, 2), (0, 2, 3)];
    let prims = triangles_from_mesh(&vertices, &faces);
    assert_eq!(prims.len(), 2);
    match &prims[0] {
        Primitive::Triangle(t) => {
            assert_eq!(*t, Triangle::from_tuples((0, 0, 0), (1_000_000, 0, 0), (0, 1_000_000, 0)));
        }
        _ => panic!("expected a triangle"),
    }
    match &prims[1] {
        Primitive::Triangle(t) => {
            assert_eq!(
                *t,
                Triangle::from_tuples((0, 0, 0), (0, 1_000_000, 0), (0, 0, 1_000_000))
            );
        }
        _ => panic!("expected a triangle"),
    }
}
