//! Scenes: an object set, a list of light spheres and a camera.

use vstd::prelude::*;
use crate::camera::Camera;
use crate::object::Primitive;
use crate::object::sphere::{Sphere, lights_ok};
use crate::object::triangle::Triangle;
use crate::vec3::Vec3;
use crate::space_partition::objects_ok;
use crate::geometry::Intersect;

verus! {

pub struct Scene {
    pub objects: Vec<Primitive>,
    pub lights: Vec<Sphere>,
    pub camera: Camera,
}

impl Scene {
    pub open spec fn scene_wf(self) -> bool {
        objects_ok(self.objects@) && lights_ok(self.lights@) && self.camera.cam_wf()
    }
}

/// The ground plane of the demonstration scenes: a huge triangle at
/// height `y`.
pub open spec fn floor_triangle(y: i128) -> Triangle {
    let a = Vec3 { x: -100_000_000i128, y: y, z: 100_000_000i128 };
    let b = Vec3 { x: 100_000_000i128, y: y, z: 100_000_000i128 };
    let c = Vec3 { x: 0i128, y: y, z: -200_000_000i128 };
    Triangle { a, b, c, normal: Triangle::normal_s(a, b, c) }
}

/// Vertex `i` (one-based) of the icosahedron, scaled to two units.
pub open spec fn ico_vertex(i: int) -> Vec3 {
    if i == 1 {
        Vec3 { x: 0i128, y: -2_000_000i128, z: 0i128 }
    } else if i == 2 {
        Vec3 { x: 1_447_200i128, y: -894_430i128, z: 1_051_440i128 }
    } else if i == 3 {
        Vec3 { x: -552_770i128, y: -894_430i128, z: 1_701_280i128 }
    } else if i == 4 {
        Vec3 { x: -1_788_850i128, y: -894_430i128, z: 0i128 }
    } else if i == 5 {
        Vec3 { x: -552_770i128, y: -894_430i128, z: -1_701_280i128 }
    } else if i == 6 {
        Vec3 { x: 1_447_200i128, y: -894_430i128, z: -1_051_440i128 }
    } else if i == 7 {
        Vec3 { x: 552_770i128, y: 894_430i128, z: 1_701_280i128 }
    } else if i == 8 {
        Vec3 { x: -1_447_200i128, y: 894_430i128, z: 1_051_440i128 }
    } else if i == 9 {
        Vec3 { x: -1_447_200i128, y: 894_430i128, z: -1_051_440i128 }
    } else if i == 10 {
        Vec3 { x: 552_770i128, y: 894_430i128, z: -1_701_280i128 }
    } else if i == 11 {
        Vec3 { x: 1_788_850i128, y: 894_430i128, z: 0i128 }
    } else {
        Vec3 { x: 0i128, y: 2_000_000i128, z: 0i128 }
    }
}

/// Face `k` of the icosahedron, as its three one-based vertex numbers.
pub open spec fn ico_face(k: int) -> (int, int, int) {
    if k == 0 {
        (1, 2, 3)
    } else if k == 1 {
        (2, 1, 6)
    } else if k == 2 {
        (1, 3, 4)
    } else if k == 3 {
        (1, 4, 5)
    } else if k == 4 {
        (1, 5, 6)
    } else if k == 5 {
        (2, 6, 11)
    } else if k == 6 {
        (3, 2, 7)
    } else if k == 7 {
        (4, 3, 8)
    } else if k == 8 {
        (5, 4, 9)
    } else if k == 9 {
        (6, 5, 10)
    } else if k == 10 {
        (2, 11, 7)
    } else if k == 11 {
        (3, 7, 8)
    } else if k == 12 {
        (4, 8, 9)
    } else if k == 13 {
        (5, 9, 10)
    } else if k == 14 {
        (6, 10, 11)
    } else if k == 15 {
        (7, 11, 12)
    } else if k == 16 {
        (8, 7, 12)
    } else if k == 17 {
        (9, 8, 12)
    } else if k == 18 {
        (10, 9, 12)
    } else {
        (11, 10, 12)
    }
}

/// The triangle of face `k` of the icosahedron.
pub open spec fn ico_triangle(k: int) -> Triangle {
    let a = ico_vertex(ico_face(k).0);
    let b = ico_vertex(ico_face(k).1);
    let c = ico_vertex(ico_face(k).2);
    Triangle { a, b, c, normal: Triangle::normal_s(a, b, c) }
}

/// A handful of spheres over a floor triangle, lit by one large sphere.
pub fn spheres() -> (r: Scene)
    ensures
        r.scene_wf(),
        r.objects@.len() == 6,
        r.objects@[0] == Primitive::Sphere(
            Sphere { center: Vec3 { x: 0, y: 0, z: 0 }, radius: 2_000_000 },
        ),
        r.objects@[1] == Primitive::Sphere(
            Sphere { center: Vec3 { x: 5_000_000, y: 0, z: -3_000_000i128 }, radius: 2_000_000 },
        ),
        r.objects@[2] == Primitive::Sphere(
            Sphere { center: Vec3 { x: -2_500_000i128, y: 0, z: 2_000_000 }, radius: 2_000_000 },
        ),
        r.objects@[3] == Primitive::Sphere(
            Sphere { center: Vec3 { x: 500_000, y: -1_500_000i128, z: 2_000_000 }, radius: 1_000_000 },
        ),
        r.objects@[4] == Primitive::Sphere(
            Sphere { center: Vec3 { x: 2_100_000, y: 2_100_000, z: 2_000_000 }, radius: 600_000 },
        ),
        r.objects@[5] == Primitive::Triangle(floor_triangle(-10_000_000i128)),
        r.lights@ == seq![
            Sphere { center: Vec3 { x: 20_000_000, y: 30_000_000, z: 20_000_000 }, radius: 10_000_000 },
        ],
        r.camera.origin == (Vec3 { x: 0, y: 0, z: 8_000_000 }),
        r.camera.dir == crate::vec3::norm_s(Vec3 { x: 0, y: 0, z: -8_000_000i128 }),
        r.camera.up == crate::vec3::norm_s(Vec3 { x: 0, y: -1_000_000i128, z: 0 }),
        r.camera.x_fov == 1_000_000,
        r.camera.y_fov == 1_000_000,
        r.camera.sensor_distance == 2_000_000,
{
    let cam_origin = Vec3::new(0, 0, 8_000_000);
    let mut objects: Vec<Primitive> = Vec::new();
    objects.push(Primitive::Sphere(Sphere::new((0, 0, 0), 2_000_000)));
    objects.push(Primitive::Sphere(Sphere::new((5_000_000, 0, -3_000_000), 2_000_000)));
    objects.push(Primitive::Sphere(Sphere::new((-2_500_000, 0, 2_000_000), 2_000_000)));
    objects.push(Primitive::Sphere(Sphere::new((500_000, -1_500_000, 2_000_000), 1_000_000)));
    objects.push(Primitive::Sphere(Sphere::new((2_100_000, 2_100_000, 2_000_000), 600_000)));
    objects.push(
        Primitive::Triangle(
            Triangle::from_tuples(
                (-100_000_000, -10_000_000, 100_000_000),
                (100_000_000, -10_000_000, 100_000_000),
                (0, -10_000_000, -200_000_000),
            ),
        ),
    );
    let mut lights: Vec<Sphere> = Vec::new();
    lights.push(Sphere::new((20_000_000, 30_000_000, 20_000_000), 10_000_000));
    proof {
        assert(lights@ =~= seq![
            Sphere {
                center: Vec3 { x: 20_000_000, y: 30_000_000, z: 20_000_000 },
                radius: 10_000_000,
            },
        ]);
    }
    let camera = Camera::new(
        cam_origin,
        Vec3::new(0, 0, 0).sub(cam_origin).normalize(),
        Vec3::new(0, -1_000_000, 0).normalize(),
        1_000_000,
        1_000_000,
        2_000_000,
    );
    Scene { objects, lights, camera }
}

/// The twenty faces of an icosahedron above a floor triangle, lit by one
/// large sphere.
#[verifier::rlimit(100)]
pub fn icosahedron() -> (r: Scene)
    ensures
        r.scene_wf(),
        r.objects@.len() == 21,
        forall|k: int|
            0 <= k < 20 ==> #[trigger] r.objects@[k] == Primitive::Triangle(ico_triangle(k)),
        r.objects@[20] == Primitive::Triangle(floor_triangle(-5_000_000i128)),
        r.lights@ == seq![
            Sphere { center: Vec3 { x: 40_000_000, y: 30_000_000, z: 0 }, radius: 15_000_000 },
        ],
        r.camera.origin == (Vec3 { x: 0, y: 0, z: 8_000_000 }),
        r.camera.dir == crate::vec3::norm_s(Vec3 { x: 0, y: 0, z: -8_000_000i128 }),
        r.camera.up == crate::vec3::norm_s(Vec3 { x: 0, y: -1_000_000i128, z: 0 }),
        r.camera.x_fov == 1_000_000,
        r.camera.y_fov == 1_000_000,
        r.camera.sensor_distance == 2_000_000,
{
    let p1 = (0i128, -2_000_000i128, 0i128);
    let p2 = (1_447_200i128, -894_430i128, 1_051_440i128);
    let p3 = (-552_770i128, -894_430i128, 1_701_280i128);
    let p4 = (-1_788_850i128, -894_430i128, 0i128);
    let p5 = (-552_770i128, -894_430i128, -1_701_280i128);
    let p6 = (1_447_200i128, -894_430i128, -1_051_440i128);
    let p7 = (552_770i128, 894_430i128, 1_701_280i128);
    let p8 = (-1_447_200i128, 894_430i128, 1_051_440i128);
    let p9 = (-1_447_200i128, 894_430i128, -1_051_440i128);
    let p10 = (552_770i128, 894_430i128, -1_701_280i128);
    let p11 = (1_788_850i128, 894_430i128, 0i128);
    let p12 = (0i128, 2_000_000i128, 0i128);

    let mut objects: Vec<Primitive> = Vec::new();
    objects.push(Primitive::Triangle(Triangle::from_tuples(p1, p2, p3)));
    objects.push(Primitive::Triangle(Triangle::from_tuples(p2, p1, p6)));
    objects.push(Primitive::Triangle(Triangle::from_tuples(p1, p3, p4)));
    objects.push(Primitive::Triangle(Triangle::from_tuples(p1, p4, p5)));
    objects.push(Primitive::Triangle(Triangle::from_tuples(p1, p5, p6)));
    objects.push(Primitive::Triangle(Triangle::from_tuples(p2, p6, p11)));
    objects.push(Primitive::Triangle(Triangle::from_tuples(p3, p2, p7)));
    objects.push(Primitive::Triangle(Triangle::from_tuples(p4, p3, p8)));
    objects.push(Primitive::Triangle(Triangle::from_tuples(p5, p4, p9)));
    objects.push(Primitive::Triangle(Triangle::from_tuples(p6, p5, p10)));
    objects.push(Primitive::Triangle(Triangle::from_tuples(p2, p11, p7)));
    objects.push(Primitive::Triangle(Triangle::from_tuples(p3, p7, p8)));
    objects.push(Primitive::Triangle(Triangle::from_tuples(p4, p8, p9)));
    objects.push(Primitive::Triangle(Triangle::from_tuples(p5, p9, p10)));
    objects.push(Primitive::Triangle(Triangle::from_tuples(p6, p10, p11)));
    objects.push(Primitive::Triangle(Triangle::from_tuples(p7, p11, p12)));
    objects.push(Primitive::Triangle(Triangle::from_tuples(p8, p7, p12)));
    objects.push(Primitive::Triangle(Triangle::from_tuples(p9, p8, p12)));
    objects.push(Primitive::Triangle(Triangle::from_tuples(p10, p9, p12)));
    objects.push(Primitive::Triangle(Triangle::from_tuples(p11, p10, p12)));
    objects.push(
        Primitive::Triangle(
            Triangle::from_tuples(
                (-100_000_000, -5_000_000, 100_000_000),
                (100_000_000, -5_000_000, 100_000_000),
                (0, -5_000_000, -200_000_000),
            ),
        ),
    );

    let mut lights: Vec<Sphere> = Vec::new();
    lights.push(Sphere::new((40_000_000, 30_000_000, 0), 15_000_000));
    proof {
        assert(lights@ =~= seq![
            Sphere { center: Vec3 { x: 40_000_000, y: 30_000_000, z: 0 }, radius: 15_000_000 },
        ]);
    }

    let cam_origin = Vec3::new(0, 0, 8_000_000);
    let camera = Camera::new(
        cam_origin,
        Vec3::new(0, 0, 0).sub(cam_origin).normalize(),
        Vec3::new(0, -1_000_000, 0).normalize(),
        1_000_000,
        1_000_000,
        2_000_000,
    );
    Scene { objects, lights, camera }
}

} // verus!
