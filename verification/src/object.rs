//! Scene objects: the concrete primitives, their common sum type, and the
//! construction of triangle lists from an indexed mesh.

pub mod sphere;
pub mod triangle;

use vstd::prelude::*;
use crate::geometry::{Ray, AABBox, Intersect};
use crate::object::sphere::Sphere;
use crate::object::triangle::Triangle;
use crate::vec3::{Vec3, CLIM};
use crate::num::iabs;

verus! {

/// A scene object: the sum of the concrete primitives. It carries the same
/// intersection capability as each of them, so lists, trees and the tracer
/// handle any mix of shapes.
#[derive(Clone, Copy, Debug)]
pub enum Primitive {
    Sphere(Sphere),
    Triangle(Triangle),
}

impl Intersect for Primitive {
    open spec fn wf(&self) -> bool {
        match self {
            Primitive::Sphere(s) => s.wf(),
            Primitive::Triangle(t) => t.wf(),
        }
    }

    open spec fn hit_model(&self, ray: Ray) -> Option<Ray> {
        match self {
            Primitive::Sphere(s) => s.hit_model(ray),
            Primitive::Triangle(t) => t.hit_model(ray),
        }
    }

    open spec fn bounds_model(&self) -> AABBox {
        match self {
            Primitive::Sphere(s) => s.bounds_model(),
            Primitive::Triangle(t) => t.bounds_model(),
        }
    }

    open spec fn dir_ok(&self, ray: Ray, h: Ray) -> bool {
        match self {
            Primitive::Sphere(s) => s.dir_ok(ray, h),
            Primitive::Triangle(t) => t.dir_ok(ray, h),
        }
    }

    fn intersect(&self, ray: Ray) -> (r: Option<Ray>) {
        match self {
            Primitive::Sphere(s) => s.intersect(ray),
            Primitive::Triangle(t) => t.intersect(ray),
        }
    }

    fn bounds(&self) -> (r: AABBox) {
        match self {
            Primitive::Sphere(s) => s.bounds(),
            Primitive::Triangle(t) => t.bounds(),
        }
    }
}

/// An owned copy of a primitive list.
pub fn copy_prims(v: &Vec<Primitive>) -> (r: Vec<Primitive>)
    ensures
        r@ == v@,
{
    let mut out: Vec<Primitive> = Vec::new();
    let mut k: usize = 0;
    while k < v.len()
        invariant
            0 <= k <= v@.len(),
            out@ == v@.take(k as int),
        decreases v@.len() - k as int,
    {
        out.push(v[k]);
        proof {
            assert(v@.take(k as int + 1) =~= v@.take(k as int).push(v@[k as int]));
        }
        k = k + 1;
    }
    proof {
        assert(v@.take(v@.len() as int) =~= v@);
    }
    out
}

/// A vertex handed over by a scene loader stays within the coordinate range.
pub open spec fn vert_ok(v: (i128, i128, i128)) -> bool {
    iabs(v.0 as int) <= CLIM as int && iabs(v.1 as int) <= CLIM as int && iabs(v.2 as int) <= CLIM
        as int
}

/// A face's three vertex indices point into the vertex list.
pub open spec fn face_ok(f: (usize, usize, usize), n: int) -> bool {
    f.0 < n && f.1 < n && f.2 < n
}

/// The triangle a face denotes.
pub open spec fn tri_of(vs: Seq<(i128, i128, i128)>, f: (usize, usize, usize)) -> Triangle {
    let va = vs[f.0 as int];
    let vb = vs[f.1 as int];
    let vc = vs[f.2 as int];
    let a = Vec3 { x: va.0, y: va.1, z: va.2 };
    let b = Vec3 { x: vb.0, y: vb.1, z: vb.2 };
    let c = Vec3 { x: vc.0, y: vc.1, z: vc.2 };
    Triangle { a, b, c, normal: Triangle::normal_s(a, b, c) }
}

/// Build one front-facing triangle per face of an indexed mesh, in face
/// order. This is the computational half of scene import; reading and
/// parsing the model file stays outside the library.
pub fn triangles_from_mesh(
    vertices: &Vec<(i128, i128, i128)>,
    faces: &Vec<(usize, usize, usize)>,
) -> (r: Vec<Primitive>)
    requires
        forall|i: int| 0 <= i < vertices@.len() ==> vert_ok(#[trigger] vertices@[i]),
        forall|i: int|
            0 <= i < faces@.len() ==> face_ok(#[trigger] faces@[i], vertices@.len() as int),
    ensures
        r@.len() == faces@.len(),
        forall|i: int|
            0 <= i < faces@.len() ==> #[trigger] r@[i] == Primitive::Triangle(
                tri_of(vertices@, faces@[i]),
            ),
        forall|i: int| 0 <= i < r@.len() ==> (#[trigger] r@[i]).wf(),
{
    let mut out: Vec<Primitive> = Vec::new();
    let mut k: usize = 0;
    while k < faces.len()
        invariant
            0 <= k <= faces@.len(),
            out@.len() == k as int,
            forall|i: int| 0 <= i < vertices@.len() ==> vert_ok(#[trigger] vertices@[i]),
            forall|i: int|
                0 <= i < faces@.len() ==> face_ok(#[trigger] faces@[i], vertices@.len() as int),
            forall|i: int|
                0 <= i < k as int ==> #[trigger] out@[i] == Primitive::Triangle(
                    tri_of(vertices@, faces@[i]),
                ),
            forall|i: int| 0 <= i < out@.len() ==> (#[trigger] out@[i]).wf(),
        decreases faces@.len() - k as int,
    {
        let f = faces[k];
        let va = vertices[f.0];
        let vb = vertices[f.1];
        let vc = vertices[f.2];
        let t = Triangle::from_tuples(va, vb, vc);
        out.push(Primitive::Triangle(t));
        k = k + 1;
    }
    out
}

} // verus!
