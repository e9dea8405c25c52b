//! Triangle primitive with a precomputed face normal.

use vstd::prelude::*;
use crate::num::{SCALE, iabs, fdiv_s, muldiv_s, fdiv, muldiv, lemma_fmul_s_bound_lin};
use crate::vec3::{
    Vec3, bounded, sub_s, add_s, scale_s, dot_s, cross_s, norm_s, neg_s, zero_v, CLIM, DIRLIM,
    PLIM, lemma_dot_s_bound_lin, lemma_cross_s_bound_lin, lemma_cross_antisym, lemma_norm_neg,
    lemma_unit_dot_bound,
};
use crate::geometry::{Ray, AABBox, Intersect, hit_matches};
use crate::rng::rand_micro;

verus! {

#[derive(Clone, Copy, Debug, PartialEq, Eq, Structural)]
pub struct Triangle {
    pub a: Vec3,
    pub b: Vec3,
    pub c: Vec3,
    pub normal: Vec3,
}

impl Triangle {
    /// The right-hand-rule unit normal of the vertex order `a`, `b`, `c`.
    pub open spec fn normal_s(a: Vec3, b: Vec3, c: Vec3) -> Vec3 {
        norm_s(cross_s(sub_s(b, a), sub_s(c, a)))
    }

    pub open spec fn tri_wf(self) -> bool {
        &&& bounded(self.a, CLIM as int)
        &&& bounded(self.b, CLIM as int)
        &&& bounded(self.c, CLIM as int)
        &&& bounded(self.normal, DIRLIM as int)
    }

    pub fn new(a: Vec3, b: Vec3, c: Vec3) -> (r: Triangle)
        requires
            bounded(a, CLIM as int),
            bounded(b, CLIM as int),
            bounded(c, CLIM as int),
        ensures
            r == (Triangle { a, b, c, normal: Triangle::normal_s(a, b, c) }),
            r.tri_wf(),
    {
        proof {
            assert(2_000_000_000 * 2_000_000_000 <= (SCALE as int) * 4_000_000_000_000)
                by (nonlinear_arith);
            lemma_cross_s_bound_lin(sub_s(b, a), sub_s(c, a), 2_000_000_000, 2_000_000_000, 4_000_000_000_000);
        }
        Triangle { a, b, c, normal: b.sub(a).cross(c.sub(a)).normalize() }
    }

    pub fn from_tuples(a: (i128, i128, i128), b: (i128, i128, i128), c: (i128, i128, i128)) -> (r:
        Triangle)
        requires
            iabs(a.0 as int) <= CLIM as int,
            iabs(a.1 as int) <= CLIM as int,
            iabs(a.2 as int) <= CLIM as int,
            iabs(b.0 as int) <= CLIM as int,
            iabs(b.1 as int) <= CLIM as int,
            iabs(b.2 as int) <= CLIM as int,
            iabs(c.0 as int) <= CLIM as int,
            iabs(c.1 as int) <= CLIM as int,
            iabs(c.2 as int) <= CLIM as int,
        ensures
            r.a == (Vec3 { x: a.0, y: a.1, z: a.2 }),
            r.b == (Vec3 { x: b.0, y: b.1, z: b.2 }),
            r.c == (Vec3 { x: c.0, y: c.1, z: c.2 }),
            r.normal == Triangle::normal_s(r.a, r.b, r.c),
            r.tri_wf(),
    {
        Triangle::new(Vec3::new(a.0, a.1, a.2), Vec3::new(b.0, b.1, b.2), Vec3::new(c.0, c.1, c.2))
    }

    pub fn normal(&self) -> (r: Vec3)
        ensures
            r == self.normal,
    {
        self.normal
    }

    /// The same triangle wound the other way: vertices reversed, normal
    /// negated.
    pub fn opposite(&self) -> (r: Triangle)
        requires
            self.tri_wf(),
        ensures
            r == (Triangle { a: self.c, b: self.b, c: self.a, normal: neg_s(self.normal) }),
            r.tri_wf(),
    {
        Triangle { a: self.c, b: self.b, c: self.a, normal: self.normal.neg() }
    }

    /// Vertexwise equality; the fixed-point grid needs no epsilon.
    pub fn almost_equals(&self, other: &Triangle) -> (r: bool)
        ensures
            r == (self.a == other.a && self.b == other.b && self.c == other.c),
    {
        self.a == other.a && self.b == other.b && self.c == other.c
    }

    /// The hit model, with the normal jitter `j` as an explicit argument.
    /// A ray pointing with the normal (or exactly parallel to the plane,
    /// the explicit policy for that degenerate case) is culled; the plane
    /// hit must lie in front of the origin, within the representable range
    /// and inside all three edges; the hit stands slightly off the plane
    /// along the normal, and the returned direction is the normal perturbed
    /// by `j` and renormalized. The range test on the computed point is a
    /// representation guard: for a scene within the coordinate limits the
    /// point of a genuine hit stays far inside it.
    pub open spec fn tri_hit(self, ray: Ray, j: Vec3) -> Option<Ray> {
        let n = self.normal;
        let den = dot_s(n, ray.dir);
        if den >= 0 {
            Option::None
        } else {
            let num = dot_s(sub_s(self.a, ray.origin), n);
            let t = fdiv_s(num, den);
            if t <= 0 {
                Option::None
            } else {
                let p = add_s(
                    ray.origin,
                    Vec3 {
                        x: muldiv_s(num, ray.dir.x as int, den) as i128,
                        y: muldiv_s(num, ray.dir.y as int, den) as i128,
                        z: muldiv_s(num, ray.dir.z as int, den) as i128,
                    },
                );
                if !bounded(p, PLIM as int - SCALE as int) {
                    Option::None
                } else {
                    let left_of_a_b = dot_s(n, cross_s(sub_s(self.b, self.a), sub_s(p, self.a)))
                        >= 0;
                    let left_of_b_c = dot_s(n, cross_s(sub_s(self.c, self.b), sub_s(p, self.b)))
                        >= 0;
                    let left_of_c_a = dot_s(n, cross_s(sub_s(self.a, self.c), sub_s(p, self.c)))
                        >= 0;
                    if left_of_a_b && left_of_b_c && left_of_c_a {
                        Option::Some(Ray::new_s(add_s(p, scale_s(100, n)), norm_s(add_s(n, j))))
                    } else {
                        Option::None
                    }
                }
            }
        }
    }

    /// The deterministic intersection: everything of `tri_hit` with the
    /// jitter handed in by the caller.
    #[verifier::rlimit(100)]
    pub fn hit_with(&self, ray: Ray, j: Vec3) -> (r: Option<Ray>)
        requires
            self.tri_wf(),
            ray.wf(),
            bounded(j, SCALE as int),
        ensures
            r == self.tri_hit(ray, j),
            r matches Option::Some(h) ==> h.wf(),
    {
        let n = self.normal;
        proof {
            lemma_unit_dot_bound(n, ray.dir);
        }
        let den = n.dot(ray.dir);
        if den >= 0 {
            return None;
        }
        let ao = self.a.sub(ray.origin);
        proof {
            assert(1_001_000_000_000 * (DIRLIM as int) <= (SCALE as int) * 3_003_000_000_000)
                by (nonlinear_arith);
            lemma_dot_s_bound_lin(ao, n, 1_001_000_000_000, DIRLIM as int, 3_003_000_000_000);
        }
        let num = ao.dot(n);
        let t = fdiv(num, den);
        if t <= 0 {
            return None;
        }
        let ox = muldiv(num, ray.dir.x, den);
        let oy = muldiv(num, ray.dir.y, den);
        let oz = muldiv(num, ray.dir.z, den);
        proof {
            assert(-27_100_000_000_000_000_000 <= (num as int) * (ray.dir.x as int)
                <= 27_100_000_000_000_000_000) by (nonlinear_arith)
                requires
                    -9_009_000_000_000 <= num as int <= 9_009_000_000_000,
                    -3_000_000 <= ray.dir.x as int <= 3_000_000,
            ;
            assert(-27_100_000_000_000_000_000 <= (num as int) * (ray.dir.y as int)
                <= 27_100_000_000_000_000_000) by (nonlinear_arith)
                requires
                    -9_009_000_000_000 <= num as int <= 9_009_000_000_000,
                    -3_000_000 <= ray.dir.y as int <= 3_000_000,
            ;
            assert(-27_100_000_000_000_000_000 <= (num as int) * (ray.dir.z as int)
                <= 27_100_000_000_000_000_000) by (nonlinear_arith)
                requires
                    -9_009_000_000_000 <= num as int <= 9_009_000_000_000,
                    -3_000_000 <= ray.dir.z as int <= 3_000_000,
            ;
        }
        let p = Vec3::new(ray.origin.x + ox, ray.origin.y + oy, ray.origin.z + oz);
        if !p.check_bounded(PLIM - SCALE) {
            return None;
        }
        proof {
            assert(2_000_000_000 * 1_002_000_000_000 <= (SCALE as int) * 2_004_000_000_000_000)
                by (nonlinear_arith);
            lemma_cross_s_bound_lin(sub_s(self.b, self.a), sub_s(p, self.a), 2_000_000_000, 1_002_000_000_000, 2_004_000_000_000_000);
            lemma_cross_s_bound_lin(sub_s(self.c, self.b), sub_s(p, self.b), 2_000_000_000, 1_002_000_000_000, 2_004_000_000_000_000);
            lemma_cross_s_bound_lin(sub_s(self.a, self.c), sub_s(p, self.c), 2_000_000_000, 1_002_000_000_000, 2_004_000_000_000_000);
        }
        let left_of_a_b = n.dot(self.b.sub(self.a).cross(p.sub(self.a))) >= 0;
        let left_of_b_c = n.dot(self.c.sub(self.b).cross(p.sub(self.b))) >= 0;
        let left_of_c_a = n.dot(self.a.sub(self.c).cross(p.sub(self.c))) >= 0;
        if left_of_a_b && left_of_b_c && left_of_c_a {
            proof {
                assert(100 * (DIRLIM as int) <= (SCALE as int) * 300) by (nonlinear_arith);
                lemma_fmul_s_bound_lin(100, n.x as int, 100, DIRLIM as int, 300);
                lemma_fmul_s_bound_lin(100, n.y as int, 100, DIRLIM as int, 300);
                lemma_fmul_s_bound_lin(100, n.z as int, 100, DIRLIM as int, 300);
            }
            let horigin = p.add(n.scale(100));
            let jn = n.add(j).normalize();
            Some(Ray::new((horigin.x, horigin.y, horigin.z), (jn.x, jn.y, jn.z)))
        } else {
            None
        }
    }
}

impl Intersect for Triangle {
    open spec fn wf(&self) -> bool {
        self.tri_wf()
    }

    open spec fn hit_model(&self, ray: Ray) -> Option<Ray> {
        self.tri_hit(ray, zero_v())
    }

    /// The returned hit is the model hit for some jitter of at most six
    /// tenths of a unit per component.
    open spec fn dir_ok(&self, ray: Ray, h: Ray) -> bool {
        exists|j: Vec3| bounded(j, 600_000) && Option::Some(h) == #[trigger] self.tri_hit(ray, j)
    }

    open spec fn bounds_model(&self) -> AABBox {
        AABBox {
            min: Vec3 {
                x: crate::geometry::smin(
                    crate::geometry::smin(self.a.x as int, self.b.x as int),
                    self.c.x as int,
                ) as i128,
                y: crate::geometry::smin(
                    crate::geometry::smin(self.a.y as int, self.b.y as int),
                    self.c.y as int,
                ) as i128,
                z: crate::geometry::smin(
                    crate::geometry::smin(self.a.z as int, self.b.z as int),
                    self.c.z as int,
                ) as i128,
            },
            max: Vec3 {
                x: crate::geometry::smax(
                    crate::geometry::smax(self.a.x as int, self.b.x as int),
                    self.c.x as int,
                ) as i128,
                y: crate::geometry::smax(
                    crate::geometry::smax(self.a.y as int, self.b.y as int),
                    self.c.y as int,
                ) as i128,
                z: crate::geometry::smax(
                    crate::geometry::smax(self.a.z as int, self.b.z as int),
                    self.c.z as int,
                ) as i128,
            },
        }
    }

    fn intersect(&self, ray: Ray) -> (r: Option<Ray>) {
        let v0 = Vec3::new(rand_micro() - 500_000, rand_micro() - 500_000, rand_micro() - 500_000);
        proof {
            assert(1_200_000 * 500_000 <= (SCALE as int) * 600_000) by (nonlinear_arith);
            lemma_fmul_s_bound_lin(1_200_000, v0.x as int, 1_200_000, 500_000, 600_000);
            lemma_fmul_s_bound_lin(1_200_000, v0.y as int, 1_200_000, 500_000, 600_000);
            lemma_fmul_s_bound_lin(1_200_000, v0.z as int, 1_200_000, 500_000, 600_000);
        }
        let j = v0.scale(1_200_000);
        let r = self.hit_with(ray, j);
        proof {
            lemma_tri_jitter_shape(*self, ray, j);
            if r is Some {
                assert(bounded(j, 600_000) && Option::Some(r->Some_0) == self.tri_hit(ray, j));
            }
        }
        r
    }

    fn bounds(&self) -> (r: AABBox) {
        AABBox {
            min: Vec3::new(
                min3(self.a.x, self.b.x, self.c.x),
                min3(self.a.y, self.b.y, self.c.y),
                min3(self.a.z, self.b.z, self.c.z),
            ),
            max: Vec3::new(
                max3(self.a.x, self.b.x, self.c.x),
                max3(self.a.y, self.b.y, self.c.y),
                max3(self.a.z, self.b.z, self.c.z),
            ),
        }
    }
}

fn min3(a: i128, b: i128, c: i128) -> (r: i128)
    ensures
        r as int == crate::geometry::smin(crate::geometry::smin(a as int, b as int), c as int),
{
    let ab = if a <= b { a } else { b };
    if ab <= c { ab } else { c }
}

fn max3(a: i128, b: i128, c: i128) -> (r: i128)
    ensures
        r as int == crate::geometry::smax(crate::geometry::smax(a as int, b as int), c as int),
{
    let ab = if a >= b { a } else { b };
    if ab >= c { ab } else { c }
}

/// The jitter moves only the returned direction: hit/no-hit and the hit
/// point agree with the unjittered model.
proof fn lemma_tri_jitter_shape(t: Triangle, ray: Ray, j: Vec3)
    ensures
        t.tri_hit(ray, j) is Some == t.tri_hit(ray, zero_v()) is Some,
        t.tri_hit(ray, j) matches Some(h) ==> t.tri_hit(ray, zero_v()) matches Some(h0)
            && h.origin == h0.origin,
{
}

/// Reversing the order of the last two vertices negates the face normal,
/// exactly: that swap only exchanges the operands of the cross product.
/// The other two transpositions recompute the cross product from different
/// edge vectors, whose truncated products may differ by a micro-unit, so
/// for them the negation holds only up to that rounding and is not stated.
pub proof fn lemma_swap_negates_normal(a: Vec3, b: Vec3, c: Vec3)
    requires
        bounded(a, CLIM as int),
        bounded(b, CLIM as int),
        bounded(c, CLIM as int),
    ensures
        Triangle::normal_s(a, c, b) == neg_s(Triangle::normal_s(a, b, c)),
{
    let u = sub_s(b, a);
    let v = sub_s(c, a);
    lemma_cross_antisym(u, v);
    assert(2_000_000_000 * 2_000_000_000 <= (SCALE as int) * 4_000_000_000_000)
        by (nonlinear_arith);
    lemma_cross_s_bound_lin(u, v, 2_000_000_000, 2_000_000_000, 4_000_000_000_000);
    lemma_norm_neg(cross_s(u, v));
}

/// Back-face culling: a ray whose direction points with the triangle's
/// normal never registers a hit, whatever the jitter.
pub proof fn lemma_backface_culled(t: Triangle, ray: Ray, j: Vec3)
    requires
        dot_s(t.normal, ray.dir) > 0,
    ensures
        t.tri_hit(ray, j) is None,
{
}

} // verus!
