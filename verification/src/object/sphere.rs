//! Sphere primitive.

use vstd::prelude::*;
use crate::num::{
    SCALE, iabs, fmul_s, half_s, sqrt_s, fmul, half, fsqrt, divi, lemma_fmul_s_bound_lin,
    lemma_sqrt_le,
};
use crate::vec3::{
    Vec3, bounded, sub_s, add_s, scale_s, dot_s, ls_s, norm_s, recip_s, zero_v, CLIM, DIRLIM,
    PLIM, lemma_dot_s_bound_lin, lemma_fmul_s_sq_nonneg,
};
use crate::geometry::{Ray, AABBox, Intersect, hit_matches};
use crate::rng::rand_micro;

verus! {

#[derive(Clone, Copy, Debug, PartialEq, Eq, Structural)]
pub struct Sphere {
    pub center: Vec3,
    pub radius: i128,
}

/// Every light sphere of a list is well-formed.
pub open spec fn lights_ok(ls: Seq<Sphere>) -> bool {
    forall|i: int| 0 <= i < ls.len() ==> (#[trigger] ls[i]).sphere_wf()
}

impl Sphere {
    /// The radius floor of one milli-unit is a machine limit of the
    /// fixed-point grid: below it the truncated square of the radius
    /// vanishes from the discriminant and the sphere is lost.
    pub open spec fn sphere_wf(self) -> bool {
        bounded(self.center, CLIM as int) && 1000 <= self.radius <= CLIM
    }

    pub fn new(center: (i128, i128, i128), radius: i128) -> (r: Sphere)
        requires
            iabs(center.0 as int) <= CLIM as int,
            iabs(center.1 as int) <= CLIM as int,
            iabs(center.2 as int) <= CLIM as int,
            1000 <= radius <= CLIM,
        ensures
            r == (Sphere { center: Vec3 { x: center.0, y: center.1, z: center.2 }, radius }),
            r.sphere_wf(),
    {
        Sphere { center: Vec3::new(center.0, center.1, center.2), radius }
    }

    /// Discriminant of the ray/sphere quadratic
    /// `t^2 - 2 t (dir . (origin - center)) + |origin - center|^2 - r^2`.
    pub open spec fn delta_s(self, ray: Ray) -> int {
        let oc = sub_s(ray.origin, self.center);
        let p = -2 * dot_s(ray.dir, oc);
        fmul_s(p, p) - 4 * (ls_s(oc) - fmul_s(self.radius as int, self.radius as int))
    }

    /// The hit model, with the normal jitter `j` as an explicit argument.
    /// No real root of the quadratic, both roots behind the origin, or a hit
    /// point outside the representable range mean no hit; otherwise the hit
    /// stands on the chosen root — the one non-negative root if exactly one
    /// is non-negative, else the smaller — offset slightly along the
    /// outward normal, and the returned direction is the normal perturbed
    /// by `j` and renormalized. The range test on the computed point is a
    /// representation guard: for a scene within the coordinate limits the
    /// point of a genuine hit stays far inside it.
    pub open spec fn sphere_hit(self, ray: Ray, j: Vec3) -> Option<Ray> {
        let oc = sub_s(ray.origin, self.center);
        let delta = self.delta_s(ray);
        if delta <= 0 {
            Option::None
        } else {
            let p = -2 * dot_s(ray.dir, oc);
            let q = sqrt_s(delta * SCALE);
            let d1 = half_s(p + q);
            let d2 = half_s(p - q);
            if d1 < 0 && d2 < 0 {
                Option::None
            } else {
                let d = if d1 >= 0 && d2 < 0 {
                    d1
                } else if d1 < 0 && d2 >= 0 {
                    d2
                } else if d1 <= d2 {
                    d1
                } else {
                    d2
                };
                let point = add_s(ray.origin, scale_s(d, ray.dir));
                if !bounded(point, PLIM as int - SCALE as int) {
                    Option::None
                } else {
                    let normal = norm_s(sub_s(point, self.center));
                    let horigin = add_s(point, scale_s(1000, normal));
                    Option::Some(Ray::new_s(horigin, norm_s(add_s(normal, j))))
                }
            }
        }
    }

    /// The deterministic intersection: everything of `sphere_hit` with the
    /// jitter handed in by the caller.
    #[verifier::rlimit(100)]
    pub fn hit_with(&self, ray: Ray, j: Vec3) -> (r: Option<Ray>)
        requires
            self.sphere_wf(),
            ray.wf(),
            bounded(j, SCALE as int),
        ensures
            r == self.sphere_hit(ray, j),
            r matches Option::Some(h) ==> h.wf(),
    {
        let oc = ray.origin.sub(self.center);
        proof {
            assert((DIRLIM as int) * 1_001_000_000_000 <= (SCALE as int) * 3_003_000_000_000)
                by (nonlinear_arith);
            lemma_dot_s_bound_lin(ray.dir, oc, DIRLIM as int, 1_001_000_000_000, 3_003_000_000_000);
            assert(1_001_000_000_000 * 1_001_000_000_000 <= (SCALE as int)
                * 1_002_001_000_000_000_000) by (nonlinear_arith);
            lemma_dot_s_bound_lin(oc, oc, 1_001_000_000_000, 1_001_000_000_000, 1_002_001_000_000_000_000);
            assert((CLIM as int) * (CLIM as int) <= (SCALE as int) * 1_000_000_000_000)
                by (nonlinear_arith);
            lemma_fmul_s_bound_lin(self.radius as int, self.radius as int, CLIM as int, CLIM as int, 1_000_000_000_000);
            lemma_fmul_s_sq_nonneg(self.radius as int);
        }
        let b0 = ray.dir.dot(oc);
        let p: i128 = -(2 * b0);
        let ls_oc = oc.length_squared();
        let r2 = fmul(self.radius, self.radius);
        proof {
            assert(19_000_000_000_000 * 19_000_000_000_000 <= (SCALE as int)
                * 361_000_000_000_000_000_000) by (nonlinear_arith);
            lemma_fmul_s_bound_lin(p as int, p as int, 19_000_000_000_000, 19_000_000_000_000, 361_000_000_000_000_000_000);
        }
        let pp = fmul(p, p);
        let delta = pp - 4 * (ls_oc - r2);
        if delta <= 0 {
            return None;
        }
        let q = fsqrt(delta);
        proof {
            assert(delta * (SCALE as int) <= 20_000_000_000_000 * 20_000_000_000_000)
                by (nonlinear_arith)
                requires
                    0 < delta <= 380_000_000_000_000_000_000,
                    SCALE == 1_000_000i128,
            ;
            assert(delta * (SCALE as int) >= 0) by (nonlinear_arith)
                requires
                    delta > 0,
                    SCALE == 1_000_000i128,
            ;
            lemma_sqrt_le(delta * SCALE, 20_000_000_000_000);
        }
        let d1 = half(p + q);
        let d2 = half(p - q);
        if d1 < 0 && d2 < 0 {
            return None;
        }
        let d = if d1 >= 0 && d2 < 0 {
            d1
        } else if d1 < 0 && d2 >= 0 {
            d2
        } else if d1 <= d2 {
            d1
        } else {
            d2
        };
        proof {
            assert(40_000_000_000_000 * (DIRLIM as int) <= (SCALE as int) * 120_000_000_000_000)
                by (nonlinear_arith);
            lemma_fmul_s_bound_lin(d as int, ray.dir.x as int, 40_000_000_000_000, DIRLIM as int, 120_000_000_000_000);
            lemma_fmul_s_bound_lin(d as int, ray.dir.y as int, 40_000_000_000_000, DIRLIM as int, 120_000_000_000_000);
            lemma_fmul_s_bound_lin(d as int, ray.dir.z as int, 40_000_000_000_000, DIRLIM as int, 120_000_000_000_000);
        }
        let point = ray.origin.add(ray.dir.scale(d));
        if !point.check_bounded(PLIM - SCALE) {
            return None;
        }
        let normal = point.sub(self.center).normalize();
        let horigin = point.add(normal.scale(1000));
        proof {
            assert(1000 * (DIRLIM as int) <= (SCALE as int) * 3000) by (nonlinear_arith);
            lemma_fmul_s_bound_lin(1000, normal.x as int, 1000, DIRLIM as int, 3000);
            lemma_fmul_s_bound_lin(1000, normal.y as int, 1000, DIRLIM as int, 3000);
            lemma_fmul_s_bound_lin(1000, normal.z as int, 1000, DIRLIM as int, 3000);
        }
        let jn = normal.add(j).normalize();
        Some(Ray::new((horigin.x, horigin.y, horigin.z), (jn.x, jn.y, jn.z)))
    }
}

impl Intersect for Sphere {
    open spec fn wf(&self) -> bool {
        self.sphere_wf()
    }

    open spec fn hit_model(&self, ray: Ray) -> Option<Ray> {
        self.sphere_hit(ray, zero_v())
    }

    /// The returned hit is the model hit for some jitter of at most
    /// a thirty-second of a unit per component.
    open spec fn dir_ok(&self, ray: Ray, h: Ray) -> bool {
        exists|j: Vec3|
            bounded(j, 31_250) && Option::Some(h) == #[trigger] self.sphere_hit(ray, j)
    }

    open spec fn bounds_model(&self) -> AABBox {
        AABBox {
            min: Vec3 {
                x: (self.center.x - self.radius) as i128,
                y: (self.center.y - self.radius) as i128,
                z: (self.center.z - self.radius) as i128,
            },
            max: Vec3 {
                x: (self.center.x + self.radius) as i128,
                y: (self.center.y + self.radius) as i128,
                z: (self.center.z + self.radius) as i128,
            },
        }
    }

    fn intersect(&self, ray: Ray) -> (r: Option<Ray>) {
        let rx = rand_micro() - 500_000;
        let ry = rand_micro() - 500_000;
        let rz = rand_micro() - 500_000;
        let jx = divi(rx, 16);
        let jy = divi(ry, 16);
        let jz = divi(rz, 16);
        proof {
            lemma_sixteenth_bound(rx as int);
            lemma_sixteenth_bound(ry as int);
            lemma_sixteenth_bound(rz as int);
        }
        let j = Vec3::new(jx, jy, jz);
        let r = self.hit_with(ray, j);
        proof {
            lemma_sphere_jitter_shape(*self, ray, j);
            if r is Some {
                assert(bounded(j, 31_250) && Option::Some(r->Some_0) == self.sphere_hit(ray, j));
            }
        }
        r
    }

    fn bounds(&self) -> (r: AABBox) {
        AABBox {
            min: Vec3::new(
                self.center.x - self.radius,
                self.center.y - self.radius,
                self.center.z - self.radius,
            ),
            max: Vec3::new(
                self.center.x + self.radius,
                self.center.y + self.radius,
                self.center.z + self.radius,
            ),
        }
    }
}

/// A half-unit offset shrinks to a thirty-second of a unit when divided
/// by sixteen.
proof fn lemma_sixteenth_bound(a: int)
    requires
        iabs(a) <= 500_000,
    ensures
        iabs(crate::num::tdiv(a, 16)) <= 31_250,
{
    assert(iabs(crate::num::tdiv(a, 16)) == iabs(a) / 16);
    vstd::arithmetic::div_mod::lemma_div_is_ordered(iabs(a), 500_000, 16);
    vstd::arithmetic::div_mod::lemma_div_multiples_vanish(31_250, 16);
}

/// The jitter moves only the returned direction: hit/no-hit and the hit
/// point agree with the unjittered model.
proof fn lemma_sphere_jitter_shape(s: Sphere, ray: Ray, j: Vec3)
    ensures
        s.sphere_hit(ray, j) is Some == s.sphere_hit(ray, zero_v()) is Some,
        s.sphere_hit(ray, j) matches Some(h) ==> s.sphere_hit(ray, zero_v()) matches Some(h0)
            && h.origin == h0.origin,
{
}

} // verus!
