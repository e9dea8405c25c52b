//! Rays, axis-aligned bounding boxes and the intersection capability.

use vstd::prelude::*;
use vstd::assert_seqs_equal;
use crate::num::{SCALE, iabs, fmul_s, fmul, half, lemma_fmul_s_bound_lin};
use crate::vec3::{
    Vec3, bounded, add_s, sub_s, neg_s, scale_s, dot_s, norm_s, recip_s, CLIM, DIRLIM, PLIM, BLIM,
    NLIM, lemma_unit_dot_bound,
};

verus! {

/// Sentinel standing in for an unbounded parametric window in the slab test;
/// larger than any distance the slab arithmetic can produce.
pub const TBIG: i128 = 2_000_000_000_000_000_000;

/// A ray: origin, normalized direction, and the cached component
/// reciprocals of the direction used by the slab test.
#[derive(Clone, Copy, Debug, PartialEq, Eq, Structural)]
pub struct Ray {
    pub origin: Vec3,
    pub dir: Vec3,
    /// direction reciprocal
    pub dir_recip: Vec3,
}

/// Axis-aligned bounding box defined by min and max points
#[derive(Clone, Copy, Debug, PartialEq, Eq, Structural)]
pub struct AABBox {
    pub min: Vec3,
    pub max: Vec3,
}

/// What a faithful intersection result must share with its model: same
/// hit/no-hit decision, the same hit point, and a well-formed hit ray.  The
/// model leaves the returned direction open, because the primitives jitter
/// it with a random offset.
pub open spec fn hit_matches(r: Option<Ray>, m: Option<Ray>) -> bool {
    match (r, m) {
        (Option::None, Option::None) => true,
        (Option::Some(h), Option::Some(hm)) => h.origin == hm.origin && h.wf(),
        _ => false,
    }
}

/// The intersection capability shared by primitives, boxes and the spatial
/// partitioners: intersecting returns the surface hit as a ray (hit point as
/// origin, outward surface normal as direction), and everything reports an
/// enclosing bounding box.
pub trait Intersect: Sized {
    /// Validity of the object's own data.
    spec fn wf(&self) -> bool;

    /// The deterministic part of the intersection: hit/no-hit and the hit
    /// point; the direction of the model hit is the unjittered normal.
    spec fn hit_model(&self, ray: Ray) -> Option<Ray>;

    /// The box `bounds` reports.
    spec fn bounds_model(&self) -> AABBox;

    /// What the returned hit's direction may be: each implementor pins the
    /// range of its own random normal jitter here (a box returns the ray
    /// unchanged, the structures inherit their members' law).
    spec fn dir_ok(&self, ray: Ray, h: Ray) -> bool;

    /// if it intersects, return the normal at the intersection point
    fn intersect(&self, ray: Ray) -> (r: Option<Ray>)
        requires
            self.wf(),
            ray.wf(),
        ensures
            hit_matches(r, self.hit_model(ray)),
            r matches Option::Some(h) ==> self.dir_ok(ray, h),
    ;

    fn bounds(&self) -> (r: AABBox)
        requires
            self.wf(),
        ensures
            r == self.bounds_model(),
            r.wf(),
    ;
}

impl Ray {
    pub open spec fn wf(self) -> bool {
        &&& bounded(self.origin, PLIM as int)
        &&& bounded(self.dir, DIRLIM as int)
        &&& self.dir_recip == recip_s(self.dir)
    }

    /// Model of `new`: the direction is normalized, the reciprocals cached.
    pub open spec fn new_s(origin: Vec3, dir: Vec3) -> Ray {
        let d = norm_s(dir);
        Ray { origin, dir: d, dir_recip: recip_s(d) }
    }

    pub fn new(origin: (i128, i128, i128), dir: (i128, i128, i128)) -> (r: Ray)
        requires
            iabs(origin.0 as int) <= PLIM as int,
            iabs(origin.1 as int) <= PLIM as int,
            iabs(origin.2 as int) <= PLIM as int,
            iabs(dir.0 as int) <= NLIM as int,
            iabs(dir.1 as int) <= NLIM as int,
            iabs(dir.2 as int) <= NLIM as int,
        ensures
            r == Ray::new_s(
                Vec3 { x: origin.0, y: origin.1, z: origin.2 },
                Vec3 { x: dir.0, y: dir.1, z: dir.2 },
            ),
            r.wf(),
    {
        let d = Vec3::new(dir.0, dir.1, dir.2).normalize();
        Ray { origin: Vec3::new(origin.0, origin.1, origin.2), dir: d, dir_recip: d.comp_recip() }
    }

    pub fn from_to(origin: (i128, i128, i128), to: (i128, i128, i128)) -> (r: Ray)
        requires
            iabs(origin.0 as int) <= CLIM as int,
            iabs(origin.1 as int) <= CLIM as int,
            iabs(origin.2 as int) <= CLIM as int,
            iabs(to.0 as int) <= CLIM as int,
            iabs(to.1 as int) <= CLIM as int,
            iabs(to.2 as int) <= CLIM as int,
        ensures
            r == Ray::new_s(
                Vec3 { x: origin.0, y: origin.1, z: origin.2 },
                sub_s(
                    Vec3 { x: to.0, y: to.1, z: to.2 },
                    Vec3 { x: origin.0, y: origin.1, z: origin.2 },
                ),
            ),
            r.wf(),
    {
        let o = Vec3::new(origin.0, origin.1, origin.2);
        let d = Vec3::new(to.0, to.1, to.2).sub(o).normalize();
        Ray { origin: o, dir: d, dir_recip: d.comp_recip() }
    }

    /// Model of `reflect`: mirror the incoming direction about the surface
    /// normal and renormalize; the reflected ray starts at the hit point.
    pub open spec fn reflect_s(self, normal: Ray) -> Ray {
        let d = norm_s(
            add_s(scale_s(2 * dot_s(normal.dir, neg_s(self.dir)), normal.dir), self.dir),
        );
        Ray { origin: normal.origin, dir: d, dir_recip: recip_s(d) }
    }

    pub fn reflect(&self, normal: Ray) -> (r: Ray)
        requires
            self.wf(),
            normal.wf(),
        ensures
            r == self.reflect_s(normal),
            r.wf(),
    {
        proof {
            lemma_unit_dot_bound(normal.dir, neg_s(self.dir));
        }
        let d = normal.dir.dot(self.dir.neg());
        let k: i128 = 2 * d;
        proof {
            assert(54_000_000 * (DIRLIM as int) <= (SCALE as int) * 162_000_000)
                by (nonlinear_arith);
            lemma_fmul_s_bound_lin(k as int, normal.dir.x as int, 54_000_000, DIRLIM as int, 162_000_000);
            lemma_fmul_s_bound_lin(k as int, normal.dir.y as int, 54_000_000, DIRLIM as int, 162_000_000);
            lemma_fmul_s_bound_lin(k as int, normal.dir.z as int, 54_000_000, DIRLIM as int, 162_000_000);
        }
        let dir = normal.dir.scale(k).add(self.dir).normalize();
        Ray { origin: normal.origin, dir, dir_recip: dir.comp_recip() }
    }
}

pub open spec fn smin(a: int, b: int) -> int {
    if a <= b { a } else { b }
}

pub open spec fn smax(a: int, b: int) -> int {
    if a >= b { a } else { b }
}

/// One axis of the slab test: tighten the running parametric window by the
/// entry and exit distances of this axis' slab pair; an axis whose direction
/// component `d` is zero is skipped.
pub open spec fn slab_axis(lo: int, hi: int, o: int, d: int, rc: int, tw: (int, int)) -> (
    int,
    int,
) {
    if d == 0 {
        tw
    } else {
        let t1 = fmul_s(lo - o, rc);
        let t2 = fmul_s(hi - o, rc);
        (smax(tw.0, smin(t1, t2)), smin(tw.1, smax(t1, t2)))
    }
}

impl AABBox {
    /// min below max on every axis, corners within the partitioners' range.
    pub open spec fn wf(self) -> bool {
        &&& self.min.x <= self.max.x
        &&& self.min.y <= self.max.y
        &&& self.min.z <= self.max.z
        &&& bounded(self.min, BLIM as int)
        &&& bounded(self.max, BLIM as int)
    }

    /// Model of `new`: componentwise minima and maxima of the two corners.
    pub open spec fn new_s(a: Vec3, b: Vec3) -> AABBox {
        AABBox {
            min: Vec3 {
                x: smin(a.x as int, b.x as int) as i128,
                y: smin(a.y as int, b.y as int) as i128,
                z: smin(a.z as int, b.z as int) as i128,
            },
            max: Vec3 {
                x: smax(a.x as int, b.x as int) as i128,
                y: smax(a.y as int, b.y as int) as i128,
                z: smax(a.z as int, b.z as int) as i128,
            },
        }
    }

    pub fn new(a: Vec3, b: Vec3) -> (r: AABBox)
        requires
            bounded(a, BLIM as int),
            bounded(b, BLIM as int),
        ensures
            r == AABBox::new_s(a, b),
            r.wf(),
    {
        AABBox { min: a.comp_min(b), max: a.comp_max(b) }
    }

    /// Model of `merge`: the smallest box holding both.
    pub open spec fn merge_s(self, o: AABBox) -> AABBox {
        AABBox {
            min: Vec3 {
                x: smin(self.min.x as int, o.min.x as int) as i128,
                y: smin(self.min.y as int, o.min.y as int) as i128,
                z: smin(self.min.z as int, o.min.z as int) as i128,
            },
            max: Vec3 {
                x: smax(self.max.x as int, o.max.x as int) as i128,
                y: smax(self.max.y as int, o.max.y as int) as i128,
                z: smax(self.max.z as int, o.max.z as int) as i128,
            },
        }
    }

    pub fn merge(&self, o: &AABBox) -> (r: AABBox)
        requires
            self.wf(),
            o.wf(),
        ensures
            r == self.merge_s(*o),
            r.wf(),
    {
        AABBox { min: self.min.comp_min(o.min), max: self.max.comp_max(o.max) }
    }

    /// The box center, each axis rounded down.
    pub open spec fn mid_s(self) -> Vec3 {
        Vec3 {
            x: (self.min.x + (self.max.x - self.min.x) / 2) as i128,
            y: (self.min.y + (self.max.y - self.min.y) / 2) as i128,
            z: (self.min.z + (self.max.z - self.min.z) / 2) as i128,
        }
    }

    /// Model of `octants`, in the fixed order the octree relies on.
    pub open spec fn octants_s(self) -> Seq<AABBox> {
        let middle = self.mid_s();
        seq![
            AABBox::new_s(self.min, middle),
            AABBox::new_s(Vec3 { x: self.max.x, y: self.min.y, z: self.min.z }, middle),
            AABBox::new_s(Vec3 { x: self.min.x, y: self.max.y, z: self.min.z }, middle),
            AABBox::new_s(Vec3 { x: self.min.x, y: self.min.y, z: self.max.z }, middle),
            AABBox::new_s(self.max, middle),
            AABBox::new_s(Vec3 { x: self.min.x, y: self.max.y, z: self.max.z }, middle),
            AABBox::new_s(Vec3 { x: self.max.x, y: self.min.y, z: self.max.z }, middle),
            AABBox::new_s(Vec3 { x: self.max.x, y: self.max.y, z: self.min.z }, middle),
        ]
    }

    /// The 8 half-extent children sharing the box's center.
    pub fn octants(&self) -> (r: Vec<AABBox>)
        requires
            self.wf(),
        ensures
            r@ == self.octants_s(),
            r@.len() == 8,
            forall|i: int| 0 <= i < 8 ==> (#[trigger] r@[i]).wf(),
    {
        let half_x = half(self.max.x - self.min.x);
        let half_y = half(self.max.y - self.min.y);
        let half_z = half(self.max.z - self.min.z);
        let middle = Vec3::new(self.min.x + half_x, self.min.y + half_y, self.min.z + half_z);
        assert(middle == self.mid_s());
        let mut v: Vec<AABBox> = Vec::new();
        v.push(AABBox::new(self.min, middle));
        v.push(AABBox::new(Vec3::new(self.max.x, self.min.y, self.min.z), middle));
        v.push(AABBox::new(Vec3::new(self.min.x, self.max.y, self.min.z), middle));
        v.push(AABBox::new(Vec3::new(self.min.x, self.min.y, self.max.z), middle));
        v.push(AABBox::new(self.max, middle));
        v.push(AABBox::new(Vec3::new(self.min.x, self.max.y, self.max.z), middle));
        v.push(AABBox::new(Vec3::new(self.max.x, self.min.y, self.max.z), middle));
        v.push(AABBox::new(Vec3::new(self.max.x, self.max.y, self.min.z), middle));
        proof {
            assert_seqs_equal!(v@, self.octants_s());
        }
        v
    }

    /// Per-axis closed-interval overlap; touching boxes count as overlapping.
    pub open spec fn overlaps(self, o: AABBox) -> bool {
        &&& !(o.min.x > self.max.x || self.min.x > o.max.x)
        &&& !(o.min.y > self.max.y || self.min.y > o.max.y)
        &&& !(o.min.z > self.max.z || self.min.z > o.max.z)
    }

    pub fn intersect_other(&self, other: &AABBox) -> (r: bool)
        ensures
            r == self.overlaps(*other),
    {
        !(other.min.x > self.max.x || self.min.x > other.max.x) && !(other.min.y > self.max.y
            || self.min.y > other.max.y) && !(other.min.z > self.max.z || self.min.z
            > other.max.z)
    }

    /// `other` lies entirely inside `self`: every corner of `other` is a
    /// point of `self`.
    pub open spec fn contains_box(self, other: AABBox) -> bool {
        &&& self.min.x <= other.min.x && other.max.x <= self.max.x
        &&& self.min.y <= other.min.y && other.max.y <= self.max.y
        &&& self.min.z <= other.min.z && other.max.z <= self.max.z
    }

    /// The slab decision: a hit exists iff the parametric window is still
    /// nonempty after all three axes.
    pub open spec fn slab_hit(self, ray: Ray) -> bool {
        let t0 = (-(TBIG as int), TBIG as int);
        let t1 = slab_axis(
            self.min.x as int,
            self.max.x as int,
            ray.origin.x as int,
            ray.dir.x as int,
            ray.dir_recip.x as int,
            t0,
        );
        let t2 = slab_axis(
            self.min.y as int,
            self.max.y as int,
            ray.origin.y as int,
            ray.dir.y as int,
            ray.dir_recip.y as int,
            t1,
        );
        let t3 = slab_axis(
            self.min.z as int,
            self.max.z as int,
            ray.origin.z as int,
            ray.dir.z as int,
            ray.dir_recip.z as int,
            t2,
        );
        t3.1 >= t3.0
    }
}

/// Entry/exit distances along one axis stay within the sentinel bounds.
proof fn lemma_slab_term_bound(lo: int, o: int, rc: int)
    requires
        iabs(lo) <= BLIM as int,
        iabs(o) <= PLIM as int,
        iabs(rc) <= (SCALE as int) * (SCALE as int),
    ensures
        iabs(fmul_s(lo - o, rc)) < TBIG as int,
{
    assert(((BLIM + PLIM) as int) * ((SCALE as int) * (SCALE as int)) <= (SCALE as int)
        * 1_004_000_000_000_000_000) by (nonlinear_arith);
    lemma_fmul_s_bound_lin(
        lo - o,
        rc,
        (BLIM + PLIM) as int,
        (SCALE as int) * (SCALE as int),
        1_004_000_000_000_000_000,
    );
}

impl Intersect for AABBox {
    open spec fn wf(&self) -> bool {
        AABBox::wf(*self)
    }

    open spec fn hit_model(&self, ray: Ray) -> Option<Ray> {
        if self.slab_hit(ray) {
            Option::Some(ray)
        } else {
            Option::None
        }
    }

    open spec fn bounds_model(&self) -> AABBox {
        *self
    }

    open spec fn dir_ok(&self, ray: Ray, h: Ray) -> bool {
        h == ray
    }

    fn intersect(&self, ray: Ray) -> (r: Option<Ray>) {
        // slab method
        let mut tmin: i128 = -TBIG;
        let mut tmax: i128 = TBIG;

        proof {
            lemma_recip_bound(ray.dir);
        }
        if ray.dir.x != 0 {
            let tx1 = fmul(self.min.x - ray.origin.x, ray.dir_recip.x);
            let tx2 = fmul(self.max.x - ray.origin.x, ray.dir_recip.x);
            proof {
                lemma_slab_term_bound(self.min.x as int, ray.origin.x as int, ray.dir_recip.x as int);
                lemma_slab_term_bound(self.max.x as int, ray.origin.x as int, ray.dir_recip.x as int);
            }
            tmin = if tmin >= smin_e(tx1, tx2) { tmin } else { smin_e(tx1, tx2) };
            tmax = if tmax <= smax_e(tx1, tx2) { tmax } else { smax_e(tx1, tx2) };
        }
        if ray.dir.y != 0 {
            let ty1 = fmul(self.min.y - ray.origin.y, ray.dir_recip.y);
            let ty2 = fmul(self.max.y - ray.origin.y, ray.dir_recip.y);
            proof {
                lemma_slab_term_bound(self.min.y as int, ray.origin.y as int, ray.dir_recip.y as int);
                lemma_slab_term_bound(self.max.y as int, ray.origin.y as int, ray.dir_recip.y as int);
            }
            tmin = if tmin >= smin_e(ty1, ty2) { tmin } else { smin_e(ty1, ty2) };
            tmax = if tmax <= smax_e(ty1, ty2) { tmax } else { smax_e(ty1, ty2) };
        }
        if ray.dir.z != 0 {
            let tz1 = fmul(self.min.z - ray.origin.z, ray.dir_recip.z);
            let tz2 = fmul(self.max.z - ray.origin.z, ray.dir_recip.z);
            proof {
                lemma_slab_term_bound(self.min.z as int, ray.origin.z as int, ray.dir_recip.z as int);
                lemma_slab_term_bound(self.max.z as int, ray.origin.z as int, ray.dir_recip.z as int);
            }
            tmin = if tmin >= smin_e(tz1, tz2) { tmin } else { smin_e(tz1, tz2) };
            tmax = if tmax <= smax_e(tz1, tz2) { tmax } else { smax_e(tz1, tz2) };
        }

        if tmax >= tmin {
            Some(ray)
        } else {
            None
        }
    }

    fn bounds(&self) -> (r: AABBox) {
        *self
    }
}

/// The direction components of a well-formed ray have reciprocals within
/// one over one micro-unit.
proof fn lemma_recip_bound(dir: Vec3)
    ensures
        iabs(recip_s(dir).x as int) <= (SCALE as int) * (SCALE as int),
        iabs(recip_s(dir).y as int) <= (SCALE as int) * (SCALE as int),
        iabs(recip_s(dir).z as int) <= (SCALE as int) * (SCALE as int),
{
    if dir.x != 0 {
        crate::num::lemma_tdiv_le_abs((SCALE as int) * (SCALE as int), dir.x as int);
    }
    if dir.y != 0 {
        crate::num::lemma_tdiv_le_abs((SCALE as int) * (SCALE as int), dir.y as int);
    }
    if dir.z != 0 {
        crate::num::lemma_tdiv_le_abs((SCALE as int) * (SCALE as int), dir.z as int);
    }
}

fn smin_e(a: i128, b: i128) -> (r: i128)
    ensures
        r as int == smin(a as int, b as int),
{
    if a <= b { a } else { b }
}

fn smax_e(a: i128, b: i128) -> (r: i128)
    ensures
        r as int == smax(a as int, b as int),
{
    if a >= b { a } else { b }
}

/// Box overlap is symmetric: `A.intersect_other(B) == B.intersect_other(A)`.
pub proof fn lemma_overlap_symmetric(a: AABBox, b: AABBox)
    ensures
        a.overlaps(b) == b.overlaps(a),
{
}

/// A box that lies entirely inside another overlaps it.
pub proof fn lemma_overlap_of_contained(a: AABBox, b: AABBox)
    requires
        a.wf(),
        b.contains_box(a),
    ensures
        a.overlaps(b),
        b.overlaps(a),
{
}

/// Boxes separated along any single axis do not overlap.
pub proof fn lemma_separated_no_overlap(a: AABBox, b: AABBox)
    requires
        a.max.x < b.min.x || b.max.x < a.min.x || a.max.y < b.min.y || b.max.y < a.min.y
            || a.max.z < b.min.z || b.max.z < a.min.z,
    ensures
        !a.overlaps(b),
        !b.overlaps(a),
{
}

} // verus!
