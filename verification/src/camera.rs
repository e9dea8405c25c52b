//! Camera: precomputes a film plane and converts pixel coordinates into
//! jittered world-space rays.

use vstd::prelude::*;
use crate::num::{SCALE, iabs, tdiv, divi, lemma_fmul_s_bound_lin};
use crate::vec3::{
    Vec3, bounded, add_s, sub_s, scale_s, cross_s, norm_s, CLIM, DIRLIM, lemma_cross_s_bound_lin,
};
use crate::geometry::Ray;
use crate::rng::rand_micro;
use vstd::arithmetic::div_mod::{lemma_div_is_ordered, lemma_div_multiples_vanish};

verus! {

/// Largest accepted tangent of a half field of view.
pub const TANLIM: i128 = 100_000_000;

pub struct Camera {
    pub origin: Vec3,
    pub dir: Vec3,
    pub up: Vec3,
    /// tangent of half the horizontal field-of-view angle
    pub x_fov: i128,
    /// tangent of half the vertical field-of-view angle
    pub y_fov: i128,
    pub sensor_distance: i128,
    pub pixel_lower_left: Vec3,
    pub x_vec: Vec3,
    pub y_vec: Vec3,
}

/// Half of the film plane's vertical edge.
pub open spec fn y_half_s(up: Vec3, y_fov: i128) -> Vec3 {
    scale_s(y_fov as int, norm_s(up))
}

/// Half of the film plane's horizontal edge.
pub open spec fn x_half_s(up: Vec3, dir: Vec3, x_fov: i128) -> Vec3 {
    scale_s(x_fov as int, norm_s(cross_s(up, dir)))
}

pub open spec fn double_s(v: Vec3) -> Vec3 {
    add_s(v, v)
}

impl Camera {
    /// The lower-left corner of the film plane.
    pub open spec fn lower_left_s(self) -> Vec3 {
        sub_s(
            sub_s(
                add_s(self.origin, scale_s(self.sensor_distance as int, self.dir)),
                x_half_s(self.up, self.dir, self.x_fov),
            ),
            y_half_s(self.up, self.y_fov),
        )
    }

    /// Inputs in range and the precomputed film plane tied to them.
    pub open spec fn cam_wf(self) -> bool {
        &&& bounded(self.origin, CLIM as int)
        &&& bounded(self.dir, DIRLIM as int)
        &&& bounded(self.up, CLIM as int)
        &&& iabs(self.x_fov as int) <= TANLIM as int
        &&& iabs(self.y_fov as int) <= TANLIM as int
        &&& 0 <= self.sensor_distance <= CLIM
        &&& self.x_vec == double_s(x_half_s(self.up, self.dir, self.x_fov))
        &&& self.y_vec == double_s(y_half_s(self.up, self.y_fov))
        &&& self.pixel_lower_left == self.lower_left_s()
        &&& bounded(self.x_vec, 1_000_000_000)
        &&& bounded(self.y_vec, 1_000_000_000)
        &&& bounded(self.pixel_lower_left, 5_000_000_000)
    }

    pub fn new(
        origin: Vec3,
        dir: Vec3,
        up: Vec3,
        x_fov: i128,
        y_fov: i128,
        sensor_distance: i128,
    ) -> (r: Camera)
        requires
            bounded(origin, CLIM as int),
            bounded(dir, DIRLIM as int),
            bounded(up, CLIM as int),
            iabs(x_fov as int) <= TANLIM as int,
            iabs(y_fov as int) <= TANLIM as int,
            0 <= sensor_distance <= CLIM,
        ensures
            r == (Camera {
                origin,
                dir,
                up,
                x_fov,
                y_fov,
                sensor_distance,
                pixel_lower_left: r.pixel_lower_left,
                x_vec: r.x_vec,
                y_vec: r.y_vec,
            }),
            r.cam_wf(),
    {
        proof {
            assert((TANLIM as int) * (DIRLIM as int) <= (SCALE as int) * 300_000_000)
                by (nonlinear_arith);
            assert((CLIM as int) * (DIRLIM as int) <= (SCALE as int) * 3_000_000_000)
                by (nonlinear_arith);
        }
        let y_half = up.normalize().scale(y_fov);
        let cv = up.cross(dir);
        proof {
            assert((CLIM as int) * (DIRLIM as int) <= (SCALE as int) * 3_000_000_000)
                by (nonlinear_arith);
            lemma_cross_s_bound_lin(up, dir, CLIM as int, DIRLIM as int, 3_000_000_000);
        }
        let xdir = cv.normalize();
        let x_half = xdir.scale(x_fov);
        proof {
            lemma_fmul_s_bound_lin(y_fov as int, norm_s(up).x as int, TANLIM as int, DIRLIM as int, 300_000_000);
            lemma_fmul_s_bound_lin(y_fov as int, norm_s(up).y as int, TANLIM as int, DIRLIM as int, 300_000_000);
            lemma_fmul_s_bound_lin(y_fov as int, norm_s(up).z as int, TANLIM as int, DIRLIM as int, 300_000_000);
            lemma_fmul_s_bound_lin(x_fov as int, xdir.x as int, TANLIM as int, DIRLIM as int, 300_000_000);
            lemma_fmul_s_bound_lin(x_fov as int, xdir.y as int, TANLIM as int, DIRLIM as int, 300_000_000);
            lemma_fmul_s_bound_lin(x_fov as int, xdir.z as int, TANLIM as int, DIRLIM as int, 300_000_000);
            lemma_fmul_s_bound_lin(sensor_distance as int, dir.x as int, CLIM as int, DIRLIM as int, 3_000_000_000);
            lemma_fmul_s_bound_lin(sensor_distance as int, dir.y as int, CLIM as int, DIRLIM as int, 3_000_000_000);
            lemma_fmul_s_bound_lin(sensor_distance as int, dir.z as int, CLIM as int, DIRLIM as int, 3_000_000_000);
        }
        let lower_left = origin.add(dir.scale(sensor_distance)).sub(x_half).sub(y_half);
        Camera {
            origin,
            dir,
            sensor_distance,
            x_fov,
            y_fov,
            up,
            pixel_lower_left: lower_left,
            x_vec: x_half.add(x_half),
            y_vec: y_half.add(y_half),
        }
    }

    /// Recompute the film plane from the public fields, after a caller has
    /// moved the camera between frames.
    #[verifier::rlimit(100)]
    pub fn recalc(&mut self)
        requires
            bounded(old(self).origin, CLIM as int),
            bounded(old(self).dir, DIRLIM as int),
            bounded(old(self).up, CLIM as int),
            iabs(old(self).x_fov as int) <= TANLIM as int,
            iabs(old(self).y_fov as int) <= TANLIM as int,
            0 <= old(self).sensor_distance <= CLIM,
        ensures
            final(self).origin == old(self).origin,
            final(self).dir == old(self).dir,
            final(self).up == old(self).up,
            final(self).x_fov == old(self).x_fov,
            final(self).y_fov == old(self).y_fov,
            final(self).sensor_distance == old(self).sensor_distance,
            final(self).cam_wf(),
    {
        proof {
            assert((TANLIM as int) * (DIRLIM as int) <= (SCALE as int) * 300_000_000)
                by (nonlinear_arith);
            assert((CLIM as int) * (DIRLIM as int) <= (SCALE as int) * 3_000_000_000)
                by (nonlinear_arith);
        }
        let y_half = self.up.normalize().scale(self.y_fov);
        let cv = self.up.cross(self.dir);
        proof {
            assert((CLIM as int) * (DIRLIM as int) <= (SCALE as int) * 3_000_000_000)
                by (nonlinear_arith);
            lemma_cross_s_bound_lin(self.up, self.dir, CLIM as int, DIRLIM as int, 3_000_000_000);
        }
        let xdir = cv.normalize();
        let x_half = xdir.scale(self.x_fov);
        proof {
            lemma_fmul_s_bound_lin(self.y_fov as int, norm_s(self.up).x as int, TANLIM as int, DIRLIM as int, 300_000_000);
            lemma_fmul_s_bound_lin(self.y_fov as int, norm_s(self.up).y as int, TANLIM as int, DIRLIM as int, 300_000_000);
            lemma_fmul_s_bound_lin(self.y_fov as int, norm_s(self.up).z as int, TANLIM as int, DIRLIM as int, 300_000_000);
            lemma_fmul_s_bound_lin(self.x_fov as int, xdir.x as int, TANLIM as int, DIRLIM as int, 300_000_000);
            lemma_fmul_s_bound_lin(self.x_fov as int, xdir.y as int, TANLIM as int, DIRLIM as int, 300_000_000);
            lemma_fmul_s_bound_lin(self.x_fov as int, xdir.z as int, TANLIM as int, DIRLIM as int, 300_000_000);
            lemma_fmul_s_bound_lin(self.sensor_distance as int, self.dir.x as int, CLIM as int, DIRLIM as int, 3_000_000_000);
            lemma_fmul_s_bound_lin(self.sensor_distance as int, self.dir.y as int, CLIM as int, DIRLIM as int, 3_000_000_000);
            lemma_fmul_s_bound_lin(self.sensor_distance as int, self.dir.z as int, CLIM as int, DIRLIM as int, 3_000_000_000);
        }
        self.y_vec = y_half.add(y_half);
        self.x_vec = x_half.add(x_half);
        self.pixel_lower_left = self.origin.add(self.dir.scale(self.sensor_distance)).sub(
            x_half,
        ).sub(y_half);
    }

    /// The ray of a pixel, given the two jitter samples.
    pub open spec fn ray_s(self, x: int, y: int, x_res: int, y_res: int, jx: int, jy: int) -> Ray {
        let dx = tdiv(x * (SCALE as int) + (jx - 500_000), x_res);
        let dy = tdiv(y * (SCALE as int) + (jy - 500_000), y_res);
        Ray::new_s(
            self.origin,
            sub_s(
                add_s(
                    add_s(self.pixel_lower_left, scale_s(dx, self.x_vec)),
                    scale_s(dy, self.y_vec),
                ),
                self.origin,
            ),
        )
    }

    /// A jittered ray through the given pixel: anti-aliasing adds a uniform
    /// offset of up to half a pixel on each film-plane axis, so each call
    /// yields an independent ray even for the same pixel. A pixel index may
    /// equal the resolution (the film plane's far edge).
    pub fn ray(&self, xy: (usize, usize), res: (usize, usize)) -> (r: Ray)
        requires
            self.cam_wf(),
            1 <= res.0 <= 1_000_000_000,
            1 <= res.1 <= 1_000_000_000,
            xy.0 <= res.0,
            xy.1 <= res.1,
        ensures
            exists|jx: int, jy: int|
                0 <= jx < SCALE as int && 0 <= jy < SCALE as int && r == self.ray_s(
                    xy.0 as int,
                    xy.1 as int,
                    res.0 as int,
                    res.1 as int,
                    jx,
                    jy,
                ),
            r.wf(),
    {
        let jx = rand_micro();
        let jy = rand_micro();
        let nx = (xy.0 as i128) * SCALE + (jx - 500_000);
        let ny = (xy.1 as i128) * SCALE + (jy - 500_000);
        proof {
            lemma_pixel_coord_bound(xy.0 as int, res.0 as int, jx as int);
            lemma_pixel_coord_bound(xy.1 as int, res.1 as int, jy as int);
        }
        let dx = divi(nx, res.0 as i128);
        let dy = divi(ny, res.1 as i128);
        proof {
            assert(2_000_000 * 1_000_000_000 <= (SCALE as int) * 2_000_000_000_000)
                by (nonlinear_arith);
            lemma_fmul_s_bound_lin(dx as int, self.x_vec.x as int, 2_000_000, 1_000_000_000, 2_000_000_000_000);
            lemma_fmul_s_bound_lin(dx as int, self.x_vec.y as int, 2_000_000, 1_000_000_000, 2_000_000_000_000);
            lemma_fmul_s_bound_lin(dx as int, self.x_vec.z as int, 2_000_000, 1_000_000_000, 2_000_000_000_000);
            lemma_fmul_s_bound_lin(dy as int, self.y_vec.x as int, 2_000_000, 1_000_000_000, 2_000_000_000_000);
            lemma_fmul_s_bound_lin(dy as int, self.y_vec.y as int, 2_000_000, 1_000_000_000, 2_000_000_000_000);
            lemma_fmul_s_bound_lin(dy as int, self.y_vec.z as int, 2_000_000, 1_000_000_000, 2_000_000_000_000);
        }
        let dir = self.pixel_lower_left.add(self.x_vec.scale(dx)).add(self.y_vec.scale(dy)).sub(
            self.origin,
        );
        let r = Ray::new(
            (self.origin.x, self.origin.y, self.origin.z),
            (dir.x, dir.y, dir.z),
        );
        proof {
            assert(r == self.ray_s(
                xy.0 as int,
                xy.1 as int,
                res.0 as int,
                res.1 as int,
                jx as int,
                jy as int,
            ));
        }
        r
    }
}

/// A film-plane coordinate (pixel plus jitter over the resolution) stays
/// within twice the unit interval.
proof fn lemma_pixel_coord_bound(x: int, res: int, j: int)
    requires
        0 <= x <= res,
        1 <= res,
        0 <= j < SCALE as int,
    ensures
        iabs(tdiv(x * (SCALE as int) + (j - 500_000), res)) <= 2_000_000,
        iabs(x * (SCALE as int) + (j - 500_000)) <= res * 2_000_000,
{
    let n = x * (SCALE as int) + (j - 500_000);
    assert(iabs(n) <= res * 2_000_000) by (nonlinear_arith)
        requires
            0 <= x <= res,
            1 <= res,
            0 <= j < 1_000_000,
            n == x * 1_000_000 + (j - 500_000),
            SCALE == 1_000_000i128,
    ;
    lemma_div_is_ordered(iabs(n), res * 2_000_000, res);
    assert((res * 2_000_000) / res == 2_000_000) by (nonlinear_arith)
        requires
            res >= 1,
    ;
    vstd::arithmetic::div_mod::lemma_div_pos_is_pos(iabs(n), res);
}

} // verus!
