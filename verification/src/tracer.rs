//! The recursive light-transport algorithm and the per-band render loop.

use vstd::prelude::*;
use crate::num::{
    SCALE, tdiv, fmul_s, sqrt_s, fmul, divi, fsqrt, muldiv, muldiv_s, lemma_fmul_s_bound_lin,
    lemma_fmul_s_nonneg, lemma_sqrt_le,
};
use crate::vec3::dist2_s;
use crate::geometry::{Ray, Intersect};
use crate::object::sphere::{Sphere, lights_ok};
use crate::camera::Camera;
use vstd::arithmetic::div_mod::{
    lemma_div_is_ordered, lemma_div_pos_is_pos, lemma_fundamental_div_mod_converse,
};

verus! {

/// Energy kept per bounce.
pub const DECAY: i128 = 980_000;

/// A candidate: squared distance from the ray origin, the hit, and whether
/// it came from a light.
pub open spec fn light_fold(
    lights: Seq<Sphere>,
    ray: Ray,
    k: int,
    acc: Option<(int, Ray, bool)>,
) -> Option<(int, Ray, bool)>
    decreases k,
{
    if k <= 0 || k > lights.len() {
        acc
    } else {
        let prev = light_fold(lights, ray, k - 1, acc);
        match lights[k - 1].hit_model(ray) {
            Option::None => prev,
            Option::Some(h) => {
                let d = dist2_s(ray.origin, h.origin);
                match prev {
                    Option::None => Option::Some((d, h, true)),
                    Option::Some((pd, ph, pl)) => if d < pd {
                        Option::Some((d, h, true))
                    } else {
                        prev
                    },
                }
            },
        }
    }
}

/// The nearest among the object set's hit and every light's hit, scanned in
/// order with the object candidate first; on an exact distance tie the
/// earlier candidate stands, so an equally-near light never displaces the
/// object and contributes no intensity.
pub open spec fn nearest_s<T: Intersect>(objects: &T, lights: Seq<Sphere>, ray: Ray) -> Option<
    (int, Ray, bool),
> {
    let acc = match objects.hit_model(ray) {
        Option::Some(h) => Option::Some((dist2_s(ray.origin, h.origin), h, false)),
        Option::None => Option::None,
    };
    light_fold(lights, ray, lights.len() as int, acc)
}

/// The evidence of one traced path: `hits` holds the (jitter-perturbed)
/// surface hit reflected off at each consumed bounce, `vals` the traced
/// value after each bounce. Darkness when nothing is ahead, full intensity
/// when the nearest candidate is a light, darkness when an object is hit
/// with no bounces left; otherwise the value is the decay factor times the
/// value traced for the ray reflected off the first hit — whose point is
/// the model's, and whose normal direction the jitter leaves open.
pub open spec fn trace_steps_ok<T: Intersect>(
    objects: &T,
    lights: Seq<Sphere>,
    ray: Ray,
    steps: int,
    hits: Seq<Ray>,
    vals: Seq<int>,
    v: int,
) -> bool
    decreases hits.len(),
{
    &&& 0 <= v <= SCALE
    &&& vals.len() == hits.len()
    &&& match nearest_s(objects, lights, ray) {
        Option::None => v == 0 && hits.len() == 0,
        Option::Some((d, h, is_light)) => if is_light {
            v == SCALE && hits.len() == 0
        } else if steps <= 1 {
            v == 0 && hits.len() == 0
        } else {
            &&& hits.len() >= 1
            &&& hits[0].origin == h.origin
            &&& hits[0].wf()
            &&& objects.dir_ok(ray, hits[0])
            &&& v == fmul_s(DECAY as int, vals[0])
            &&& trace_steps_ok(
                objects,
                lights,
                ray.reflect_s(hits[0]),
                steps - 1,
                hits.drop_first(),
                vals.drop_first(),
                vals[0],
            )
        },
    }
}

/// What a traced intensity may be, for a given ray and bounce budget: some
/// bounce path admits it.
pub open spec fn trace_result_ok<T: Intersect>(
    objects: &T,
    lights: Seq<Sphere>,
    ray: Ray,
    steps: int,
    v: int,
) -> bool {
    exists|hits: Seq<Ray>, vals: Seq<int>|
        #[trigger] trace_steps_ok(objects, lights, ray, steps, hits, vals, v)
}

/// One recursive trace: full intensity when the nearest surface ahead is a
/// light; a decayed recursive bounce when it is an object and bounces
/// remain; darkness otherwise.
pub fn trace_ray<T: Intersect>(
    ray: Ray,
    objects: &T,
    lights: &Vec<Sphere>,
    remaining_steps: usize,
) -> (r: i128)
    requires
        objects.wf(),
        ray.wf(),
        lights_ok(lights@),
    ensures
        0 <= r <= SCALE,
        trace_result_ok(objects, lights@, ray, remaining_steps as int, r as int),
    decreases remaining_steps,
{
    let obj_hit = objects.intersect(ray);
    let ghost acc0 = match objects.hit_model(ray) {
        Option::Some(h) => Option::Some((dist2_s(ray.origin, h.origin), h, false)),
        Option::None => Option::None::<(int, Ray, bool)>,
    };
    let mut best: Option<(i128, Ray, bool)> = match obj_hit {
        Some(h) => Some((ray.origin.distance_squared(h.origin), h, false)),
        None => None,
    };
    let mut k: usize = 0;
    while k < lights.len()
        invariant
            0 <= k <= lights@.len(),
            objects.wf(),
            ray.wf(),
            lights_ok(lights@),
            acc0 == match objects.hit_model(ray) {
                Option::Some(h) => Option::Some((dist2_s(ray.origin, h.origin), h, false)),
                Option::None => Option::None::<(int, Ray, bool)>,
            },
            cand_matches(best, light_fold(lights@, ray, k as int, acc0)),
            best matches Option::Some((d, h, false)) ==> objects.dir_ok(ray, h),
        decreases lights@.len() - k as int,
    {
        let lh = lights[k].intersect(ray);
        match lh {
            Some(h) => {
                let d = ray.origin.distance_squared(h.origin);
                best = match best {
                    None => Some((d, h, true)),
                    Some((pd, ph, pl)) => if d < pd {
                        Some((d, h, true))
                    } else {
                        Some((pd, ph, pl))
                    },
                };
            },
            None => {},
        }
        k = k + 1;
    }
    // calculate light intensity
    match best {
        Some((_, h, is_light)) => {
            if is_light {
                proof {
                    assert(trace_steps_ok(
                        objects,
                        lights@,
                        ray,
                        remaining_steps as int,
                        Seq::<Ray>::empty(),
                        Seq::<int>::empty(),
                        SCALE as int,
                    ));
                }
                SCALE
            } else {
                if remaining_steps > 1 {
                    // reflect off the surface normal and keep tracing
                    let reflected = ray.reflect(h);
                    let sub = trace_ray(reflected, objects, lights, remaining_steps - 1);
                    proof {
                        lemma_fmul_s_nonneg(DECAY as int, sub as int);
                        lemma_fmul_s_bound_lin(DECAY as int, sub as int, DECAY as int, SCALE as int, DECAY as int);
                        assert((DECAY as int) * (SCALE as int) <= (SCALE as int) * (DECAY as int))
                            by (nonlinear_arith);
                    }
                    let out = fmul(DECAY, sub);
                    proof {
                        let (hits0, vals0): (Seq<Ray>, Seq<int>) = choose|
                            hits0: Seq<Ray>,
                            vals0: Seq<int>,
                        |
                            #[trigger] trace_steps_ok(
                                objects,
                                lights@,
                                ray.reflect_s(h),
                                remaining_steps as int - 1,
                                hits0,
                                vals0,
                                sub as int,
                            );
                        let hits = seq![h].add(hits0);
                        let vals = seq![sub as int].add(vals0);
                        assert(hits.drop_first() =~= hits0);
                        assert(vals.drop_first() =~= vals0);
                        assert(trace_steps_ok(
                            objects,
                            lights@,
                            ray,
                            remaining_steps as int,
                            hits,
                            vals,
                            out as int,
                        ));
                    }
                    out
                } else {
                    proof {
                        assert(trace_steps_ok(
                            objects,
                            lights@,
                            ray,
                            remaining_steps as int,
                            Seq::<Ray>::empty(),
                            Seq::<int>::empty(),
                            0,
                        ));
                    }
                    0
                }
            }
        },
        None => {
            proof {
                assert(trace_steps_ok(
                    objects,
                    lights@,
                    ray,
                    remaining_steps as int,
                    Seq::<Ray>::empty(),
                    Seq::<int>::empty(),
                    0,
                ));
            }
            0
        },
    }
}

/// An executable candidate faithfully mirrors a model candidate: same
/// presence, distance and role, with the hit point of the model.
pub open spec fn cand_matches(c: Option<(i128, Ray, bool)>, m: Option<(int, Ray, bool)>) -> bool {
    match (c, m) {
        (Option::None, Option::None) => true,
        (Option::Some((dc, hc, lc)), Option::Some((dm, hm, lm))) => dc as int == dm && hc.origin
            == hm.origin && hc.wf() && lc == lm,
        _ => false,
    }
}

/// The sum of a sequence of sample values.
pub open spec fn sum_seq(vs: Seq<int>) -> int
    decreases vs.len(),
{
    if vs.len() == 0 {
        0
    } else {
        sum_seq(vs.drop_last()) + vs.last()
    }
}

pub proof fn lemma_sum_seq_push(vs: Seq<int>, v: int)
    ensures
        sum_seq(vs.push(v)) == sum_seq(vs) + v,
{
    assert(vs.push(v).drop_last() =~= vs);
    assert(vs.push(v).last() == v);
}

/// One pixel sample: a jitter pair in range and a value the trace model
/// admits for the jittered camera ray of that pixel.
pub open spec fn sample_ok<T: Intersect>(
    camera: Camera,
    objects: &T,
    lights: Seq<Sphere>,
    x: int,
    y: int,
    x_res: int,
    y_res: int,
    steps: int,
    j: (int, int),
    v: int,
) -> bool {
    &&& 0 <= j.0 < SCALE as int
    &&& 0 <= j.1 < SCALE as int
    &&& trace_result_ok(objects, lights, camera.ray_s(x, y, x_res, y_res, j.0, j.1), steps, v)
}

/// The evidence that a pixel is a sample mean: per-sample jitter pairs and
/// admitted trace values whose truncated mean is the pixel.
pub open spec fn samples_witness<T: Intersect>(
    camera: Camera,
    objects: &T,
    lights: Seq<Sphere>,
    x: int,
    y: int,
    x_res: int,
    y_res: int,
    spp: int,
    steps: int,
    js: Seq<(int, int)>,
    vs: Seq<int>,
    pixel: int,
) -> bool {
    &&& js.len() == spp
    &&& vs.len() == spp
    &&& forall|k: int|
        0 <= k < spp ==> #[trigger] sample_ok(
            camera,
            objects,
            lights,
            x,
            y,
            x_res,
            y_res,
            steps,
            js[k],
            vs[k],
        )
    &&& pixel == tdiv(sum_seq(vs), spp)
}

/// A pixel is the truncated mean of `spp` traced camera samples of its own
/// pixel coordinates, for some jitter draws.
pub open spec fn pixel_is_sample_mean<T: Intersect>(
    camera: Camera,
    objects: &T,
    lights: Seq<Sphere>,
    x: int,
    y: int,
    x_res: int,
    y_res: int,
    spp: int,
    steps: int,
    pixel: int,
) -> bool {
    exists|js: Seq<(int, int)>, vs: Seq<int>|
        #[trigger] samples_witness(
            camera,
            objects,
            lights,
            x,
            y,
            x_res,
            y_res,
            spp,
            steps,
            js,
            vs,
            pixel,
        )
}

/// Trace a horizontal band of the image: for every pixel of the rows
/// `y_start..y_end`, the mean of `samples_per_pixel` traced camera rays, in
/// row-major order. Every pixel lies in the unit intensity interval and is
/// the truncated mean of its own pixel's traced samples.
pub fn render_rows<T: Intersect>(
    camera: &Camera,
    objects: &T,
    lights: &Vec<Sphere>,
    x_res: usize,
    y_res: usize,
    y_start: usize,
    y_end: usize,
    samples_per_pixel: usize,
    max_reflections: usize,
) -> (r: Vec<i128>)
    requires
        camera.cam_wf(),
        objects.wf(),
        lights_ok(lights@),
        1 <= x_res <= 100_000,
        1 <= y_res <= 100_000,
        y_start <= y_end <= y_res,
        1 <= samples_per_pixel <= 1_000_000,
        max_reflections <= 1_000_000,
    ensures
        r@.len() == (y_end - y_start) * x_res,
        forall|i: int| 0 <= i < r@.len() ==> 0 <= #[trigger] r@[i] <= SCALE,
        forall|p: int|
            0 <= p < r@.len() ==> pixel_is_sample_mean(
                *camera,
                objects,
                lights@,
                p % (x_res as int),
                y_start + p / (x_res as int),
                x_res as int,
                y_res as int,
                samples_per_pixel as int,
                max_reflections + 1,
                #[trigger] r@[p] as int,
            ),
{
    let mut image: Vec<i128> = Vec::new();
    let mut y = y_start;
    while y < y_end
        invariant
            y_start <= y <= y_end,
            image@.len() == (y - y_start) * x_res,
            forall|i: int| 0 <= i < image@.len() ==> 0 <= #[trigger] image@[i] <= SCALE,
            forall|p: int|
                0 <= p < image@.len() ==> pixel_is_sample_mean(
                    *camera,
                    objects,
                    lights@,
                    p % (x_res as int),
                    y_start + p / (x_res as int),
                    x_res as int,
                    y_res as int,
                    samples_per_pixel as int,
                    max_reflections + 1,
                    #[trigger] image@[p] as int,
                ),
            camera.cam_wf(),
            objects.wf(),
            lights_ok(lights@),
            1 <= x_res <= 100_000,
            1 <= y_res <= 100_000,
            y_start <= y_end <= y_res,
            1 <= samples_per_pixel <= 1_000_000,
            max_reflections <= 1_000_000,
        decreases y_end - y,
    {
        let mut x: usize = 0;
        while x < x_res
            invariant
                0 <= x <= x_res,
                y_start <= y < y_end,
                image@.len() == (y - y_start) * x_res + x,
                forall|i: int| 0 <= i < image@.len() ==> 0 <= #[trigger] image@[i] <= SCALE,
                forall|p: int|
                    0 <= p < image@.len() ==> pixel_is_sample_mean(
                        *camera,
                        objects,
                        lights@,
                        p % (x_res as int),
                        y_start + p / (x_res as int),
                        x_res as int,
                        y_res as int,
                        samples_per_pixel as int,
                        max_reflections + 1,
                        #[trigger] image@[p] as int,
                    ),
                camera.cam_wf(),
                objects.wf(),
                lights_ok(lights@),
                1 <= x_res <= 100_000,
                1 <= y_res <= 100_000,
                y_start <= y_end <= y_res,
                1 <= samples_per_pixel <= 1_000_000,
                max_reflections <= 1_000_000,
            decreases x_res - x,
        {
            let mut sum: i128 = 0;
            let mut s: usize = 0;
            let ghost mut js: Seq<(int, int)> = Seq::empty();
            let ghost mut vs: Seq<int> = Seq::empty();
            while s < samples_per_pixel
                invariant
                    0 <= s <= samples_per_pixel,
                    0 <= sum <= (s as int) * (SCALE as int),
                    js.len() == s as int,
                    vs.len() == s as int,
                    sum == sum_seq(vs),
                    forall|k: int|
                        0 <= k < s as int ==> #[trigger] sample_ok(
                            *camera,
                            objects,
                            lights@,
                            x as int,
                            y as int,
                            x_res as int,
                            y_res as int,
                            max_reflections + 1,
                            js[k],
                            vs[k],
                        ),
                    y_start <= y < y_end,
                    0 <= x < x_res,
                    camera.cam_wf(),
                    objects.wf(),
                    lights_ok(lights@),
                    1 <= x_res <= 100_000,
                    1 <= y_res <= 100_000,
                    y_start <= y_end <= y_res,
                    1 <= samples_per_pixel <= 1_000_000,
                    max_reflections <= 1_000_000,
                decreases samples_per_pixel - s,
            {
                let ray = camera.ray((x, y), (x_res, y_res));
                let v = trace_ray(ray, objects, lights, max_reflections + 1);
                proof {
                    let (jx, jy): (int, int) = choose|jx: int, jy: int|
                        0 <= jx < SCALE as int && 0 <= jy < SCALE as int && ray == camera.ray_s(
                            x as int,
                            y as int,
                            x_res as int,
                            y_res as int,
                            jx,
                            jy,
                        );
                    lemma_sum_seq_push(vs, v as int);
                    js = js.push((jx, jy));
                    vs = vs.push(v as int);
                    assert(sample_ok(
                        *camera,
                        objects,
                        lights@,
                        x as int,
                        y as int,
                        x_res as int,
                        y_res as int,
                        max_reflections + 1,
                        (jx, jy),
                        v as int,
                    ));
                    assert((s as int + 1) * (SCALE as int) == (s as int) * (SCALE as int) + (
                    SCALE as int)) by (nonlinear_arith);
                    assert((s as int) * (SCALE as int) <= 1_000_000 * (SCALE as int))
                        by (nonlinear_arith)
                        requires
                            0 <= s as int <= 1_000_000,
                    ;
                }
                sum = sum + v;
                s = s + 1;
            }
            let pixel = divi(sum, samples_per_pixel as i128);
            proof {
                lemma_div_pos_is_pos(sum as int, samples_per_pixel as int);
                lemma_div_is_ordered(
                    sum as int,
                    (samples_per_pixel as int) * (SCALE as int),
                    samples_per_pixel as int,
                );
                assert(((samples_per_pixel as int) * (SCALE as int)) / (samples_per_pixel as int)
                    == SCALE as int) by (nonlinear_arith)
                    requires
                        1 <= samples_per_pixel as int,
                ;
                assert((samples_per_pixel as int) * (SCALE as int) <= 1_000_000 * (SCALE as int))
                    by (nonlinear_arith)
                    requires
                        1 <= samples_per_pixel as int <= 1_000_000,
                ;
                assert(samples_witness(
                    *camera,
                    objects,
                    lights@,
                    x as int,
                    y as int,
                    x_res as int,
                    y_res as int,
                    samples_per_pixel as int,
                    max_reflections + 1,
                    js,
                    vs,
                    pixel as int,
                ));
            }
            image.push(pixel);
            proof {
                let p0 = image@.len() - 1;
                lemma_fundamental_div_mod_converse(
                    p0,
                    x_res as int,
                    (y - y_start) as int,
                    x as int,
                );
            }
            x = x + 1;
        }
        proof {
            assert((y + 1 - y_start) * (x_res as int) == (y - y_start) * (x_res as int) + (
            x_res as int)) by (nonlinear_arith);
        }
        y = y + 1;
    }
    image
}

/// The 8-bit sample of a unit-interval pixel under the gamma exponent one
/// half: `255 * sqrt(value)`, clamped to the byte range.
pub open spec fn gamma_s(v: int) -> int {
    let g = tdiv(255 * sqrt_s(v * SCALE), SCALE as int);
    if g > 255 {
        255
    } else {
        g
    }
}

pub fn gamma_encode(v: i128) -> (r: u8)
    requires
        0 <= v <= SCALE,
    ensures
        r as int == gamma_s(v as int),
{
    let s = fsqrt(v);
    proof {
        assert((v as int) * (SCALE as int) <= 1_000_000 * 1_000_000) by (nonlinear_arith)
            requires
                0 <= v <= 1_000_000,
                SCALE == 1_000_000i128,
        ;
        assert((v as int) * (SCALE as int) >= 0) by (nonlinear_arith)
            requires
                v >= 0,
        ;
        lemma_sqrt_le((v as int) * (SCALE as int), 1_000_000);
    }
    let b = muldiv(255, s, SCALE);
    proof {
        lemma_fmul_s_nonneg(255, s as int);
        assert(muldiv_s(255, s as int, SCALE as int) == fmul_s(255, s as int));
    }
    if b > 255 {
        255u8
    } else {
        b as u8
    }
}

} // verus!
