//! Three-component vectors over the fixed-point scalars of `num`.

use vstd::prelude::*;
use crate::num::{
    SCALE, MAXM, iabs, fmul_s, fdiv_s, sqrt_s, is_sqrt, fmul, fdiv, fsqrt,
    lemma_fmul_s_bound, lemma_sqrt_exists, lemma_sqrt_le,
};
use vstd::arithmetic::div_mod::{
    lemma_div_is_ordered, lemma_div_is_ordered_by_denominator, lemma_fundamental_div_mod,
    lemma_mod_division_less_than_divisor, lemma_div_multiples_vanish,
};

verus! {

/// Coordinate limit on scene input: every scene point, box corner given by a
/// caller, sphere center and radius stays within a thousand units — a
/// machine limit of the fixed-point representation, checked before a scene
/// is built.
pub const CLIM: i128 = 1_000_000_000;

/// Bound on every component of a vector that `normalize` returns.
pub const DIRLIM: i128 = 3_000_000;

/// Bound on ray origins and on the hit points the primitives report.
pub const PLIM: i128 = 1_000_000_000_000;

/// Bound on box corners handled by the spatial partitioners.
pub const BLIM: i128 = 4_000_000_000;

/// Largest vector `normalize` accepts.
pub const NLIM: i128 = 10_000_000_000_000;

#[derive(Clone, Copy, Debug, PartialEq, Eq, Structural)]
pub struct Vec3 {
    pub x: i128,
    pub y: i128,
    pub z: i128,
}

pub open spec fn bounded(v: Vec3, m: int) -> bool {
    iabs(v.x as int) <= m && iabs(v.y as int) <= m && iabs(v.z as int) <= m
}

pub open spec fn add_s(a: Vec3, b: Vec3) -> Vec3 {
    Vec3 { x: (a.x + b.x) as i128, y: (a.y + b.y) as i128, z: (a.z + b.z) as i128 }
}

pub open spec fn sub_s(a: Vec3, b: Vec3) -> Vec3 {
    Vec3 { x: (a.x - b.x) as i128, y: (a.y - b.y) as i128, z: (a.z - b.z) as i128 }
}

pub open spec fn neg_s(a: Vec3) -> Vec3 {
    Vec3 { x: (-a.x) as i128, y: (-a.y) as i128, z: (-a.z) as i128 }
}

pub open spec fn scale_s(k: int, a: Vec3) -> Vec3 {
    Vec3 {
        x: fmul_s(k, a.x as int) as i128,
        y: fmul_s(k, a.y as int) as i128,
        z: fmul_s(k, a.z as int) as i128,
    }
}

pub open spec fn dot_s(a: Vec3, b: Vec3) -> int {
    fmul_s(a.x as int, b.x as int) + fmul_s(a.y as int, b.y as int) + fmul_s(
        a.z as int,
        b.z as int,
    )
}

pub open spec fn cross_s(a: Vec3, b: Vec3) -> Vec3 {
    Vec3 {
        x: (fmul_s(a.y as int, b.z as int) - fmul_s(a.z as int, b.y as int)) as i128,
        y: (fmul_s(a.z as int, b.x as int) - fmul_s(a.x as int, b.z as int)) as i128,
        z: (fmul_s(a.x as int, b.y as int) - fmul_s(a.y as int, b.x as int)) as i128,
    }
}

/// Squared length in micro-units.
pub open spec fn ls_s(a: Vec3) -> int {
    dot_s(a, a)
}

/// Squared distance between two points.
pub open spec fn dist2_s(a: Vec3, b: Vec3) -> int {
    ls_s(sub_s(a, b))
}

/// The normalization model: the zero vector (one whose squared length
/// truncates to zero) is returned unchanged, anything else is divided by its
/// fixed-point length.
pub open spec fn norm_s(v: Vec3) -> Vec3 {
    let ls = ls_s(v);
    if ls == 0 {
        v
    } else {
        let len = sqrt_s(ls * SCALE);
        Vec3 {
            x: fdiv_s(v.x as int, len) as i128,
            y: fdiv_s(v.y as int, len) as i128,
            z: fdiv_s(v.z as int, len) as i128,
        }
    }
}

/// Component reciprocals; a zero component has reciprocal zero (such an axis
/// is skipped by the slab test and the value never read).
pub open spec fn recip_s(v: Vec3) -> Vec3 {
    Vec3 {
        x: (if v.x == 0 { 0 } else { fdiv_s(SCALE as int, v.x as int) }) as i128,
        y: (if v.y == 0 { 0 } else { fdiv_s(SCALE as int, v.y as int) }) as i128,
        z: (if v.z == 0 { 0 } else { fdiv_s(SCALE as int, v.z as int) }) as i128,
    }
}

pub open spec fn zero_v() -> Vec3 {
    Vec3 { x: 0, y: 0, z: 0 }
}

/// Swapping the operands of the cross product negates it, exactly.
pub proof fn lemma_cross_antisym(u: Vec3, v: Vec3)
    requires
        bounded(u, NLIM as int),
        bounded(v, NLIM as int),
    ensures
        cross_s(v, u) == neg_s(cross_s(u, v)),
{
    assert((v.y as int) * (u.z as int) == (u.z as int) * (v.y as int)) by (nonlinear_arith);
    assert((v.z as int) * (u.y as int) == (u.y as int) * (v.z as int)) by (nonlinear_arith);
    assert((v.z as int) * (u.x as int) == (u.x as int) * (v.z as int)) by (nonlinear_arith);
    assert((v.x as int) * (u.z as int) == (u.z as int) * (v.x as int)) by (nonlinear_arith);
    assert((v.x as int) * (u.y as int) == (u.y as int) * (v.x as int)) by (nonlinear_arith);
    assert((v.y as int) * (u.x as int) == (u.x as int) * (v.y as int)) by (nonlinear_arith);
    lemma_fmul_s_bound(u.y as int, v.z as int, NLIM as int, NLIM as int);
    lemma_fmul_s_bound(u.z as int, v.y as int, NLIM as int, NLIM as int);
    lemma_fmul_s_bound(u.z as int, v.x as int, NLIM as int, NLIM as int);
    lemma_fmul_s_bound(u.x as int, v.z as int, NLIM as int, NLIM as int);
    lemma_fmul_s_bound(u.x as int, v.y as int, NLIM as int, NLIM as int);
    lemma_fmul_s_bound(u.y as int, v.x as int, NLIM as int, NLIM as int);
}

/// Negating a vector negates its normalization, exactly.
pub proof fn lemma_norm_neg(v: Vec3)
    requires
        bounded(v, MAXM as int),
    ensures
        norm_s(neg_s(v)) == neg_s(norm_s(v)),
{
    let n = neg_s(v);
    assert((n.x as int) * (n.x as int) == (v.x as int) * (v.x as int)) by (nonlinear_arith)
        requires
            n.x as int == -(v.x as int),
    ;
    assert((n.y as int) * (n.y as int) == (v.y as int) * (v.y as int)) by (nonlinear_arith)
        requires
            n.y as int == -(v.y as int),
    ;
    assert((n.z as int) * (n.z as int) == (v.z as int) * (v.z as int)) by (nonlinear_arith)
        requires
            n.z as int == -(v.z as int),
    ;
    assert(ls_s(n) == ls_s(v));
    if ls_s(v) != 0 {
        lemma_fmul_s_sq_nonneg(v.x as int);
        lemma_fmul_s_sq_nonneg(v.y as int);
        lemma_fmul_s_sq_nonneg(v.z as int);
        assert(ls_s(v) * (SCALE as int) >= 0) by (nonlinear_arith)
            requires
                ls_s(v) >= 1,
        ;
        lemma_sqrt_exists(ls_s(v) * SCALE);
        let len = sqrt_s(ls_s(v) * SCALE);
        lemma_len_lower(ls_s(v), len);
        crate::num::lemma_tdiv_neg((v.x as int) * (SCALE as int), len);
        crate::num::lemma_tdiv_neg((v.y as int) * (SCALE as int), len);
        crate::num::lemma_tdiv_neg((v.z as int) * (SCALE as int), len);
        assert((n.x as int) * (SCALE as int) == -((v.x as int) * (SCALE as int)))
            by (nonlinear_arith)
            requires
                n.x as int == -(v.x as int),
        ;
        assert((n.y as int) * (SCALE as int) == -((v.y as int) * (SCALE as int)))
            by (nonlinear_arith)
            requires
                n.y as int == -(v.y as int),
        ;
        assert((n.z as int) * (SCALE as int) == -((v.z as int) * (SCALE as int)))
            by (nonlinear_arith)
            requires
                n.z as int == -(v.z as int),
        ;
    }
}

/// A square is never negative and never shrinks under the fixed-point product.
pub proof fn lemma_fmul_s_sq_nonneg(c: int)
    ensures
        0 <= fmul_s(c, c),
        fmul_s(c, c) * (SCALE as int) > c * c - (SCALE as int),
{
    assert(c * c >= 0) by (nonlinear_arith);
    let q = (c * c) / (SCALE as int);
    lemma_fundamental_div_mod(c * c, SCALE as int);
    lemma_mod_division_less_than_divisor(c * c, SCALE as int);
    assert(fmul_s(c, c) == q);
    vstd::arithmetic::div_mod::lemma_div_pos_is_pos(c * c, SCALE as int);
}

pub proof fn lemma_dot_s_bound(a: Vec3, b: Vec3, ma: int, mb: int)
    requires
        bounded(a, ma),
        bounded(b, mb),
        0 <= ma,
        0 <= mb,
    ensures
        iabs(dot_s(a, b)) <= 3 * ((ma * mb) / (SCALE as int)),
{
    lemma_fmul_s_bound(a.x as int, b.x as int, ma, mb);
    lemma_fmul_s_bound(a.y as int, b.y as int, ma, mb);
    lemma_fmul_s_bound(a.z as int, b.z as int, ma, mb);
}

/// A division-free dot-product bound: if `ma * mb <= SCALE * m` then the
/// dot product of `ma`/`mb`-bounded vectors stays within `3 * m`.
pub proof fn lemma_dot_s_bound_lin(a: Vec3, b: Vec3, ma: int, mb: int, m: int)
    requires
        bounded(a, ma),
        bounded(b, mb),
        0 <= m,
        ma * mb <= (SCALE as int) * m,
    ensures
        iabs(dot_s(a, b)) <= 3 * m,
{
    crate::num::lemma_fmul_s_bound_lin(a.x as int, b.x as int, ma, mb, m);
    crate::num::lemma_fmul_s_bound_lin(a.y as int, b.y as int, ma, mb, m);
    crate::num::lemma_fmul_s_bound_lin(a.z as int, b.z as int, ma, mb, m);
}

/// A division-free cross-product bound: if `ma * mb <= SCALE * m` then each
/// component of the cross product of `ma`/`mb`-bounded vectors stays within
/// `2 * m`.
pub proof fn lemma_cross_s_bound_lin(a: Vec3, b: Vec3, ma: int, mb: int, m: int)
    requires
        bounded(a, ma),
        bounded(b, mb),
        0 <= m,
        ma * mb <= (SCALE as int) * m,
    ensures
        bounded(cross_s(a, b), 2 * m),
{
    crate::num::lemma_fmul_s_bound_lin(a.y as int, b.z as int, ma, mb, m);
    crate::num::lemma_fmul_s_bound_lin(a.z as int, b.y as int, ma, mb, m);
    crate::num::lemma_fmul_s_bound_lin(a.z as int, b.x as int, ma, mb, m);
    crate::num::lemma_fmul_s_bound_lin(a.x as int, b.z as int, ma, mb, m);
    crate::num::lemma_fmul_s_bound_lin(a.x as int, b.y as int, ma, mb, m);
    crate::num::lemma_fmul_s_bound_lin(a.y as int, b.x as int, ma, mb, m);
}

/// The dot product of two unit-bounded vectors stays within `27` units.
pub proof fn lemma_unit_dot_bound(a: Vec3, b: Vec3)
    requires
        bounded(a, DIRLIM as int),
        bounded(b, DIRLIM as int),
    ensures
        iabs(dot_s(a, b)) <= 27_000_000,
{
    lemma_dot_s_bound(a, b, DIRLIM as int, DIRLIM as int);
    lemma_div_multiples_vanish(9_000_000, SCALE as int);
    assert((DIRLIM as int) * (DIRLIM as int) == (SCALE as int) * 9_000_000) by (nonlinear_arith);
}

impl Vec3 {
    pub fn new(x: i128, y: i128, z: i128) -> (r: Vec3)
        ensures
            r == (Vec3 { x, y, z }),
    {
        Vec3 { x, y, z }
    }

    pub fn add(self, o: Vec3) -> (r: Vec3)
        requires
            bounded(self, MAXM as int),
            bounded(o, MAXM as int),
        ensures
            r == add_s(self, o),
    {
        Vec3 { x: self.x + o.x, y: self.y + o.y, z: self.z + o.z }
    }

    pub fn sub(self, o: Vec3) -> (r: Vec3)
        requires
            bounded(self, MAXM as int),
            bounded(o, MAXM as int),
        ensures
            r == sub_s(self, o),
    {
        Vec3 { x: self.x - o.x, y: self.y - o.y, z: self.z - o.z }
    }

    pub fn neg(self) -> (r: Vec3)
        requires
            bounded(self, MAXM as int),
        ensures
            r == neg_s(self),
    {
        Vec3 { x: -self.x, y: -self.y, z: -self.z }
    }

    pub fn scale(self, k: i128) -> (r: Vec3)
        requires
            bounded(self, MAXM as int),
            -MAXM <= k <= MAXM,
        ensures
            r == scale_s(k as int, self),
    {
        Vec3 { x: fmul(k, self.x), y: fmul(k, self.y), z: fmul(k, self.z) }
    }

    pub fn dot(self, o: Vec3) -> (r: i128)
        requires
            bounded(self, MAXM as int),
            bounded(o, MAXM as int),
        ensures
            r == dot_s(self, o),
    {
        let tx = fmul(self.x, o.x);
        let ty = fmul(self.y, o.y);
        let tz = fmul(self.z, o.z);
        proof {
            lemma_fmul_s_bound(self.x as int, o.x as int, MAXM as int, MAXM as int);
            lemma_fmul_s_bound(self.y as int, o.y as int, MAXM as int, MAXM as int);
            lemma_fmul_s_bound(self.z as int, o.z as int, MAXM as int, MAXM as int);
        }
        tx + ty + tz
    }

    pub fn cross(self, o: Vec3) -> (r: Vec3)
        requires
            bounded(self, MAXM as int),
            bounded(o, MAXM as int),
        ensures
            r == cross_s(self, o),
    {
        proof {
            lemma_fmul_s_bound(self.y as int, o.z as int, MAXM as int, MAXM as int);
            lemma_fmul_s_bound(self.z as int, o.y as int, MAXM as int, MAXM as int);
            lemma_fmul_s_bound(self.z as int, o.x as int, MAXM as int, MAXM as int);
            lemma_fmul_s_bound(self.x as int, o.z as int, MAXM as int, MAXM as int);
            lemma_fmul_s_bound(self.x as int, o.y as int, MAXM as int, MAXM as int);
            lemma_fmul_s_bound(self.y as int, o.x as int, MAXM as int, MAXM as int);
        }
        Vec3 {
            x: fmul(self.y, o.z) - fmul(self.z, o.y),
            y: fmul(self.z, o.x) - fmul(self.x, o.z),
            z: fmul(self.x, o.y) - fmul(self.y, o.x),
        }
    }

    pub fn length_squared(self) -> (r: i128)
        requires
            bounded(self, MAXM as int),
        ensures
            r == ls_s(self),
            r >= 0,
    {
        proof {
            lemma_fmul_s_sq_nonneg(self.x as int);
            lemma_fmul_s_sq_nonneg(self.y as int);
            lemma_fmul_s_sq_nonneg(self.z as int);
        }
        self.dot(self)
    }

    pub fn distance_squared(self, o: Vec3) -> (r: i128)
        requires
            bounded(self, 4_000_000_000_000),
            bounded(o, 4_000_000_000_000),
        ensures
            r == dist2_s(self, o),
            r >= 0,
    {
        let d = self.sub(o);
        d.length_squared()
    }

    pub fn comp_recip(self) -> (r: Vec3)
        requires
            bounded(self, MAXM as int),
        ensures
            r == recip_s(self),
            bounded(r, SCALE as int * SCALE as int),
    {
        proof {
            if self.x != 0 {
                crate::num::lemma_tdiv_le_abs((SCALE as int) * (SCALE as int), self.x as int);
            }
            if self.y != 0 {
                crate::num::lemma_tdiv_le_abs((SCALE as int) * (SCALE as int), self.y as int);
            }
            if self.z != 0 {
                crate::num::lemma_tdiv_le_abs((SCALE as int) * (SCALE as int), self.z as int);
            }
        }
        Vec3 {
            x: if self.x == 0 { 0 } else { fdiv(SCALE, self.x) },
            y: if self.y == 0 { 0 } else { fdiv(SCALE, self.y) },
            z: if self.z == 0 { 0 } else { fdiv(SCALE, self.z) },
        }
    }

    /// Whether every component stays within `m` in magnitude.
    pub fn check_bounded(self, m: i128) -> (r: bool)
        requires
            m >= 0,
        ensures
            r == bounded(self, m as int),
    {
        -m <= self.x && self.x <= m && -m <= self.y && self.y <= m && -m <= self.z && self.z <= m
    }

    pub fn comp_min(self, o: Vec3) -> (r: Vec3)
        ensures
            r.x == if self.x <= o.x { self.x } else { o.x },
            r.y == if self.y <= o.y { self.y } else { o.y },
            r.z == if self.z <= o.z { self.z } else { o.z },
    {
        Vec3 {
            x: if self.x <= o.x { self.x } else { o.x },
            y: if self.y <= o.y { self.y } else { o.y },
            z: if self.z <= o.z { self.z } else { o.z },
        }
    }

    pub fn comp_max(self, o: Vec3) -> (r: Vec3)
        ensures
            r.x == if self.x >= o.x { self.x } else { o.x },
            r.y == if self.y >= o.y { self.y } else { o.y },
            r.z == if self.z >= o.z { self.z } else { o.z },
    {
        Vec3 {
            x: if self.x >= o.x { self.x } else { o.x },
            y: if self.y >= o.y { self.y } else { o.y },
            z: if self.z >= o.z { self.z } else { o.z },
        }
    }

    /// Normalize to (approximately) unit length; the zero vector is returned
    /// unchanged, the explicit policy for that degenerate case.
    pub fn normalize(self) -> (r: Vec3)
        requires
            bounded(self, NLIM as int),
        ensures
            r == norm_s(self),
            bounded(r, DIRLIM as int),
    {
        let ls = self.length_squared();
        proof {
            lemma_fmul_s_sq_nonneg(self.x as int);
            lemma_fmul_s_sq_nonneg(self.y as int);
            lemma_fmul_s_sq_nonneg(self.z as int);
            lemma_fmul_s_bound(self.x as int, self.x as int, NLIM as int, NLIM as int);
            lemma_fmul_s_bound(self.y as int, self.y as int, NLIM as int, NLIM as int);
            lemma_fmul_s_bound(self.z as int, self.z as int, NLIM as int, NLIM as int);
            lemma_div_multiples_vanish(100_000_000_000_000_000_000, SCALE as int);
            assert((NLIM as int) * (NLIM as int) == (SCALE as int) * 100_000_000_000_000_000_000)
                by (nonlinear_arith);
        }
        if ls == 0 {
            proof {
                lemma_comp_small_when_sq_zero(self.x as int);
                lemma_comp_small_when_sq_zero(self.y as int);
                lemma_comp_small_when_sq_zero(self.z as int);
            }
            self
        } else {
            let len = fsqrt(ls);
            proof {
                lemma_len_lower(ls as int, len as int);
                lemma_sqrt_le(ls * SCALE, 20_000_000_000_000);
                lemma_norm_comp_bound(self.x as int, ls as int, len as int);
                lemma_norm_comp_bound(self.y as int, ls as int, len as int);
                lemma_norm_comp_bound(self.z as int, ls as int, len as int);
            }
            Vec3 { x: fdiv(self.x, len), y: fdiv(self.y, len), z: fdiv(self.z, len) }
        }
    }
}

proof fn lemma_comp_small_when_sq_zero(c: int)
    requires
        fmul_s(c, c) == 0,
    ensures
        iabs(c) <= DIRLIM as int,
{
    lemma_fmul_s_sq_nonneg(c);
    assert(c * c < SCALE as int);
    assert(iabs(c) < 1000) by (nonlinear_arith)
        requires
            c * c < 1_000_000,
    ;
}

proof fn lemma_len_lower(ls: int, len: int)
    requires
        1 <= ls,
        is_sqrt(ls * SCALE, len),
    ensures
        len >= 1000,
{
    assert(ls * SCALE >= SCALE as int) by (nonlinear_arith)
        requires
            ls >= 1,
    ;
    assert(len >= 1000) by (nonlinear_arith)
        requires
            0 <= len,
            1_000_000 <= ls * (SCALE as int),
            ls * (SCALE as int) < (len + 1) * (len + 1),
            SCALE == 1_000_000i128,
    ;
}

/// The central bound: a component divided by the fixed-point length of its
/// vector stays within `DIRLIM`.
proof fn lemma_norm_comp_bound(c: int, ls: int, len: int)
    requires
        1 <= ls,
        len >= 1000,
        is_sqrt(ls * SCALE, len),
        ls >= fmul_s(c, c),
        iabs(c) <= NLIM as int,
    ensures
        iabs(fdiv_s(c, len)) <= DIRLIM as int,
{
    let n = iabs(c) * (SCALE as int);
    assert(iabs(fdiv_s(c, len)) == n / len);
    if iabs(c) <= 3000 {
        lemma_div_is_ordered(n, 3_000_000_000, len);
        lemma_div_is_ordered_by_denominator(3_000_000_000, 1000, len);
    } else {
        lemma_fmul_s_sq_nonneg(c);
        assert(fmul_s(c, c) * (SCALE as int) > c * c - (SCALE as int));
        assert(ls * (SCALE as int) >= fmul_s(c, c) * (SCALE as int)) by (nonlinear_arith)
            requires
                ls >= fmul_s(c, c),
                (SCALE as int) > 0,
        ;
        assert(3 * len >= iabs(c)) by (nonlinear_arith)
            requires
                0 <= len,
                iabs(c) > 3000,
                ls * (SCALE as int) > c * c - (SCALE as int),
                ls * (SCALE as int) < (len + 1) * (len + 1),
                SCALE == 1_000_000i128,
                iabs(c) == if c < 0 { -c } else { c },
        ;
        assert(n <= (3 * len) * (SCALE as int)) by (nonlinear_arith)
            requires
                n == iabs(c) * (SCALE as int),
                3 * len >= iabs(c),
                (SCALE as int) > 0,
        ;
        lemma_div_is_ordered(n, 3 * len * (SCALE as int), len);
        assert((3 * len * (SCALE as int)) / len == 3 * (SCALE as int)) by (nonlinear_arith)
            requires
                len >= 1000,
        ;
    }
}

} // verus!
