//! Fixed-point scalar arithmetic.
//!
//! Every scalar in this crate is a signed count of micro-units: the value
//! `1.5` is stored as `1_500_000`. Products and quotients are computed in
//! `i128` and rounded toward zero, so each operation has an exact
//! mathematical description over the integers.

use vstd::prelude::*;

verus! {

/// Micro-units in one whole unit.
pub const SCALE: i128 = 1_000_000;

/// Magnitude cap on operands of the fixed-point helpers. Far above any
/// value the tracer forms, far below what `i128` intermediates can hold.
pub const MAXM: i128 = 2_000_000_000_000_000_000;

pub open spec fn iabs(a: int) -> int {
    if a < 0 { -a } else { a }
}

/// Quotient rounded toward zero: the rounding rule of every fixed-point
/// helper in this crate.
pub open spec fn tdiv(n: int, d: int) -> int
    recommends d != 0,
{
    if (n < 0) != (d < 0) { -(iabs(n) / iabs(d)) } else { iabs(n) / iabs(d) }
}

/// Fixed-point product: `a * b` in micro-units.
pub open spec fn fmul_s(a: int, b: int) -> int {
    tdiv(a * b, SCALE as int)
}

/// Fixed-point quotient: `a / b` in micro-units.
pub open spec fn fdiv_s(a: int, b: int) -> int {
    tdiv(a * SCALE, b)
}

/// `a * b / c` with a single rounding at the end.
pub open spec fn muldiv_s(a: int, b: int, c: int) -> int {
    tdiv(a * b, c)
}

/// Half of a scalar, rounded toward zero.
pub open spec fn half_s(a: int) -> int {
    tdiv(a, 2)
}

proof fn lemma_abs_mul(a: int, b: int)
    ensures
        iabs(a * b) == iabs(a) * iabs(b),
        a != 0 && b != 0 ==> ((a * b < 0) == ((a < 0) != (b < 0))),
        a == 0 || b == 0 ==> a * b == 0,
{
    assert(iabs(a * b) == iabs(a) * iabs(b) && ((a != 0 && b != 0) ==> ((a * b < 0) == ((a < 0)
        != (b < 0)))) && ((a == 0 || b == 0) ==> a * b == 0)) by (nonlinear_arith);
}

/// The quotient of nonnegative magnitudes never exceeds the numerator.
pub proof fn lemma_tdiv_le_abs(n: int, d: int)
    requires
        d != 0,
    ensures
        iabs(tdiv(n, d)) <= iabs(n),
{
    let q = iabs(n) / iabs(d);
    assert(0 <= q <= iabs(n)) by (nonlinear_arith)
        requires
            iabs(n) >= 0,
            iabs(d) >= 1,
            q == iabs(n) / iabs(d),
    ;
}

/// Fixed-point multiplication, exact over the integer model.
pub fn fmul(a: i128, b: i128) -> (r: i128)
    requires
        -MAXM <= a <= MAXM,
        -MAXM <= b <= MAXM,
    ensures
        r == fmul_s(a as int, b as int),
        iabs(r as int) * (SCALE as int) <= iabs((a as int) * (b as int)),
{
    proof {
        lemma_abs_mul(a as int, b as int);
    }
    let neg = (a < 0) != (b < 0);
    let ma: u128 = if a < 0 { (-a) as u128 } else { a as u128 };
    let mb: u128 = if b < 0 { (-b) as u128 } else { b as u128 };
    assert(ma == iabs(a as int) && mb == iabs(b as int));
    assert(ma * mb <= (MAXM as u128) * (MAXM as u128)) by (nonlinear_arith)
        requires
            ma <= MAXM as u128,
            mb <= MAXM as u128,
    ;
    let m: u128 = (ma * mb) / (SCALE as u128);
    assert(m as int <= (ma as int) * (mb as int)) by (nonlinear_arith)
        requires
            m as int == ((ma as int) * (mb as int)) / (1000000 as int),
            ma as int >= 0,
            mb as int >= 0,
    ;
    proof {
        assert(m == iabs((a as int) * (b as int)) / (SCALE as int));
        assert(iabs(tdiv((a as int) * (b as int), SCALE as int)) == m as int);
    }
    let mi: i128 = m as i128;
    if neg {
        -mi
    } else {
        mi
    }
}

/// Fixed-point division, exact over the integer model.
pub fn fdiv(a: i128, b: i128) -> (r: i128)
    requires
        -MAXM <= a <= MAXM,
        -MAXM <= b <= MAXM,
        b != 0,
    ensures
        r == fdiv_s(a as int, b as int),
        iabs(r as int) <= iabs(a as int) * (SCALE as int),
{
    proof {
        lemma_abs_mul(a as int, SCALE as int);
    }
    let neg = (a < 0) != (b < 0);
    let ma: u128 = if a < 0 { (-a) as u128 } else { a as u128 };
    let mb: u128 = if b < 0 { (-b) as u128 } else { b as u128 };
    assert(ma == iabs(a as int) && mb == iabs(b as int) && mb >= 1);
    let n: u128 = ma * 1000000u128;
    let m: u128 = n / mb;
    assert(m <= n) by (nonlinear_arith)
        requires
            m == n / mb,
            mb >= 1,
            n >= 0,
    ;
    proof {
        assert(n == iabs((a as int) * (SCALE as int)));
        assert(iabs(tdiv((a as int) * (SCALE as int), b as int)) == m as int);
    }
    let mi: i128 = m as i128;
    if neg {
        -mi
    } else {
        mi
    }
}

/// `a * b / c` computed with one rounding, exact over the integer model.
pub fn muldiv(a: i128, b: i128, c: i128) -> (r: i128)
    requires
        -MAXM <= a <= MAXM,
        -MAXM <= b <= MAXM,
        -MAXM <= c <= MAXM,
        c != 0,
    ensures
        r == muldiv_s(a as int, b as int, c as int),
        iabs(r as int) <= iabs((a as int) * (b as int)),
{
    proof {
        lemma_abs_mul(a as int, b as int);
    }
    let neg = ((a < 0) != (b < 0)) != (c < 0);
    let ma: u128 = if a < 0 { (-a) as u128 } else { a as u128 };
    let mb: u128 = if b < 0 { (-b) as u128 } else { b as u128 };
    let mc: u128 = if c < 0 { (-c) as u128 } else { c as u128 };
    assert(ma == iabs(a as int) && mb == iabs(b as int) && mc == iabs(c as int) && mc >= 1);
    assert(ma * mb <= (MAXM as u128) * (MAXM as u128)) by (nonlinear_arith)
        requires
            ma <= MAXM as u128,
            mb <= MAXM as u128,
    ;
    let n: u128 = ma * mb;
    let m: u128 = n / mc;
    assert(m <= n) by (nonlinear_arith)
        requires
            m == n / mc,
            mc >= 1,
            n >= 0,
    ;
    proof {
        assert(n == iabs((a as int) * (b as int)));
        let p = (a as int) * (b as int);
        if p == 0 {
            assert(tdiv(p, c as int) == 0);
            assert(m == 0);
        } else {
            assert(iabs(tdiv(p, c as int)) == m as int);
            assert((tdiv(p, c as int) < 0) == (((p < 0) != ((c as int) < 0)) && m > 0));
        }
    }
    let mi: i128 = m as i128;
    if neg {
        -mi
    } else {
        mi
    }
}

/// Half of a scalar, rounded toward zero.
pub fn half(a: i128) -> (r: i128)
    requires
        -MAXM <= a <= MAXM,
    ensures
        r == half_s(a as int),
        iabs(r as int) <= iabs(a as int),
{
    let neg = a < 0;
    let ma: u128 = if a < 0 { (-a) as u128 } else { a as u128 };
    let m: u128 = ma / 2;
    assert(2 * m <= ma) by (nonlinear_arith)
        requires
            m == ma / 2,
    ;
    proof {
        assert(iabs(tdiv(a as int, 2)) == m as int);
    }
    let mi: i128 = m as i128;
    if neg {
        -mi
    } else {
        mi
    }
}

/// Division of a scalar by a plain positive count, rounded toward zero.
pub fn divi(a: i128, d: i128) -> (r: i128)
    requires
        -MAXM <= a <= MAXM,
        1 <= d <= MAXM,
    ensures
        r == tdiv(a as int, d as int),
        iabs(r as int) <= iabs(a as int),
{
    let neg = a < 0;
    let ma: u128 = if a < 0 { (-a) as u128 } else { a as u128 };
    let md: u128 = d as u128;
    let m: u128 = ma / md;
    assert(m <= ma) by (nonlinear_arith)
        requires
            m == ma / md,
            md >= 1,
            ma >= 0,
    ;
    proof {
        assert(iabs(tdiv(a as int, d as int)) == m as int);
    }
    let mi: i128 = m as i128;
    if neg {
        -mi
    } else {
        mi
    }
}

/// `r` is the integer square root of `x`.
pub open spec fn is_sqrt(x: int, r: int) -> bool {
    0 <= r && r * r <= x && x < (r + 1) * (r + 1)
}

/// The integer square root, as a function usable in other specifications.
pub open spec fn sqrt_s(x: int) -> int {
    choose|r: int| is_sqrt(x, r)
}

/// Square root of a fixed-point scalar: `sqrt(a / S) * S == sqrt(a * S)`.
pub open spec fn fsqrt_s(a: int) -> int {
    sqrt_s(a * SCALE)
}

pub proof fn lemma_sqrt_unique(x: int, r1: int, r2: int)
    requires
        is_sqrt(x, r1),
        is_sqrt(x, r2),
    ensures
        r1 == r2,
{
    assert(!(r1 < r2) && !(r2 < r1)) by (nonlinear_arith)
        requires
            0 <= r1,
            0 <= r2,
            r1 * r1 <= x,
            x < (r1 + 1) * (r1 + 1),
            r2 * r2 <= x,
            x < (r2 + 1) * (r2 + 1),
    ;
}

/// Every nonnegative integer has an integer square root.
pub proof fn lemma_sqrt_exists(x: int)
    requires
        0 <= x,
    ensures
        is_sqrt(x, sqrt_s(x)),
    decreases x,
{
    if x == 0 {
        assert(is_sqrt(0, 0));
    } else {
        lemma_sqrt_exists(x - 1);
        let r = sqrt_s(x - 1);
        if x < (r + 1) * (r + 1) {
            assert(is_sqrt(x, r));
        } else {
            assert(is_sqrt(x, r + 1)) by (nonlinear_arith)
                requires
                    0 <= r,
                    r * r <= x - 1,
                    x - 1 < (r + 1) * (r + 1),
                    (r + 1) * (r + 1) <= x,
            ;
        }
        assert(exists|s: int| is_sqrt(x, s));
    }
}

/// A square bound on the argument bounds the root.
pub proof fn lemma_sqrt_le(x: int, m: int)
    requires
        0 <= x,
        0 <= m,
        x <= m * m,
    ensures
        sqrt_s(x) <= m,
{
    lemma_sqrt_exists(x);
    let r = sqrt_s(x);
    assert(!(r > m)) by (nonlinear_arith)
        requires
            0 <= r,
            0 <= m,
            r * r <= x,
            x <= m * m,
    ;
}

/// Integer square root by bisection.
pub fn isqrt(x: i128) -> (r: i128)
    requires
        0 <= x <= 100_000_000_000_000_000_000_000_000_000_000,
    ensures
        r == sqrt_s(x as int),
        is_sqrt(x as int, r as int),
{
    let xu: u128 = x as u128;
    let mut lo: u128 = 0;
    let mut hi: u128 = 10_000_000_000_000_001;
    assert((hi as int) * (hi as int) > xu as int) by (nonlinear_arith)
        requires
            hi == 10_000_000_000_000_001u128,
            xu as int <= 100_000_000_000_000_000_000_000_000_000_000,
    ;
    while hi - lo > 1
        invariant
            0 <= lo < hi <= 10_000_000_000_000_001,
            (lo as int) * (lo as int) <= xu as int,
            (xu as int) < (hi as int) * (hi as int),
            xu == x,
        decreases hi - lo,
    {
        let mid: u128 = lo + (hi - lo) / 2;
        assert(lo < mid < hi);
        assert(mid * mid < 200_000_000_000_000_000_000_000_000_000_000) by (nonlinear_arith)
            requires
                0 < mid <= 10_000_000_000_000_000u128,
        ;
        if mid * mid <= xu {
            lo = mid;
        } else {
            hi = mid;
        }
    }
    proof {
        assert(is_sqrt(x as int, lo as int));
        lemma_sqrt_exists(x as int);
        lemma_sqrt_unique(x as int, lo as int, sqrt_s(x as int));
    }
    lo as i128
}

/// Square root of a fixed-point scalar.
pub fn fsqrt(a: i128) -> (r: i128)
    requires
        0 <= a <= 100_000_000_000_000_000_000_000_000,
    ensures
        r == fsqrt_s(a as int),
        is_sqrt((a as int) * (SCALE as int), r as int),
{
    let r = isqrt(a * 1000000);
    r
}

/// A product bound carries through the fixed-point product.
pub proof fn lemma_fmul_s_bound(a: int, b: int, ma: int, mb: int)
    requires
        iabs(a) <= ma,
        iabs(b) <= mb,
    ensures
        iabs(fmul_s(a, b)) <= (ma * mb) / (SCALE as int),
        (ma * mb) / (SCALE as int) >= 0,
{
    lemma_abs_mul(a, b);
    assert(iabs(a) * iabs(b) <= ma * mb) by (nonlinear_arith)
        requires
            0 <= iabs(a) <= ma,
            0 <= iabs(b) <= mb,
    ;
    vstd::arithmetic::div_mod::lemma_div_is_ordered(iabs(a * b), ma * mb, SCALE as int);
    vstd::arithmetic::div_mod::lemma_div_pos_is_pos(ma * mb, SCALE as int);
    assert(iabs(fmul_s(a, b)) == iabs(a * b) / (SCALE as int));
}

/// A division-free form of the product bound: if `ma * mb <= SCALE * m`
/// then the fixed-point product of `ma`/`mb`-bounded operands stays in `m`.
pub proof fn lemma_fmul_s_bound_lin(a: int, b: int, ma: int, mb: int, m: int)
    requires
        iabs(a) <= ma,
        iabs(b) <= mb,
        0 <= m,
        ma * mb <= (SCALE as int) * m,
    ensures
        iabs(fmul_s(a, b)) <= m,
{
    lemma_abs_mul(a, b);
    assert(iabs(a) * iabs(b) <= ma * mb) by (nonlinear_arith)
        requires
            0 <= iabs(a) <= ma,
            0 <= iabs(b) <= mb,
    ;
    vstd::arithmetic::div_mod::lemma_div_is_ordered(iabs(a * b), (SCALE as int) * m, SCALE as int);
    vstd::arithmetic::div_mod::lemma_div_multiples_vanish(m, SCALE as int);
    vstd::arithmetic::div_mod::lemma_div_pos_is_pos(iabs(a * b), SCALE as int);
    assert(iabs(fmul_s(a, b)) == iabs(a * b) / (SCALE as int));
}

/// A product of nonnegative scalars stays nonnegative.
pub proof fn lemma_fmul_s_nonneg(a: int, b: int)
    requires
        0 <= a,
        0 <= b,
    ensures
        0 <= fmul_s(a, b),
{
    assert(a * b >= 0) by (nonlinear_arith)
        requires
            a >= 0,
            b >= 0,
    ;
    vstd::arithmetic::div_mod::lemma_div_pos_is_pos(a * b, SCALE as int);
}

/// Division rounded toward zero is odd in its numerator.
pub proof fn lemma_tdiv_neg(n: int, d: int)
    requires
        d != 0,
    ensures
        tdiv(-n, d) == -tdiv(n, d),
{
    assert(iabs(-n) == iabs(n));
}

} // verus!

