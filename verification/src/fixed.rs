//! Saturating fixed-point scalar arithmetic.
//!
//! A scalar is an `i128` counting `SCALE`-ths (thousandths) of a world
//! unit. Every stored scalar lies in `[-SAT_MAX, SAT_MAX]`: the results
//! of the simulator's additive operations are clamped into that band, so
//! repeated simulation steps can never overflow.

use vstd::prelude::*;
use vstd::arithmetic::div_mod::{
    lemma_div_is_ordered, lemma_div_is_ordered_by_denominator, lemma_div_multiples_vanish,
    lemma_div_pos_is_pos,
};

verus! {

/// Number of fixed-point sub-units per world unit.
pub const SCALE: i128 = 1000;

/// Saturation bound on every stored scalar.
pub const SAT_MAX: i128 = 1_000_000_000_000_000;

/// A scalar the simulator may store.
pub open spec fn in_range(v: int) -> bool {
    -(SAT_MAX as int) <= v && v <= SAT_MAX as int
}

/// Absolute value.
pub open spec fn iabs(v: int) -> int {
    if v < 0 {
        -v
    } else {
        v
    }
}

/// Clamp into `[-SAT_MAX, SAT_MAX]`.
pub open spec fn sat_s(v: int) -> int {
    if v > SAT_MAX as int {
        SAT_MAX as int
    } else if v < -(SAT_MAX as int) {
        -(SAT_MAX as int)
    } else {
        v
    }
}

/// Division rounded toward zero (the rounding of Rust's `/` operator),
/// meant for positive divisors.
pub open spec fn div_trunc(p: int, d: int) -> int {
    if p >= 0 {
        p / d
    } else {
        -((-p) / d)
    }
}

/// Fixed-point product: `a` scaled by the fixed-point factor `b`.
pub open spec fn mul_scale_s(a: int, b: int) -> int {
    div_trunc(a * b, SCALE as int)
}

/// Truncating division never grows past a known multiple of the divisor:
/// if `|p| <= k * d` then `|p / d| <= k`.
pub proof fn lemma_div_trunc_bound(p: int, d: int, k: int)
    requires
        1 <= d,
        0 <= k,
        iabs(p) <= k * d,
    ensures
        iabs(div_trunc(p, d)) <= k,
        -k <= div_trunc(p, d) <= k,
{
    assert(k * d == d * k) by (nonlinear_arith);
    lemma_div_multiples_vanish(k, d);
    assert((k * d) / d == k);
    if p >= 0 {
        lemma_div_pos_is_pos(p, d);
        lemma_div_is_ordered(p, k * d, d);
        assert(p / d <= k);
        assert(div_trunc(p, d) == p / d);
    } else {
        lemma_div_pos_is_pos(-p, d);
        lemma_div_is_ordered(-p, k * d, d);
        assert((-p) / d <= k);
        assert(div_trunc(p, d) == -((-p) / d));
    }
}

/// Scaling by a factor of at most one never grows a magnitude.
pub proof fn lemma_mul_scale_mag(a: int, b: int)
    requires
        0 <= b <= SCALE as int,
    ensures
        iabs(mul_scale_s(a, b)) <= iabs(a),
{
    assert(iabs(a * b) <= iabs(a) * (SCALE as int)) by (nonlinear_arith)
        requires
            0 <= b <= SCALE as int,
    ;
    lemma_div_trunc_bound(a * b, SCALE as int, iabs(a));
}

/// Scaling by the full factor `SCALE` is the identity.
pub proof fn lemma_mul_scale_identity(v: int)
    ensures
        mul_scale_s(v, SCALE as int) == v,
{
    if v >= 0 {
        lemma_div_multiples_vanish(v, SCALE as int);
    } else {
        lemma_div_multiples_vanish(-v, SCALE as int);
    }
}

/// Largest input the integer square root accepts: enough for the
/// squared distance between any two stored points.
pub const SQRT_IN_MAX: i128 = 8_000_000_000_000_000_000_000_000_000_000;

/// Upper bound used by the square-root search; its square exceeds
/// `SQRT_IN_MAX`.
pub const SQRT_OUT_MAX: i128 = 3_000_000_000_000_000;

/// The integer square root: the largest `r` with `r * r <= n`.
pub open spec fn sqrt_floor(n: int) -> int
    decreases n,
{
    if n <= 0 {
        0
    } else {
        let r = sqrt_floor(n - 1);
        if (r + 1) * (r + 1) <= n {
            r + 1
        } else {
            r
        }
    }
}

/// `sqrt_floor(n)` squares to at most `n`, and is the largest such value.
pub proof fn lemma_sqrt_floor_bounds(n: int)
    requires
        0 <= n,
    ensures
        0 <= sqrt_floor(n),
        sqrt_floor(n) * sqrt_floor(n) <= n,
        n < (sqrt_floor(n) + 1) * (sqrt_floor(n) + 1),
    decreases n,
{
    if n == 0 {
    } else {
        lemma_sqrt_floor_bounds(n - 1);
        let r = sqrt_floor(n - 1);
        if (r + 1) * (r + 1) <= n {
            assert(n <= (r + 1) * (r + 1)) by (nonlinear_arith)
                requires
                    n - 1 < (r + 1) * (r + 1),
            ;
            assert((r + 1) * (r + 1) < (r + 2) * (r + 2)) by (nonlinear_arith)
                requires
                    0 <= r,
            ;
        }
    }
}

/// Any `r` with `r * r <= n < (r + 1) * (r + 1)` is the integer square root.
pub proof fn lemma_sqrt_floor_unique(n: int, r: int)
    requires
        0 <= n,
        0 <= r,
        r * r <= n,
        n < (r + 1) * (r + 1),
    ensures
        r == sqrt_floor(n),
{
    lemma_sqrt_floor_bounds(n);
    let s = sqrt_floor(n);
    assert(r < s ==> (r + 1) * (r + 1) <= s * s) by (nonlinear_arith)
        requires
            0 <= r,
            0 <= s,
    ;
    assert(s < r ==> (s + 1) * (s + 1) <= r * r) by (nonlinear_arith)
        requires
            0 <= r,
            0 <= s,
    ;
}

/// The integer square root of a non-negative scalar, by binary search.
pub fn isqrt(n: i128) -> (r: i128)
    requires
        0 <= n as int <= SQRT_IN_MAX as int,
    ensures
        r as int == sqrt_floor(n as int),
        0 <= r as int <= SQRT_OUT_MAX as int,
{
    proof {
        lemma_sqrt_floor_bounds(n as int);
    }
    if n == 0 {
        return 0;
    }
    let mut lo: i128 = 0;
    let mut hi: i128 = SQRT_OUT_MAX + 1;
    proof {
        assert((SQRT_OUT_MAX as int + 1) * (SQRT_OUT_MAX as int + 1) > SQRT_IN_MAX as int)
            by (nonlinear_arith);
    }
    while lo + 1 < hi
        invariant
            0 <= lo as int,
            (lo as int) < hi as int,
            (hi as int) <= SQRT_OUT_MAX as int + 1,
            (lo as int) * (lo as int) <= n as int,
            (n as int) < (hi as int) * (hi as int),
        decreases hi as int - lo as int,
    {
        let gap: i128 = hi - lo;
        let mid: i128 = lo + div_q(gap, 2);
        proof {
            lemma_div_pos_is_pos(gap as int, 2);
            lemma_div_is_ordered(2, gap as int, 2);
            lemma_div_is_ordered_by_denominator(gap as int, 1, 2);
            assert(gap as int / 2 < gap as int);
            assert((lo as int) < mid as int);
            assert((mid as int) < hi as int);
            assert(0 <= (mid as int) * (mid as int) && (mid as int) * (mid as int) <= (
            SQRT_OUT_MAX as int + 1) * (SQRT_OUT_MAX as int + 1)) by (nonlinear_arith)
                requires
                    0 <= mid as int,
                    (mid as int) <= SQRT_OUT_MAX as int + 1,
            ;
            assert((SQRT_OUT_MAX as int + 1) * (SQRT_OUT_MAX as int + 1) < i128::MAX as int)
                by (nonlinear_arith);
        }
        let sq: i128 = mid * mid;
        if sq <= n {
            lo = mid;
        } else {
            hi = mid;
        }
    }
    proof {
        lemma_sqrt_floor_unique(n as int, lo as int);
    }
    lo
}

/// Clamp a raw scalar into the stored band.
pub fn sat(v: i128) -> (r: i128)
    ensures
        r as int == sat_s(v as int),
        in_range(r as int),
{
    if v > SAT_MAX {
        SAT_MAX
    } else if v < -SAT_MAX {
        -SAT_MAX
    } else {
        v
    }
}

/// Absolute value of an in-band scalar.
pub fn abs_i128(v: i128) -> (r: i128)
    requires
        -(i128::MAX as int) <= v as int,
    ensures
        r as int == iabs(v as int),
{
    if v < 0 {
        -v
    } else {
        v
    }
}

/// Division rounded toward zero, computed on magnitudes.
pub fn div_q(p: i128, d: i128) -> (r: i128)
    requires
        1 <= d as int,
        -(i128::MAX as int) <= p as int,
    ensures
        r as int == div_trunc(p as int, d as int),
{
    if p >= 0 {
        let q: u128 = (p as u128) / (d as u128);
        proof {
            lemma_div_pos_is_pos(p as int, d as int);
            lemma_div_is_ordered_by_denominator(p as int, 1, d as int);
        }
        q as i128
    } else {
        let m: i128 = -p;
        let q: u128 = (m as u128) / (d as u128);
        proof {
            lemma_div_pos_is_pos(m as int, d as int);
            lemma_div_is_ordered_by_denominator(m as int, 1, d as int);
        }
        -(q as i128)
    }
}

/// Fixed-point product of an in-band scalar `a` and a factor
/// `b` between zero and one (`0 <= b <= SCALE`); the result keeps
/// the magnitude of `a` or shrinks it.
pub fn mul_scale(a: i128, b: i128) -> (r: i128)
    requires
        in_range(a as int),
        0 <= b as int <= SCALE as int,
    ensures
        r as int == mul_scale_s(a as int, b as int),
        iabs(r as int) <= iabs(a as int),
        in_range(r as int),
        a as int >= 0 ==> r as int >= 0,
{
    proof {
        assert((a as int) * (b as int) <= iabs(a as int) * (SCALE as int)
            && (a as int) * (b as int) >= -(iabs(a as int) * (SCALE as int))
            && iabs((a as int) * (b as int)) <= iabs(a as int) * (SCALE as int)) by (nonlinear_arith)
            requires
                -(SAT_MAX as int) <= a as int <= SAT_MAX as int,
                0 <= b as int <= SCALE as int,
        ;
        assert(iabs(a as int) * (SCALE as int) <= (SAT_MAX as int) * (SCALE as int)) by (nonlinear_arith)
            requires
                iabs(a as int) <= SAT_MAX as int,
                0 <= iabs(a as int),
        ;
        lemma_div_trunc_bound((a as int) * (b as int), SCALE as int, iabs(a as int));
        if a as int >= 0 && (a as int) * (b as int) >= 0 {
            lemma_div_pos_is_pos((a as int) * (b as int), SCALE as int);
        }
        assert(a as int >= 0 ==> (a as int) * (b as int) >= 0) by (nonlinear_arith)
            requires
                0 <= b as int,
        ;
    }
    let p: i128 = a * b;
    div_q(p, SCALE)
}

} // verus!
