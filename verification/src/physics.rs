//! Scalar physics helpers over exact integer arithmetic.
//!
//! All quantities are fixed-point values: one unit of length, mass or charge
//! is `crate::constants::FIXED_POINT_SCALE` quanta. The helpers here are
//! integer functions whose contracts pin the result exactly.

pub mod bodies;
pub mod nbody;
pub mod simulation;
pub mod vector;

use vstd::prelude::*;

verus! {

/// Truncating signed division, the semantics of Rust's `/` on integers,
/// written over Euclidean spec division.
pub open spec fn div_trunc(n: int, d: int) -> int
    recommends
        d > 0,
{
    if n >= 0 {
        n / d
    } else {
        -((-n) / d)
    }
}

/// Exact absolute difference of two machine integers.
pub fn abs_diff_i64(a: i64, b: i64) -> (r: u64)
    ensures
        r == if a >= b {
            a - b
        } else {
            b - a
        },
{
    let wide: i128 = (a as i128) - (b as i128);
    if wide >= 0 {
        wide as u64
    } else {
        (-wide) as u64
    }
}

/// Products of nonnegative factors grow monotonically in each factor.
pub proof fn lemma_mul_le(a: int, b: int, c: int, d: int)
    requires
        0 <= a <= c,
        0 <= b <= d,
    ensures
        a * b <= c * d,
{
    assert(a * b <= c * d) by (nonlinear_arith)
        requires
            0 <= a <= c && 0 <= b <= d,
    ;
}

/// A product respects the product of symmetric bounds on its factors.
pub proof fn lemma_mul_abs_bound(a: int, b: int, ab: int, bb: int)
    requires
        -ab <= a <= ab,
        -bb <= b <= bb,
    ensures
        -(ab * bb) <= a * b <= ab * bb,
{
    assert(-(ab * bb) <= a * b <= ab * bb) by (nonlinear_arith)
        requires
            -ab <= a <= ab && -bb <= b <= bb,
    ;
}

/// A product with a nonnegative factor respects a symmetric bound on the
/// other factor.
pub proof fn lemma_mul_signed_bound(m: int, v: int, vb: int)
    requires
        0 <= m,
        -vb <= v <= vb,
    ensures
        -(m * vb) <= m * v <= m * vb,
{
    assert(-(m * vb) <= m * v <= m * vb) by (nonlinear_arith)
        requires
            0 <= m && -vb <= v <= vb,
    ;
}

/// Truncating division by a positive divisor never grows the magnitude.
pub proof fn lemma_div_trunc_abs_bound(n: int, d: int, nb: int)
    requires
        d >= 1,
        -nb <= n <= nb,
    ensures
        -nb <= div_trunc(n, d) <= nb,
{
    if n >= 0 {
        assert(0 <= n / d <= n) by (nonlinear_arith)
            requires
                n >= 0 && d >= 1,
        ;
    } else {
        assert(0 <= (-n) / d <= -n) by (nonlinear_arith)
            requires
                -n >= 0 && d >= 1,
        ;
    }
}

/// Exact integer square root: the unique `r` with `r * r <= n < (r + 1) * (r + 1)`.
pub fn isqrt(n: u128) -> (r: u64)
    ensures
        (r * r) as int <= n as int,
        n < (r + 1) * (r + 1),
{
    let mut lo: u64 = 0;
    let mut hi: u64 = u64::MAX;
    proof {
        assert((u64::MAX + 1) * (u64::MAX + 1) > u128::MAX as int) by (nonlinear_arith);
    }
    while hi - lo > 1
        invariant
            lo <= hi,
            (lo * lo) as int <= n as int,
            n < (hi + 1) * (hi + 1),
        decreases hi - lo,
    {
        let mid: u64 = lo + (hi - lo) / 2;
        proof {
            lemma_mul_le(mid as int, mid as int, u64::MAX as int, u64::MAX as int);
        }
        let sq: u128 = (mid as u128) * (mid as u128);
        if sq <= n {
            lo = mid;
        } else {
            proof {
                assert(n < (mid + 1) * (mid + 1)) by (nonlinear_arith)
                    requires
                        n < mid * mid,
                ;
            }
            hi = mid;
        }
    }
    if hi - lo == 1 {
        proof {
            lemma_mul_le(hi as int, hi as int, u64::MAX as int, u64::MAX as int);
        }
        let sq: u128 = (hi as u128) * (hi as u128);
        if sq <= n {
            return hi;
        }
    }
    lo
}

/// The integer square root, rounded down, as a recursive specification:
/// the unique `r >= 0` with `r * r <= n < (r + 1) * (r + 1)`.
pub open spec fn spec_sqrt_floor(n: int) -> int
    recommends
        n >= 0,
    decreases n,
{
    if n <= 0 {
        0
    } else {
        let p = spec_sqrt_floor(n - 1);
        if (p + 1) * (p + 1) <= n {
            p + 1
        } else {
            p
        }
    }
}

/// `spec_sqrt_floor` brackets its argument between consecutive squares.
pub proof fn lemma_sqrt_floor_props(n: int)
    requires
        n >= 0,
    ensures
        spec_sqrt_floor(n) >= 0,
        spec_sqrt_floor(n) * spec_sqrt_floor(n) <= n,
        n < (spec_sqrt_floor(n) + 1) * (spec_sqrt_floor(n) + 1),
    decreases n,
{
    if n > 0 {
        lemma_sqrt_floor_props(n - 1);
        let p = spec_sqrt_floor(n - 1);
        if (p + 1) * (p + 1) <= n {
            assert(n - 1 < (p + 1) * (p + 1));
            assert(n < (p + 2) * (p + 2)) by (nonlinear_arith)
                requires
                    n <= (p + 1) * (p + 1) && p >= 0,
            ;
        }
    }
}

/// Any integer bracketed between the same consecutive squares is the
/// square root: the bracketing pins it down uniquely.
pub proof fn lemma_sqrt_floor_unique(n: int, r: int)
    requires
        n >= 0,
        r >= 0,
        r * r <= n,
        n < (r + 1) * (r + 1),
    ensures
        r == spec_sqrt_floor(n),
{
    lemma_sqrt_floor_props(n);
    let s = spec_sqrt_floor(n);
    if r < s {
        assert((r + 1) * (r + 1) <= s * s) by (nonlinear_arith)
            requires
                0 <= r && r + 1 <= s,
        ;
    }
    if s < r {
        assert((s + 1) * (s + 1) <= r * r) by (nonlinear_arith)
            requires
                0 <= s && s + 1 <= r,
        ;
    }
}

/// Euclidean distance between two points, rounded down to an integer:
/// the unique `r` with `r² <= (x1-x2)² + (y1-y2)² < (r+1)²`.
pub fn calculate_distance(p1: (i64, i64), p2: (i64, i64)) -> (r: u64)
    requires
        -(i64::MAX / 2) <= p1.0 <= i64::MAX / 2,
        -(i64::MAX / 2) <= p1.1 <= i64::MAX / 2,
        -(i64::MAX / 2) <= p2.0 <= i64::MAX / 2,
        -(i64::MAX / 2) <= p2.1 <= i64::MAX / 2,
    ensures
        (r * r) as int <= (p1.0 - p2.0) * (p1.0 - p2.0) + (p1.1 - p2.1) * (p1.1 - p2.1),
        (p1.0 - p2.0) * (p1.0 - p2.0) + (p1.1 - p2.1) * (p1.1 - p2.1) < (r + 1) * (r + 1),
{
    let dx: u64 = abs_diff_i64(p1.0, p2.0);
    let dy: u64 = abs_diff_i64(p1.1, p2.1);
    proof {
        lemma_mul_le(dx as int, dx as int, i64::MAX as int, i64::MAX as int);
        lemma_mul_le(dy as int, dy as int, i64::MAX as int, i64::MAX as int);
    }
    let d2: u128 = (dx as u128) * (dx as u128) + (dy as u128) * (dy as u128);
    proof {
        assert((dx as int) * (dx as int) == (p1.0 - p2.0) * (p1.0 - p2.0)
            && (dy as int) * (dy as int) == (p1.1 - p2.1) * (p1.1 - p2.1)) by (nonlinear_arith)
            requires
                dx == if p1.0 >= p2.0 {
                    p1.0 - p2.0
                } else {
                    p2.0 - p1.0
                },
                dy == if p1.1 >= p2.1 {
                    p1.1 - p2.1
                } else {
                    p2.1 - p1.1
                },
        ;
    }
    isqrt(d2)
}

/// Magnitude of a 2-component vector, rounded down to an integer.
pub fn magnitude(v: (i64, i64)) -> (r: u64)
    requires
        -(i64::MAX / 2) <= v.0 <= i64::MAX / 2,
        -(i64::MAX / 2) <= v.1 <= i64::MAX / 2,
    ensures
        (r * r) as int <= v.0 * v.0 + v.1 * v.1,
        v.0 * v.0 + v.1 * v.1 < (r + 1) * (r + 1),
{
    calculate_distance(v, (0, 0))
}

/// Kinetic energy `m * v² / 2` of a body with mass `m` and speed `v`.
pub fn calculate_kinetic_energy(m: i64, v: i64) -> (r: i64)
    requires
        0 <= m,
        m * v * v <= i64::MAX,
    ensures
        r == m * v * v / 2,
{
    proof {
        assert(0 <= m * v * v <= i64::MAX && m * (v * v) == m * v * v) by (nonlinear_arith)
            requires
                0 <= m && m * v * v <= i64::MAX,
        ;
    }
    proof {
        assert((v as i128) * (v as i128) <= i128::MAX && (v as i128) * (v as i128) >= 0)
            by (nonlinear_arith)
            requires
                i64::MIN <= v <= i64::MAX,
        ;
    }
    let vv: i128 = (v as i128) * (v as i128);
    let e: i128 = (m as i128) * vv / 2;
    e as i64
}

/// Momentum `m * v` of a body with mass `m` and speed `v`.
pub fn calculate_momentum(m: i64, v: i64) -> (r: i64)
    requires
        i64::MIN <= m * v <= i64::MAX,
    ensures
        r == m * v,
{
    let p: i128 = (m as i128) * (v as i128);
    p as i64
}

} // verus!
