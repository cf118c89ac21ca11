//! Fixed-point scalars.
//!
//! Every length, coordinate and radius of the simulation is a signed integer
//! that counts trillionths of a world unit: one unit is a world unit divided
//! by ten to the twelfth. Products and quotients are formed in 128-bit
//! integers, quotients round toward zero, and a value that is stored as a
//! coordinate is first brought back into the world's range.

use vstd::prelude::*;

verus! {

/// Fixed-point units per world unit: the integer `c` stands for `c / SCALE`.
pub const SCALE: i64 = 1_000_000_000_000;

/// The world reaches from `-COORD_LIMIT` to `COORD_LIMIT` on each axis, a
/// million world units either way. A
/// coordinate that a computation would carry past that edge stays on it.
pub const COORD_LIMIT: i64 = 1_000_000_000_000_000_000;

/// `v` lies inside the world's range.
pub open spec fn in_world(v: int) -> bool {
    -COORD_LIMIT <= v <= COORD_LIMIT
}

/// The value of the world's range that is nearest to `v`.
pub open spec fn clamp_coord(v: int) -> int {
    if v < -COORD_LIMIT {
        -(COORD_LIMIT as int)
    } else if v > COORD_LIMIT {
        COORD_LIMIT as int
    } else {
        v
    }
}

/// The quotient of `a` by a positive `b`, rounded toward zero.
pub open spec fn div_trunc(a: int, b: int) -> int
    recommends
        b > 0,
{
    if a >= 0 {
        a / b
    } else {
        -((-a) / b)
    }
}

/// The absolute value of `v`.
pub open spec fn abs(v: int) -> int {
    if v >= 0 {
        v
    } else {
        -v
    }
}

/// `r` is the integer part of the square root of `n`.
pub open spec fn is_floor_sqrt(n: int, r: int) -> bool {
    0 <= r && r * r <= n < (r + 1) * (r + 1)
}

/// The integer part of the square root of a nonnegative `n`.
pub open spec fn floor_sqrt(n: int) -> int
    recommends
        n >= 0,
{
    choose|r: int| is_floor_sqrt(n, r)
}

/// Every nonnegative integer has an integer square root.
pub proof fn lemma_floor_sqrt_exists(n: int)
    requires
        n >= 0,
    ensures
        exists|r: int| is_floor_sqrt(n, r),
    decreases n,
{
    if n == 0 {
        assert(is_floor_sqrt(0, 0));
    } else {
        let m = n - 1;
        lemma_floor_sqrt_exists(m);
        let r = choose|r: int| is_floor_sqrt(m, r);
        if (r + 1) * (r + 1) <= n {
            assert((r + 2) * (r + 2) > (r + 1) * (r + 1)) by (nonlinear_arith)
                requires
                    r >= 0,
            ;
            assert(is_floor_sqrt(n, r + 1));
        } else {
            assert(is_floor_sqrt(n, r));
        }
    }
}

/// An integer has at most one integer square root.
pub proof fn lemma_floor_sqrt_unique(n: int, r1: int, r2: int)
    requires
        is_floor_sqrt(n, r1),
        is_floor_sqrt(n, r2),
    ensures
        r1 == r2,
{
    if r1 < r2 {
        assert((r1 + 1) * (r1 + 1) <= r2 * r2) by (nonlinear_arith)
            requires
                0 <= r1,
                r1 + 1 <= r2,
        ;
    } else if r2 < r1 {
        assert((r2 + 1) * (r2 + 1) <= r1 * r1) by (nonlinear_arith)
            requires
                0 <= r2,
                r2 + 1 <= r1,
        ;
    }
}

/// `floor_sqrt(n)` is the integer square root of a nonnegative `n`.
pub proof fn lemma_floor_sqrt(n: int)
    requires
        n >= 0,
    ensures
        is_floor_sqrt(n, floor_sqrt(n)),
{
    lemma_floor_sqrt_exists(n);
}

/// Whatever passes for the integer square root of `n` is `floor_sqrt(n)`.
pub proof fn lemma_floor_sqrt_is(n: int, r: int)
    requires
        is_floor_sqrt(n, r),
    ensures
        floor_sqrt(n) == r,
{
    lemma_floor_sqrt_unique(n, r, floor_sqrt(n));
}

/// The integer square root does not exceed `m` exactly when `n` stays below
/// the square of `m + 1`.
pub proof fn lemma_floor_sqrt_le(n: int, m: int)
    requires
        n >= 0,
        m >= 0,
    ensures
        floor_sqrt(n) <= m <==> n < (m + 1) * (m + 1),
{
    lemma_floor_sqrt(n);
    let r = floor_sqrt(n);
    if r <= m {
        assert((r + 1) * (r + 1) <= (m + 1) * (m + 1)) by (nonlinear_arith)
            requires
                0 <= r <= m,
        ;
    } else {
        assert((m + 1) * (m + 1) <= r * r) by (nonlinear_arith)
            requires
                0 <= m,
                m + 1 <= r,
        ;
    }
}

/// A quotient rounded toward zero has the sign of its dividend, is no larger
/// in magnitude than the exact quotient, and misses it by less than one; it
/// is zero exactly where the dividend is smaller in magnitude than the
/// divisor.
pub proof fn lemma_div_trunc_bounds(a: int, b: int)
    requires
        b > 0,
    ensures
        a >= 0 ==> div_trunc(a, b) >= 0,
        a <= 0 ==> div_trunc(a, b) <= 0,
        abs(div_trunc(a, b)) * b <= abs(a),
        abs(a) < (abs(div_trunc(a, b)) + 1) * b,
        abs(div_trunc(a, b)) == abs(a) / b,
        div_trunc(a, b) == 0 <==> abs(a) < b,
{
    let m = abs(a);
    vstd::arithmetic::div_mod::lemma_fundamental_div_mod(m, b);
    vstd::arithmetic::div_mod::lemma_mod_bound(m, b);
    vstd::arithmetic::div_mod::lemma_div_pos_is_pos(m, b);
    let q = m / b;
    assert(b * q + m % b == m);
    assert(q * b == b * q) by (nonlinear_arith);
    assert((q + 1) * b == q * b + b) by (nonlinear_arith);
    if q >= 1 {
        assert(q * b >= b) by (nonlinear_arith)
            requires
                q >= 1,
                b > 0,
        ;
    } else {
        assert(q * b == 0) by (nonlinear_arith)
            requires
                q == 0,
        ;
    }
}

/// Rounding toward zero commutes with negation.
pub proof fn lemma_div_trunc_negate(a: int, b: int)
    requires
        b > 0,
    ensures
        div_trunc(-a, b) == -div_trunc(a, b),
{
    if a == 0 {
        assert(0int / b == 0) by (nonlinear_arith)
            requires
                b > 0,
        ;
    }
}

/// Brings a wide intermediate value back into the world's range.
pub fn saturate(v: i128) -> (r: i64)
    ensures
        r == clamp_coord(v as int),
        in_world(r as int),
{
    if v < -(COORD_LIMIT as i128) {
        -COORD_LIMIT
    } else if v > COORD_LIMIT as i128 {
        COORD_LIMIT
    } else {
        v as i64
    }
}

/// The integer part of the square root of `n`, found by bisection.
pub fn isqrt(n: u128) -> (r: u64)
    ensures
        r == floor_sqrt(n as int),
{
    let mut lo: u128 = 0;
    let mut hi: u128 = 0x1_0000_0000_0000_0000;
    assert(0x1_0000_0000_0000_0000int * 0x1_0000_0000_0000_0000int > u128::MAX) by (nonlinear_arith);
    while hi - lo > 1
        invariant
            lo < hi <= 0x1_0000_0000_0000_0000,
            lo * lo <= n < hi * hi,
        decreases hi - lo,
    {
        let mid: u128 = lo + (hi - lo) / 2;
        assert(mid * mid <= u128::MAX) by (nonlinear_arith)
            requires
                0 <= mid <= 0xffff_ffff_ffff_ffff,
        ;
        if mid * mid <= n {
            lo = mid;
        } else {
            hi = mid;
        }
    }
    proof {
        lemma_floor_sqrt_is(n as int, lo as int);
    }
    lo as u64
}

} // verus!
