//! Fixed-point scalars.
//!
//! A scalar is an `i64` counting units of `1 / ONE`. Every operation is total:
//! results are rounded toward zero and saturate at `±LIMIT`, which plays the
//! part that infinity plays for floating point.

use vstd::prelude::*;

verus! {

/// The raw value of `1.0`.
pub const ONE: i64 = 268435456;

/// The largest magnitude a result can have.
pub const LIMIT: i64 = 1152921504606846976;

/// Clamps a mathematical value into `[-LIMIT, LIMIT]`.
pub open spec fn sat(x: int) -> int {
    if x > LIMIT {
        LIMIT as int
    } else if x < -LIMIT {
        -LIMIT
    } else {
        x
    }
}

pub open spec fn in_range(x: int) -> bool {
    -LIMIT <= x <= LIMIT
}

pub open spec fn abs(x: int) -> int {
    if x < 0 {
        -x
    } else {
        x
    }
}

/// The quotient rounded toward zero.
pub open spec fn quot(a: int, b: int) -> int {
    if (a >= 0) == (b > 0) {
        abs(a) / abs(b)
    } else {
        -(abs(a) / abs(b))
    }
}

pub open spec fn fadd(a: int, b: int) -> int {
    sat(a + b)
}

pub open spec fn fsub(a: int, b: int) -> int {
    sat(a - b)
}

pub open spec fn fneg(a: int) -> int {
    sat(-a)
}

pub open spec fn fmul(a: int, b: int) -> int {
    sat(quot(a * b, ONE as int))
}

/// Division; a zero divisor gives the saturated value of the dividend's sign.
pub open spec fn fdiv(a: int, b: int) -> int {
    if b == 0 {
        if a > 0 {
            LIMIT as int
        } else if a < 0 {
            -LIMIT
        } else {
            0
        }
    } else {
        sat(quot(a * ONE, b))
    }
}

pub open spec fn fmin(a: int, b: int) -> int {
    if a <= b {
        a
    } else {
        b
    }
}

pub open spec fn is_root(n: int, r: int) -> bool {
    0 <= r && r * r <= n < (r + 1) * (r + 1)
}

/// The integer square root of `n`, rounded down.
pub open spec fn isqrt(n: int) -> int {
    choose|r: int| is_root(n, r)
}

/// The square root; a negative argument gives zero.
pub open spec fn fsqrt(a: int) -> int {
    if a <= 0 {
        0
    } else {
        isqrt(a * ONE)
    }
}

proof fn lemma_root_unique(n: int, r: int, s: int)
    requires
        is_root(n, r),
        is_root(n, s),
    ensures
        r == s,
{
    if r < s {
        assert((r + 1) * (r + 1) <= s * s) by (nonlinear_arith)
            requires
                0 <= r < s,
        ;
    } else if s < r {
        assert((s + 1) * (s + 1) <= r * r) by (nonlinear_arith)
            requires
                0 <= s < r,
        ;
    }
}

/// Any root found is the one that `isqrt` names.
pub proof fn lemma_isqrt(n: int, r: int)
    requires
        is_root(n, r),
    ensures
        isqrt(n) == r,
{
    let s = isqrt(n);
    assert(is_root(n, s));
    lemma_root_unique(n, r, s);
}

/// Every natural number has an integer square root.
pub proof fn lemma_root_exists(n: int)
    requires
        n >= 0,
    ensures
        is_root(n, isqrt(n)),
    decreases n,
{
    if n == 0 {
        assert(is_root(0, 0));
    } else {
        lemma_root_exists(n - 1);
        let r = isqrt(n - 1);
        if (r + 1) * (r + 1) <= n {
            assert((r + 1) * (r + 1) == n);
            assert(n < (r + 2) * (r + 2)) by (nonlinear_arith)
                requires
                    (r + 1) * (r + 1) == n,
                    r >= 0,
            ;
            assert(is_root(n, r + 1));
        } else {
            assert(is_root(n, r));
        }
    }
}

pub proof fn lemma_fsqrt_nonneg(a: int)
    ensures
        fsqrt(a) >= 0,
{
    if a > 0 {
        assert(a * ONE > 0) by (nonlinear_arith)
            requires
                a > 0,
                ONE > 0,
        ;
        lemma_root_exists(a * ONE);
    }
}

/// Division by `ONE` rounded toward zero is off by less than one unit.
pub proof fn lemma_quot_one(p: int)
    ensures
        -ONE < p - quot(p, ONE as int) * ONE < ONE,
        p >= 0 ==> 0 <= p - quot(p, ONE as int) * ONE,
        p >= 0 ==> quot(p, ONE as int) == p / (ONE as int),
{
    let q = abs(p) / (ONE as int);
    assert(q * ONE <= abs(p) < q * ONE + ONE) by (nonlinear_arith)
        requires
            q == abs(p) / (ONE as int),
            abs(p) >= 0,
            ONE > 0,
    ;
}

fn sat_wide(x: i128) -> (r: i64)
    ensures
        r == sat(x as int),
{
    if x > LIMIT as i128 {
        LIMIT
    } else if x < -(LIMIT as i128) {
        -LIMIT
    } else {
        x as i64
    }
}

fn quot_wide(a: i128, b: i128) -> (r: i128)
    requires
        b != 0,
        -0x7fff_ffff_ffff_ffff_ffff_ffff_ffff_ffff <= a,
        -0x7fff_ffff_ffff_ffff_ffff_ffff_ffff_ffff <= b,
    ensures
        r == quot(a as int, b as int),
{
    let ua: u128 = if a >= 0 { a as u128 } else { (-a) as u128 };
    let ub: u128 = if b >= 0 { b as u128 } else { (-b) as u128 };
    let q: u128 = ua / ub;
    assert(q <= ua) by (nonlinear_arith)
        requires
            q == ua / ub,
            ub > 0,
    ;
    if (a >= 0) == (b > 0) {
        q as i128
    } else {
        -(q as i128)
    }
}

pub fn fx_add(a: i64, b: i64) -> (r: i64)
    ensures
        r == fadd(a as int, b as int),
{
    sat_wide(a as i128 + b as i128)
}

pub fn fx_sub(a: i64, b: i64) -> (r: i64)
    ensures
        r == fsub(a as int, b as int),
{
    sat_wide(a as i128 - b as i128)
}

pub fn fx_neg(a: i64) -> (r: i64)
    ensures
        r == fneg(a as int),
{
    sat_wide(-(a as i128))
}

pub fn fx_mul(a: i64, b: i64) -> (r: i64)
    ensures
        r == fmul(a as int, b as int),
{
    assert(abs(a * b) <= 0x4000_0000_0000_0000_0000_0000_0000_0000) by (nonlinear_arith)
        requires
            -0x8000_0000_0000_0000 <= a <= 0x7fff_ffff_ffff_ffff,
            -0x8000_0000_0000_0000 <= b <= 0x7fff_ffff_ffff_ffff,
    ;
    let p: i128 = a as i128 * b as i128;
    sat_wide(quot_wide(p, ONE as i128))
}

pub fn fx_div(a: i64, b: i64) -> (r: i64)
    ensures
        r == fdiv(a as int, b as int),
{
    if b == 0 {
        if a > 0 {
            LIMIT
        } else if a < 0 {
            -LIMIT
        } else {
            0
        }
    } else {
        assert(abs(a * ONE) <= 0x1000_0000_0000_0000_0000_0000) by (nonlinear_arith)
            requires
                -0x8000_0000_0000_0000 <= a <= 0x7fff_ffff_ffff_ffff,
                ONE == 268435456,
        ;
        sat_wide(quot_wide(a as i128 * ONE as i128, b as i128))
    }
}

/// Division by a positive divisor that may exceed the range of a scalar.
pub fn fx_div_wide(a: i64, b: u64) -> (r: i64)
    requires
        b > 0,
    ensures
        r == fdiv(a as int, b as int),
{
    assert(abs(a * ONE) <= 0x1000_0000_0000_0000_0000_0000) by (nonlinear_arith)
        requires
            -0x8000_0000_0000_0000 <= a <= 0x7fff_ffff_ffff_ffff,
            ONE == 268435456,
    ;
    sat_wide(quot_wide(a as i128 * ONE as i128, b as i128))
}

/// Multiplication by a whole number, saturating.
pub fn fx_times(a: i64, k: i64) -> (r: i64)
    requires
        1 <= k <= 0x200_0000,
    ensures
        r == sat(a * k),
{
    assert(abs(a * k) <= 0x100_0000_0000_0000_0000_0000) by (nonlinear_arith)
        requires
            -0x8000_0000_0000_0000 <= a <= 0x7fff_ffff_ffff_ffff,
            1 <= k <= 0x200_0000,
    ;
    sat_wide(a as i128 * k as i128)
}

pub fn fx_min(a: i64, b: i64) -> (r: i64)
    ensures
        r == fmin(a as int, b as int),
{
    if a <= b {
        a
    } else {
        b
    }
}

/// The integer square root of `n`, by bisection.
pub fn isqrt_u128(n: u128) -> (r: u128)
    ensures
        is_root(n as int, r as int),
        r < 0x1_0000_0000_0000_0000,
{
    let mut lo: u128 = 0;
    let mut hi: u128 = 0x1_0000_0000_0000_0000;
    assert(n < hi * hi) by (nonlinear_arith)
        requires
            hi == 0x1_0000_0000_0000_0000u128,
            n <= 0xffff_ffff_ffff_ffff_ffff_ffff_ffff_ffffu128,
    ;
    while hi - lo > 1
        invariant
            lo < hi <= 0x1_0000_0000_0000_0000,
            lo * lo <= n,
            n < hi * hi,
        decreases hi - lo,
    {
        let mid: u128 = lo + (hi - lo) / 2;
        assert(mid * mid <= 0xffff_ffff_ffff_fffe_0000_0000_0000_0001) by (nonlinear_arith)
            requires
                mid <= 0xffff_ffff_ffff_ffffu128,
        ;
        if mid * mid <= n {
            lo = mid;
        } else {
            hi = mid;
        }
    }
    assert(hi == lo + 1);
    lo
}

pub fn fx_sqrt(a: i64) -> (r: i64)
    ensures
        r == fsqrt(a as int),
        0 <= r <= LIMIT,
{
    if a <= 0 {
        0
    } else {
        assert(a * ONE < 0x1_0000_0000_0000_0000_0000_0000) by (nonlinear_arith)
            requires
                0 < a < 0x8000_0000_0000_0000,
                ONE == 268435456,
        ;
        let n: u128 = a as u128 * ONE as u128;
        let r = isqrt_u128(n);
        proof {
            lemma_isqrt(n as int, r as int);
            assert(r < 0x1_0000_0000_0000) by (nonlinear_arith)
                requires
                    r * r <= n,
                    n < 0x1_0000_0000_0000_0000_0000_0000,
                    r >= 0,
            ;
        }
        r as i64
    }
}

} // verus!
