//! Three-component vectors used as points, directions and colors.

use vstd::prelude::*;
use crate::fixed::{
    abs, fadd, fdiv, fmul, fneg, fsqrt, fsub, fx_add, fx_div, fx_div_wide, fx_mul, fx_neg, fx_sqrt, fx_sub, in_range,
    is_root, isqrt, isqrt_u128, lemma_isqrt, lemma_quot_one, lemma_root_exists, quot, sat, LIMIT, ONE,
};

verus! {

/// The mathematical value of a vector: three raw fixed-point coordinates.
pub struct V3 {
    pub x: int,
    pub y: int,
    pub z: int,
}

#[derive(Clone, Copy, Debug, PartialEq, Eq, Structural)]
pub struct Vec {
    pub x: i64,
    pub y: i64,
    pub z: i64,
}

pub type Point = Vec;

pub type Color = Vec;

impl View for Vec {
    type V = V3;

    open spec fn view(&self) -> V3 {
        V3 { x: self.x as int, y: self.y as int, z: self.z as int }
    }
}

pub open spec fn v3(x: int, y: int, z: int) -> V3 {
    V3 { x, y, z }
}

pub open spec fn vzero() -> V3 {
    v3(0, 0, 0)
}

pub open spec fn v_in_range(v: V3) -> bool {
    in_range(v.x) && in_range(v.y) && in_range(v.z)
}

pub open spec fn vadd(a: V3, b: V3) -> V3 {
    v3(fadd(a.x, b.x), fadd(a.y, b.y), fadd(a.z, b.z))
}

pub open spec fn vsub(a: V3, b: V3) -> V3 {
    v3(fsub(a.x, b.x), fsub(a.y, b.y), fsub(a.z, b.z))
}

pub open spec fn vneg(a: V3) -> V3 {
    v3(fneg(a.x), fneg(a.y), fneg(a.z))
}

/// Componentwise product, used to tint one color by another.
pub open spec fn vmul(a: V3, b: V3) -> V3 {
    v3(fmul(a.x, b.x), fmul(a.y, b.y), fmul(a.z, b.z))
}

pub open spec fn vscale(a: V3, k: int) -> V3 {
    v3(fmul(a.x, k), fmul(a.y, k), fmul(a.z, k))
}

pub open spec fn vdiv(a: V3, k: int) -> V3 {
    v3(fdiv(a.x, k), fdiv(a.y, k), fdiv(a.z, k))
}

pub open spec fn vdot(a: V3, b: V3) -> int {
    fadd(fadd(fmul(a.x, b.x), fmul(a.y, b.y)), fmul(a.z, b.z))
}

pub open spec fn vcross(a: V3, b: V3) -> V3 {
    v3(
        fsub(fmul(a.y, b.z), fmul(a.z, b.y)),
        fsub(fmul(a.z, b.x), fmul(a.x, b.z)),
        fsub(fmul(a.x, b.y), fmul(a.y, b.x)),
    )
}

pub open spec fn vlen_sq(a: V3) -> int {
    vdot(a, a)
}

/// The sum of the squares of the raw coordinates, exact.
pub open spec fn raw_len_sq(a: V3) -> int {
    a.x * a.x + a.y * a.y + a.z * a.z
}

/// The length, rounded down from the exact value.
pub open spec fn vlen(a: V3) -> int {
    sat(isqrt(raw_len_sq(a)))
}

/// The largest magnitude among the coordinates.
pub open spec fn vmax(a: V3) -> int {
    let m = if abs(a.x) >= abs(a.y) {
        abs(a.x)
    } else {
        abs(a.y)
    };
    if m >= abs(a.z) {
        m
    } else {
        abs(a.z)
    }
}

/// The magnitude from which a vector's direction is computed precisely.
pub const GROWN: i64 = 0x100_0000_0000;

/// How far the largest coordinate is below `GROWN`.
pub open spec fn grow_measure(a: V3) -> int {
    if vmax(a) >= GROWN {
        0
    } else {
        GROWN - vmax(a)
    }
}

/// The vector doubled until its largest coordinate reaches `GROWN`; this
/// leaves its direction as it is. The zero vector stays zero.
pub open spec fn grown(a: V3) -> V3
    decreases grow_measure(a),
{
    if vmax(a) == 0 || vmax(a) >= GROWN {
        a
    } else {
        grown(v3(2 * a.x, 2 * a.y, 2 * a.z))
    }
}

/// The vector of length one in the direction of `a`; zero for the zero vector.
pub open spec fn vunit(a: V3) -> V3 {
    let g = grown(a);
    vdiv(g, isqrt(raw_len_sq(g)))
}

/// `v - 2 (v . n) n`
pub open spec fn vreflect(v: V3, n: V3) -> V3 {
    let d = vdot(v, n);
    vsub(v, vscale(n, fadd(d, d)))
}

/// The part of `v` along the surface, scaled by `eta`.
pub open spec fn refract_parallel(v: V3, n: V3, eta: int) -> V3 {
    vscale(vadd(v, vscale(n, vdot(n, vneg(v)))), eta)
}

/// Snell's law, split into the parts along and across the normal `n`.
pub open spec fn vrefract(v: V3, n: V3, eta: int) -> V3 {
    let par = refract_parallel(v, n, eta);
    vadd(par, vscale(n, fneg(fsqrt(fsub(ONE as int, vlen_sq(par))))))
}

/// Strictly inside the ball of radius one.
pub open spec fn in_unit_ball(v: V3) -> bool {
    vlen_sq(v) < ONE
}

/// Strictly inside the disk of radius one in the plane `z = 0`.
pub open spec fn in_unit_disk(v: V3) -> bool {
    &&& v.z == 0
    &&& vlen_sq(v) < ONE
    &&& -ONE <= v.x <= ONE
    &&& -ONE <= v.y <= ONE
}

/// The largest magnitude among the coordinates.
pub(crate) fn max_magnitude(v: Vec) -> (r: i128)
    ensures
        r == vmax(v@),
{
    let x: i128 = if v.x < 0 { -(v.x as i128) } else { v.x as i128 };
    let y: i128 = if v.y < 0 { -(v.y as i128) } else { v.y as i128 };
    let z: i128 = if v.z < 0 { -(v.z as i128) } else { v.z as i128 };
    let m = if x >= y { x } else { y };
    if m >= z {
        m
    } else {
        z
    }
}

/// The exact sum of the squares of the raw coordinates.
fn raw_length_squared(v: Vec) -> (r: u128)
    ensures
        r == raw_len_sq(v@),
{
    proof {
        let b = 0x8000_0000_0000_0000int;
        lemma_mul_bound(v.x as int, v.x as int, b, b);
        lemma_mul_bound(v.y as int, v.y as int, b, b);
        lemma_mul_bound(v.z as int, v.z as int, b, b);
        assert(v.x * v.x >= 0 && v.y * v.y >= 0 && v.z * v.z >= 0) by (nonlinear_arith);
    }
    let x = (v.x as i128 * v.x as i128) as u128;
    let y = (v.y as i128 * v.y as i128) as u128;
    let z = (v.z as i128 * v.z as i128) as u128;
    x + y + z
}

impl Vec {
    pub fn new(x: i64, y: i64, z: i64) -> (r: Vec)
        ensures
            r@ == v3(x as int, y as int, z as int),
    {
        Vec { x, y, z }
    }

    pub fn zero() -> (r: Vec)
        ensures
            r@ == vzero(),
    {
        Vec { x: 0, y: 0, z: 0 }
    }

    pub fn length(&self) -> (r: i64)
        ensures
            r == vlen(self@),
    {
        let n = raw_length_squared(*self);
        let r = isqrt_u128(n);
        proof {
            lemma_isqrt(n as int, r as int);
        }
        if r > LIMIT as u128 {
            LIMIT
        } else {
            r as i64
        }
    }

    pub fn length_squared(&self) -> (r: i64)
        ensures
            r == vlen_sq(self@),
    {
        self.dot(*self)
    }

    pub fn unit(&self) -> (r: Vec)
        ensures
            r@ == vunit(self@),
    {
        let mut g = *self;
        if max_magnitude(g) == 0 {
            proof {
                lemma_isqrt(0, 0);
            }
            return Vec::zero();
        }
        while max_magnitude(g) < GROWN as i128
            invariant
                grown(g@) == grown(self@),
                vmax(g@) > 0,
            decreases grow_measure(g@),
        {
            g = Vec { x: g.x * 2, y: g.y * 2, z: g.z * 2 };
        }
        let n = raw_length_squared(g);
        let len = isqrt_u128(n);
        proof {
            lemma_isqrt(n as int, len as int);
            lemma_max_square(g@);
            assert(len > 0) by (nonlinear_arith)
                requires
                    is_root(n as int, len as int),
                    n > 0,
            ;
        }
        Vec {
            x: fx_div_wide(g.x, len as u64),
            y: fx_div_wide(g.y, len as u64),
            z: fx_div_wide(g.z, len as u64),
        }
    }

    pub fn dot(self, other: Vec) -> (r: i64)
        ensures
            r == vdot(self@, other@),
    {
        fx_add(fx_add(fx_mul(self.x, other.x), fx_mul(self.y, other.y)), fx_mul(self.z, other.z))
    }

    pub fn reflect(self, normal: Vec) -> (r: Vec)
        ensures
            r@ == vreflect(self@, normal@),
    {
        let d = self.dot(normal);
        self.sub(normal.scale(fx_add(d, d)))
    }

    pub fn refract(self, normal: Vec, etai_etat: i64) -> (r: Vec)
        ensures
            r@ == vrefract(self@, normal@, etai_etat as int),
    {
        let cos_theta = normal.dot(self.neg());
        let r_parallel = self.add(normal.scale(cos_theta)).scale(etai_etat);
        let r_perp = normal.scale(fx_neg(fx_sqrt(fx_sub(ONE, r_parallel.length_squared()))));
        r_parallel.add(r_perp)
    }

    pub fn cross(self, other: Vec) -> (r: Vec)
        ensures
            r@ == vcross(self@, other@),
    {
        Vec {
            x: fx_sub(fx_mul(self.y, other.z), fx_mul(self.z, other.y)),
            y: fx_sub(fx_mul(self.z, other.x), fx_mul(self.x, other.z)),
            z: fx_sub(fx_mul(self.x, other.y), fx_mul(self.y, other.x)),
        }
    }

    pub fn add(self, other: Vec) -> (r: Vec)
        ensures
            r@ == vadd(self@, other@),
    {
        Vec {
            x: fx_add(self.x, other.x),
            y: fx_add(self.y, other.y),
            z: fx_add(self.z, other.z),
        }
    }

    pub fn sub(self, other: Vec) -> (r: Vec)
        ensures
            r@ == vsub(self@, other@),
    {
        Vec {
            x: fx_sub(self.x, other.x),
            y: fx_sub(self.y, other.y),
            z: fx_sub(self.z, other.z),
        }
    }

    /// Componentwise product.
    pub fn mul(self, other: Vec) -> (r: Vec)
        ensures
            r@ == vmul(self@, other@),
    {
        Vec {
            x: fx_mul(self.x, other.x),
            y: fx_mul(self.y, other.y),
            z: fx_mul(self.z, other.z),
        }
    }

    pub fn scale(self, k: i64) -> (r: Vec)
        ensures
            r@ == vscale(self@, k as int),
    {
        Vec { x: fx_mul(self.x, k), y: fx_mul(self.y, k), z: fx_mul(self.z, k) }
    }

    pub fn div(self, k: i64) -> (r: Vec)
        ensures
            r@ == vdiv(self@, k as int),
    {
        Vec { x: fx_div(self.x, k), y: fx_div(self.y, k), z: fx_div(self.z, k) }
    }

    pub fn neg(self) -> (r: Vec)
        ensures
            r@ == vneg(self@),
    {
        Vec { x: fx_neg(self.x), y: fx_neg(self.y), z: fx_neg(self.z) }
    }
}

/// A bound on a product from bounds on its factors.
pub proof fn lemma_mul_bound(a: int, b: int, x: int, y: int)
    requires
        -x <= a <= x,
        -y <= b <= y,
    ensures
        -(x * y) <= a * b <= x * y,
{
    assert(-(x * y) <= a * b <= x * y) by (nonlinear_arith)
        requires
            -x <= a <= x,
            -y <= b <= y,
    ;
}

/// `fmul(a, b)` where the product does not saturate, with its round-off.
pub(crate) proof fn lemma_fmul_exact(a: int, b: int)
    requires
        -0x80_0000_0000_0000_0000_0000 <= a * b <= 0x80_0000_0000_0000_0000_0000,
    ensures
        fmul(a, b) == quot(a * b, ONE as int),
        -ONE < a * b - fmul(a, b) * ONE < ONE,
        a * b >= 0 ==> 0 <= a * b - fmul(a, b) * ONE,
        -0x800_0000_0000_0000 <= fmul(a, b) <= 0x800_0000_0000_0000,
{
    lemma_quot_one(a * b);
}

/// One coordinate of the reflection, multiplied out.
proof fn lemma_reflect_term(vi: int, ni: int, k: int, mi: int, fi: int)
    requires
        mi * ONE == ni * k - fi,
    ensures
        (vi - mi) * ni * ONE == vi * ni * ONE - k * (ni * ni) + fi * ni,
{
    assert((vi - mi) * ni * ONE == vi * ni * ONE - k * (ni * ni) + fi * ni) by (nonlinear_arith)
        requires
            mi * ONE == ni * k - fi,
    ;
}

/// Reflecting about a unit normal turns the component along the normal around:
/// up to round-off, `reflect(v, n) . n == -(v . n)`. The normal may be off unit
/// length by up to eight units of round-off; no coordinate may be large
/// enough to saturate.
pub proof fn lemma_reflect_flips_normal_component(v: V3, n: V3)
    requires
        abs(vlen_sq(n) - ONE) <= 8,
        abs(v.x) <= 0x100_0000_0000,
        abs(v.y) <= 0x100_0000_0000,
        abs(v.z) <= 0x100_0000_0000,
        abs(n.x) <= 2 * ONE,
        abs(n.y) <= 2 * ONE,
        abs(n.z) <= 2 * ONE,
    ensures
        abs(vdot(vreflect(v, n), n) + vdot(v, n)) * ONE <= 12 * ONE + 22 * abs(vdot(v, n)),
{
    let bv = 0x100_0000_0000int;
    let bn = 0x2000_0000int;
    // v . n
    lemma_mul_bound(v.x, n.x, bv, bn);
    lemma_mul_bound(v.y, n.y, bv, bn);
    lemma_mul_bound(v.z, n.z, bv, bn);
    lemma_fmul_exact(v.x, n.x);
    lemma_fmul_exact(v.y, n.y);
    lemma_fmul_exact(v.z, n.z);
    let d = vdot(v, n);
    assert(d == fmul(v.x, n.x) + fmul(v.y, n.y) + fmul(v.z, n.z));
    let k = fadd(d, d);
    assert(k == 2 * d);
    // n . n
    lemma_mul_bound(n.x, n.x, bn, bn);
    lemma_mul_bound(n.y, n.y, bn, bn);
    lemma_mul_bound(n.z, n.z, bn, bn);
    assert(n.x * n.x >= 0 && n.y * n.y >= 0 && n.z * n.z >= 0) by (nonlinear_arith);
    lemma_fmul_exact(n.x, n.x);
    lemma_fmul_exact(n.y, n.y);
    lemma_fmul_exact(n.z, n.z);
    let n2 = vlen_sq(n);
    assert(n2 == fmul(n.x, n.x) + fmul(n.y, n.y) + fmul(n.z, n.z));
    // n scaled by k
    let bk = 0x10_0000_0000_0000int;
    lemma_mul_bound(n.x, k, bn, bk);
    lemma_mul_bound(n.y, k, bn, bk);
    lemma_mul_bound(n.z, k, bn, bk);
    lemma_fmul_exact(n.x, k);
    lemma_fmul_exact(n.y, k);
    lemma_fmul_exact(n.z, k);
    let r = vreflect(v, n);
    assert(r == v3(v.x - fmul(n.x, k), v.y - fmul(n.y, k), v.z - fmul(n.z, k)));
    // reflect(v, n) . n
    let br = 0x40_0000_0000_0000int;
    lemma_mul_bound(r.x, n.x, br, bn);
    lemma_mul_bound(r.y, n.y, br, bn);
    lemma_mul_bound(r.z, n.z, br, bn);
    lemma_fmul_exact(r.x, n.x);
    lemma_fmul_exact(r.y, n.y);
    lemma_fmul_exact(r.z, n.z);
    let dr = vdot(r, n);
    assert(dr == fmul(r.x, n.x) + fmul(r.y, n.y) + fmul(r.z, n.z));
    // round-off of each product
    let e = (v.x * n.x - fmul(v.x, n.x) * ONE) + (v.y * n.y - fmul(v.y, n.y) * ONE) + (v.z * n.z
        - fmul(v.z, n.z) * ONE);
    let fx = n.x * k - fmul(n.x, k) * ONE;
    let fy = n.y * k - fmul(n.y, k) * ONE;
    let fz = n.z * k - fmul(n.z, k) * ONE;
    let g = (r.x * n.x - fmul(r.x, n.x) * ONE) + (r.y * n.y - fmul(r.y, n.y) * ONE) + (r.z * n.z
        - fmul(r.z, n.z) * ONE);
    let h = (n.x * n.x - fmul(n.x, n.x) * ONE) + (n.y * n.y - fmul(n.y, n.y) * ONE) + (n.z * n.z
        - fmul(n.z, n.z) * ONE);
    assert(-3 * ONE < e < 3 * ONE);
    assert(-3 * ONE < g < 3 * ONE);
    assert(0 <= h < 3 * ONE);
    lemma_reflect_term(v.x, n.x, k, fmul(n.x, k), fx);
    lemma_reflect_term(v.y, n.y, k, fmul(n.y, k), fy);
    lemma_reflect_term(v.z, n.z, k, fmul(n.z, k), fz);
    let nn = n.x * n.x + n.y * n.y + n.z * n.z;
    assert(nn == n2 * ONE + h);
    assert(k * (n.x * n.x) + k * (n.y * n.y) + k * (n.z * n.z) == k * n2 * ONE + k * h) by (nonlinear_arith)
        requires
            nn == n.x * n.x + n.y * n.y + n.z * n.z,
            nn == n2 * ONE + h,
    ;
    let fn_ = fx * n.x + fy * n.y + fz * n.z;
    assert(dr * ONE * ONE == (d * ONE + e) * ONE - k * n2 * ONE - k * h + fn_ - ONE * g);
    assert(k * n2 * ONE == 2 * d * n2 * ONE) by (nonlinear_arith)
        requires
            k == 2 * d,
    ;
    assert(k * h == 2 * d * h) by (nonlinear_arith)
        requires
            k == 2 * d,
    ;
    // each piece is small
    lemma_mul_bound(fx, n.x, ONE as int, bn);
    lemma_mul_bound(fy, n.y, ONE as int, bn);
    lemma_mul_bound(fz, n.z, ONE as int, bn);
    let ad = abs(d);
    assert(-(16 * ONE * ad) <= 2 * d * ONE * (ONE - n2) <= 16 * ONE * ad) by (nonlinear_arith)
        requires
            -8 <= n2 - ONE <= 8,
            ad == abs(d),
            ad >= 0,
            d == ad || d == -ad,
            ONE > 0,
    ;
    assert(-(6 * ONE * ad) <= 2 * d * h <= 6 * ONE * ad) by (nonlinear_arith)
        requires
            0 <= h < 3 * ONE,
            ad >= 0,
            d == ad || d == -ad,
    ;
    let sum = dr + d;
    assert(sum * ONE * ONE == 2 * d * ONE * (ONE - n2) + ONE * (e - g) - 2 * d * h + fn_) by (nonlinear_arith)
        requires
            dr * ONE * ONE == (d * ONE + e) * ONE - 2 * d * n2 * ONE - 2 * d * h + fn_ - ONE * g,
            sum == dr + d,
    ;
    let a1 = 2 * d * ONE * (ONE - n2);
    let a2 = 2 * d * h;
    let t1 = fx * n.x;
    let t2 = fy * n.y;
    let t3 = fz * n.z;
    assert(-(12 * ONE * ONE + 22 * ONE * ad) <= sum * ONE * ONE <= 12 * ONE * ONE + 22 * ONE * ad) by (nonlinear_arith)
        requires
            sum * ONE * ONE == a1 + ONE * (e - g) - a2 + (t1 + t2 + t3),
            -(16 * ONE * ad) <= a1 <= 16 * ONE * ad,
            -(6 * ONE * ad) <= a2 <= 6 * ONE * ad,
            -(2 * ONE * ONE) <= t1 <= 2 * ONE * ONE,
            -(2 * ONE * ONE) <= t2 <= 2 * ONE * ONE,
            -(2 * ONE * ONE) <= t3 <= 2 * ONE * ONE,
            -3 * ONE < e < 3 * ONE,
            -3 * ONE < g < 3 * ONE,
            ONE == 268435456,
    ;
    assert(abs(sum) * ONE <= 12 * ONE + 22 * ad) by (nonlinear_arith)
        requires
            -(12 * ONE * ONE + 22 * ONE * ad) <= sum * ONE * ONE <= 12 * ONE * ONE + 22 * ONE * ad,
            ONE > 0,
    ;
}

/// `fdiv(a, len)` for a positive divisor no smaller than one: the quotient of
/// the magnitudes, with the sign of `a`.
pub(crate) proof fn lemma_fdiv_by_length(a: int, len: int) -> (q: int)
    requires
        -0x800_0000_0000 <= a <= 0x800_0000_0000,
        len >= ONE / 4,
    ensures
        q >= 0,
        q * len <= abs(a) * ONE < (q + 1) * len,
        fdiv(a, len) == if a >= 0 {
            q
        } else {
            -q
        },
        q <= 4 * abs(a),
        len >= ONE ==> q <= abs(a),
{
    let q = abs(a) * ONE / len;
    assert(q * len <= abs(a) * ONE < (q + 1) * len && q >= 0) by (nonlinear_arith)
        requires
            q == abs(a) * ONE / len,
            abs(a) >= 0,
            len > 0,
            ONE > 0,
    ;
    if len >= ONE {
        assert(q <= abs(a)) by (nonlinear_arith)
            requires
                q * len <= abs(a) * ONE,
                len >= ONE,
                ONE > 0,
                q >= 0,
        ;
    }
    assert(q <= 4 * abs(a)) by (nonlinear_arith)
        requires
            q * len <= abs(a) * ONE,
            4 * len >= ONE,
            ONE > 0,
            q >= 0,
            abs(a) >= 0,
    ;
    assert(abs(a * ONE) == abs(a) * ONE) by (nonlinear_arith)
        requires
            ONE > 0,
    ;
    q
}

/// Squares keep the order of non-negative numbers.
pub(crate) proof fn lemma_square_le(a: int, b: int)
    requires
        0 <= a <= b,
    ensures
        a * a <= b * b,
{
    assert(a * a <= b * b) by (nonlinear_arith)
        requires
            0 <= a <= b,
    ;
}

/// A square does not depend on the sign.
pub(crate) proof fn lemma_square_sign(a: int)
    ensures
        (-a) * (-a) == a * a,
        abs(a) * abs(a) == a * a,
{
    assert((-a) * (-a) == a * a) by (nonlinear_arith);
}

/// Squares keep the strict order of non-negative numbers.
pub(crate) proof fn lemma_square_lt(a: int, b: int)
    requires
        0 <= a < b,
    ensures
        a * a < b * b,
{
    assert(a * a < b * b) by (nonlinear_arith)
        requires
            0 <= a < b,
    ;
}

/// The square of a product is the product of the squares.
pub(crate) proof fn lemma_square_product(a: int, b: int)
    ensures
        (a * b) * (a * b) == (a * a) * (b * b),
{
    assert((a * b) * (a * b) == (a * a) * (b * b)) by (nonlinear_arith);
}

/// The square of the largest coordinate is at most the squared length, and
/// positive for a non-zero vector.
pub proof fn lemma_max_square(a: V3)
    ensures
        vmax(a) * vmax(a) <= raw_len_sq(a),
        vmax(a) > 0 ==> raw_len_sq(a) > 0,
{
    lemma_square_sign(a.x);
    lemma_square_sign(a.y);
    lemma_square_sign(a.z);
    assert(a.x * a.x >= 0 && a.y * a.y >= 0 && a.z * a.z >= 0) by (nonlinear_arith);
    let m = vmax(a);
    assert(m * m == abs(a.x) * abs(a.x) || m * m == abs(a.y) * abs(a.y) || m * m == abs(a.z) * abs(a.z));
    if m > 0 {
        assert(m * m > 0) by (nonlinear_arith)
            requires
                m > 0,
        ;
    }
}

/// Growing a non-zero vector brings its largest coordinate to at least
/// `GROWN`, and keeps coordinates within the range of an `i64`.
pub proof fn lemma_grown(a: V3)
    ensures
        abs(a.x) <= 0x8000_0000_0000_0000 && abs(a.y) <= 0x8000_0000_0000_0000 && abs(a.z)
            <= 0x8000_0000_0000_0000 ==> abs(grown(a).x) <= 0x8000_0000_0000_0000 && abs(grown(a).y)
            <= 0x8000_0000_0000_0000 && abs(grown(a).z) <= 0x8000_0000_0000_0000,
        vmax(a) == 0 ==> grown(a) == a,
        vmax(a) > 0 ==> vmax(grown(a)) >= GROWN,
    decreases grow_measure(a),
{
    if !(vmax(a) == 0 || vmax(a) >= GROWN) {
        lemma_grown(v3(2 * a.x, 2 * a.y, 2 * a.z));
    }
}

/// Dividing a coordinate by a length no smaller than it gives the quotient
/// of the magnitudes, at most one, with the sign of the coordinate.
proof fn lemma_fdiv_within_length(a: int, len: int) -> (q: int)
    requires
        abs(a) <= len,
        len > 0,
    ensures
        0 <= q <= ONE,
        q * len <= abs(a) * ONE < (q + 1) * len,
        fdiv(a, len) == if a >= 0 {
            q
        } else {
            -q
        },
{
    let q = abs(a) * ONE / len;
    assert(q * len <= abs(a) * ONE < (q + 1) * len && q >= 0) by (nonlinear_arith)
        requires
            q == abs(a) * ONE / len,
            abs(a) >= 0,
            len > 0,
            ONE > 0,
    ;
    assert(abs(a) * ONE <= len * ONE) by (nonlinear_arith)
        requires
            abs(a) <= len,
            ONE > 0,
    ;
    assert(q <= ONE) by (nonlinear_arith)
        requires
            q * len <= len * ONE,
            len > 0,
    ;
    assert(abs(a * ONE) == abs(a) * ONE) by (nonlinear_arith)
        requires
            ONE > 0,
    ;
    q
}

/// Each coordinate of a unit vector lies in `[-1, 1]`.
pub proof fn lemma_unit_coordinates(a: V3)
    ensures
        abs(vunit(a).x) <= ONE,
        abs(vunit(a).y) <= ONE,
        abs(vunit(a).z) <= ONE,
{
    lemma_unit_parts(a);
}

/// The facts about `vunit` that the laws on it rest on.
proof fn lemma_unit_parts(a: V3)
    ensures
        abs(vunit(a).x) <= ONE,
        abs(vunit(a).y) <= ONE,
        abs(vunit(a).z) <= ONE,
        vmax(a) > 0 ==> isqrt(raw_len_sq(grown(a))) >= GROWN,
{
    lemma_grown(a);
    let g = grown(a);
    let n = raw_len_sq(g);
    lemma_square_sign(g.x);
    lemma_square_sign(g.y);
    lemma_square_sign(g.z);
    assert(g.x * g.x >= 0 && g.y * g.y >= 0 && g.z * g.z >= 0) by (nonlinear_arith);
    lemma_root_exists(n);
    let len = isqrt(n);
    if vmax(a) == 0 {
        assert(g.x == 0 && g.y == 0 && g.z == 0);
        assert(n == 0) by (nonlinear_arith)
            requires
                g.x == 0,
                g.y == 0,
                g.z == 0,
                n == g.x * g.x + g.y * g.y + g.z * g.z,
        ;
        assert(len == 0) by (nonlinear_arith)
            requires
                is_root(n, len),
                n == 0,
        ;
    } else {
        // the largest coordinate is no longer than the length, which is at least GROWN
        let m = vmax(g);
        assert(m * m <= n);
        if len < m {
            lemma_square_le(len + 1, m);
        }
        if len < GROWN {
            lemma_square_le(len + 1, GROWN as int);
        }
        assert(abs(g.x) <= len && abs(g.y) <= len && abs(g.z) <= len);
        let qx = lemma_fdiv_within_length(g.x, len);
        let qy = lemma_fdiv_within_length(g.y, len);
        let qz = lemma_fdiv_within_length(g.z, len);
    }
}

/// A unit vector has length one: for every non-zero vector, the length of its
/// unit vector is within four units of round-off of one.
pub proof fn lemma_unit_length(v: V3)
    requires
        vmax(v) > 0,
        abs(v.x) <= 0x8000_0000_0000_0000,
        abs(v.y) <= 0x8000_0000_0000_0000,
        abs(v.z) <= 0x8000_0000_0000_0000,
    ensures
        abs(vlen(vunit(v)) - ONE) <= 4,
{
    let o = ONE as int;
    lemma_unit_parts(v);
    lemma_grown(v);
    let g = grown(v);
    let s = raw_len_sq(g);
    lemma_square_sign(g.x);
    lemma_square_sign(g.y);
    lemma_square_sign(g.z);
    assert(g.x * g.x >= 0 && g.y * g.y >= 0 && g.z * g.z >= 0) by (nonlinear_arith);
    lemma_root_exists(s);
    let len = isqrt(s);
    let m = vmax(g);
    assert(m * m <= s);
    if len < m {
        lemma_square_le(len + 1, m);
    }
    let qx = lemma_fdiv_within_length(g.x, len);
    let qy = lemma_fdiv_within_length(g.y, len);
    let qz = lemma_fdiv_within_length(g.z, len);
    let u = vunit(v);
    lemma_square_sign(qx);
    lemma_square_sign(qy);
    lemma_square_sign(qz);
    assert(u.x * u.x == qx * qx && u.y * u.y == qy * qy && u.z * u.z == qz * qz);
    let q = qx * qx + qy * qy + qz * qz;
    assert(raw_len_sq(u) == q);
    let a = abs(g.x);
    let b = abs(g.y);
    let c = abs(g.z);
    let l = len * len;
    // upper bound: q * len^2 <= s * o^2 < (len + 1)^2 * o^2
    lemma_square_le(qx * len, a * o);
    lemma_square_le(qy * len, b * o);
    lemma_square_le(qz * len, c * o);
    lemma_square_product(qx, len);
    lemma_square_product(qy, len);
    lemma_square_product(qz, len);
    lemma_square_product(a, o);
    lemma_square_product(b, o);
    lemma_square_product(c, o);
    assert(q * l <= s * (o * o)) by (nonlinear_arith)
        requires
            (qx * qx) * l <= (a * a) * (o * o),
            (qy * qy) * l <= (b * b) * (o * o),
            (qz * qz) * l <= (c * c) * (o * o),
            q == qx * qx + qy * qy + qz * qz,
            s == a * a + b * b + c * c,
    ;
    assert(q < o * o + 0x4_0000) by (nonlinear_arith)
        requires
            q * l <= s * (o * o),
            s < (len + 1) * (len + 1),
            l == len * len,
            len >= 0x100_0000_0000,
            o == 268435456,
    ;
    // lower bound: (q + 1)^2 * len^2 > s * o^2 >= len^2 * o^2
    lemma_square_lt(a * o, (qx + 1) * len);
    lemma_square_lt(b * o, (qy + 1) * len);
    lemma_square_lt(c * o, (qz + 1) * len);
    lemma_square_product(qx + 1, len);
    lemma_square_product(qy + 1, len);
    lemma_square_product(qz + 1, len);
    let p = (qx + 1) * (qx + 1) + (qy + 1) * (qy + 1) + (qz + 1) * (qz + 1);
    assert(p * l > s * (o * o)) by (nonlinear_arith)
        requires
            (a * a) * (o * o) < ((qx + 1) * (qx + 1)) * l,
            (b * b) * (o * o) < ((qy + 1) * (qy + 1)) * l,
            (c * c) * (o * o) < ((qz + 1) * (qz + 1)) * l,
            p == (qx + 1) * (qx + 1) + (qy + 1) * (qy + 1) + (qz + 1) * (qz + 1),
            s == a * a + b * b + c * c,
    ;
    assert(l <= s);
    lemma_square_lt(0, len);
    assert(p > o * o) by (nonlinear_arith)
        requires
            p * l > s * (o * o),
            l <= s,
            l > 0,
            o > 0,
    ;
    assert(p == q + 2 * (qx + qy + qz) + 3) by (nonlinear_arith)
        requires
            p == (qx + 1) * (qx + 1) + (qy + 1) * (qy + 1) + (qz + 1) * (qz + 1),
            q == qx * qx + qy * qy + qz * qz,
    ;
    assert(q > o * o - 6 * o - 3);
    // the length of u
    lemma_root_exists(q);
    let lu = isqrt(q);
    if lu >= o + 1 {
        lemma_square_le(o + 1, lu);
    }
    if lu + 1 <= o - 4 {
        lemma_square_le(lu + 1, o - 4);
    }
    assert(o - 4 <= lu <= o);
}

} // verus!
