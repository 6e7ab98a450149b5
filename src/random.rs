//! The random source, and the samples drawn from it.

use vstd::prelude::*;
use rand::Rng;
use crate::fixed::{
    abs, fdiv, fmul, fsqrt, fsub, fx_div, fx_mul, fx_sqrt, fx_sub, is_root, isqrt, isqrt_u128,
    lemma_isqrt, lemma_quot_one, lemma_root_exists, ONE,
};
use crate::vec::{
    in_unit_ball, in_unit_disk, lemma_fdiv_by_length, lemma_fmul_exact, lemma_mul_bound,
    lemma_square_le, lemma_square_lt, lemma_square_product, lemma_square_sign, v3, vdot, vlen,
    raw_len_sq, vneg, Point, V3, Vec,
};

verus! {

/// How many candidates a rejection sampler draws before it settles for the center.
pub const MAX_TRIES: u32 = 64;

/// Relies on rand's `Rng::gen_range` for `i64` on the thread-local generator:
/// it returns a value in `[lo, hi)` and panics unless `lo < hi`.
#[verifier::external_body]
pub(crate) fn uniform(lo: i64, hi: i64) -> (r: i64)
    requires
        lo < hi,
    ensures
        lo <= r < hi,
{
    rand::thread_rng().gen_range(lo, hi)
}

/// The candidate `p` if it lies inside the unit ball.
pub fn ball_candidate(p: Vec) -> (r: Option<Vec>)
    ensures
        r == (if in_unit_ball(p@) {
            Some(p)
        } else {
            None
        }),
{
    if p.length_squared() < ONE {
        Some(p)
    } else {
        None
    }
}

/// The candidate `p` if it lies inside the unit disk of the plane `z = 0`.
pub fn disk_candidate(p: Vec) -> (r: Option<Vec>)
    ensures
        r == (if in_unit_disk(p@) {
            Some(p)
        } else {
            None
        }),
{
    if p.z == 0 && -ONE <= p.x && p.x <= ONE && -ONE <= p.y && p.y <= ONE && p.length_squared() < ONE {
        Some(p)
    } else {
        None
    }
}

/// A point inside the unit ball, by rejection sampling from the cube `[-1, 1)^3`.
///
/// After `MAX_TRIES` rejected candidates the center is returned.
pub fn random_sphere_point() -> (r: Point)
    ensures
        in_unit_ball(r@),
{
    let mut tries: u32 = 0;
    while tries < MAX_TRIES
        decreases MAX_TRIES - tries,
    {
        let p = Vec::new(uniform(-ONE, ONE), uniform(-ONE, ONE), uniform(-ONE, ONE));
        if let Some(p) = ball_candidate(p) {
            return p;
        }
        tries = tries + 1;
    }
    Vec::zero()
}

/// A point inside the unit disk of the plane `z = 0`, by rejection sampling
/// from the square `[-1, 1)^2`.
///
/// After `MAX_TRIES` rejected candidates the center is returned.
pub fn random_disk_point() -> (r: Point)
    ensures
        in_unit_disk(r@),
{
    let mut tries: u32 = 0;
    while tries < MAX_TRIES
        decreases MAX_TRIES - tries,
    {
        let p = Vec::new(uniform(-ONE, ONE), uniform(-ONE, ONE), 0);
        if let Some(p) = disk_candidate(p) {
            return p;
        }
        tries = tries + 1;
    }
    Vec::zero()
}

/// `p`, or its opposite, whichever lies on the side of `normal`.
pub fn hemisphere_point_from(p: Vec, normal: Vec) -> (r: Point)
    ensures
        r@ == (if vdot(p@, normal@) > 0 {
            p@
        } else {
            vneg(p@)
        }),
{
    if p.dot(normal) > 0 {
        p
    } else {
        p.neg()
    }
}

/// A point of the unit ball on the same side as `normal`.
pub fn random_hemisphere_point(normal: Vec) -> (r: Point)
    ensures
        exists|p: V3|
            in_unit_ball(p) && r@ == (if vdot(p, normal@) > 0 {
                p
            } else {
                vneg(p)
            }),
{
    let p = random_sphere_point();
    hemisphere_point_from(p, normal)
}

/// The length of the part of `d` in the plane `z = 0`, rounded down.
pub open spec fn planar_len(d: V3) -> int {
    isqrt(d.x * d.x + d.y * d.y)
}

fn planar_length(x: i64, y: i64) -> (r: i64)
    requires
        -ONE <= x <= ONE,
        -ONE <= y <= ONE,
    ensures
        r == planar_len(v3(x as int, y as int, 0)),
{
    assert(0 <= x * x <= 0x100_0000_0000_0000 && 0 <= y * y <= 0x100_0000_0000_0000) by (nonlinear_arith)
        requires
            -268435456 <= x <= 268435456,
            -268435456 <= y <= 268435456,
    ;
    let n: u128 = (x as i128 * x as i128 + y as i128 * y as i128) as u128;
    let r = isqrt_u128(n);
    proof {
        lemma_isqrt(n as int, r as int);
        assert(r <= ONE * 2) by (nonlinear_arith)
            requires
                r * r <= n,
                n <= 0x200_0000_0000_0000,
                r >= 0,
                ONE == 268435456,
        ;
    }
    r as i64
}

/// A point of the unit disk far enough from the center for its direction to
/// be known precisely: its planar length is at least a quarter.
pub open spec fn is_azimuth(d: V3) -> bool {
    in_unit_disk(d) && planar_len(d) >= ONE / 4
}

/// The candidate `d` if it can give an azimuth.
pub fn azimuth_candidate(d: Vec) -> (r: Option<Vec>)
    ensures
        r == (if is_azimuth(d@) {
            Some(d)
        } else {
            None
        }),
{
    if let Some(d) = disk_candidate(d) {
        if planar_length(d.x, d.y) >= ONE / 4 {
            return Some(d);
        }
    }
    None
}

/// The point of the unit sphere at height `z` whose azimuth is that of `d`.
pub open spec fn sphere_point_at(z: int, d: V3) -> V3 {
    let radius = fsqrt(fsub(ONE as int, fmul(z, z)));
    let len = planar_len(d);
    v3(fmul(fdiv(d.x, len), radius), fmul(fdiv(d.y, len), radius), z)
}

/// A point of the unit sphere: a height and an azimuth, each drawn uniformly.
pub open spec fn is_lambertian_point(p: V3) -> bool {
    exists|z: int, d: V3| -ONE <= z < ONE && is_azimuth(d) && p == sphere_point_at(z, d)
}

/// The point of the unit sphere at height `z` in the direction of `d`; its
/// length is one up to seven units of round-off.
pub fn lambertian_point_from(z: i64, d: Vec) -> (r: Point)
    requires
        -ONE <= z < ONE,
        is_azimuth(d@),
    ensures
        r@ == sphere_point_at(z as int, d@),
        abs(vlen(r@) - ONE) <= 7,
{
    let radius = fx_sqrt(fx_sub(ONE, fx_mul(z, z)));
    let len = planar_length(d.x, d.y);
    let r = Vec::new(fx_mul(fx_div(d.x, len), radius), fx_mul(fx_div(d.y, len), radius), z);
    proof {
        lemma_sphere_point_length(z as int, d@);
    }
    r
}

/// A direction on the unit sphere: `z` uniform in `[-1, 1)`, the azimuth that
/// of a uniform point of the ring between radii a quarter and one, drawn by
/// rejection from the square `[-1, 1)^2`.
///
/// After `MAX_TRIES` rejected candidates the azimuth zero is taken.
pub fn random_lambertian_point() -> (r: Point)
    ensures
        is_lambertian_point(r@),
        abs(vlen(r@) - ONE) <= 7,
{
    let z = uniform(-ONE, ONE);
    let mut tries: u32 = 0;
    while tries < MAX_TRIES
        invariant
            -ONE <= z < ONE,
        decreases MAX_TRIES - tries,
    {
        let d = Vec::new(uniform(-ONE, ONE), uniform(-ONE, ONE), 0);
        if let Some(d) = azimuth_candidate(d) {
            return lambertian_point_from(z, d);
        }
        tries = tries + 1;
    }
    let d = Vec::new(ONE / 2, 0, 0);
    proof {
        let h = d@.x;
        assert(h == 134217728);
        assert(is_root(h * h, h) && h * h == 0x40_0000_0000_0000) by (nonlinear_arith)
            requires
                h == 134217728,
        ;
        lemma_isqrt(h * h, h);
        assert(d@.x * d@.x + d@.y * d@.y == h * h);
        lemma_quot_one(h * h);
        assert(fmul(h, h) == 67108864);
        assert(is_azimuth(d@));
    }
    lambertian_point_from(z, d)
}

/// The length of `sphere_point_at(z, d)` is one up to round-off.
proof fn lemma_sphere_point_length(z: int, d: V3)
    requires
        -ONE <= z < ONE,
        is_azimuth(d),
    ensures
        abs(vlen(sphere_point_at(z, d)) - ONE) <= 7,
{
    let o = ONE as int;
    let q4 = o / 4;
    // the planar length of d
    let n = d.x * d.x + d.y * d.y;
    assert(0 <= n <= 2 * o * o) by (nonlinear_arith)
        requires
            n == d.x * d.x + d.y * d.y,
            -o <= d.x <= o,
            -o <= d.y <= o,
    ;
    lemma_root_exists(n);
    let len = planar_len(d);
    assert(is_root(n, len));
    assert(len >= q4 && q4 == 67108864);
    // the direction (c, s) of d, scaled to length one
    let cq = lemma_fdiv_by_length(d.x, len);
    let sq = lemma_fdiv_by_length(d.y, len);
    lemma_square_sign(d.x);
    lemma_square_sign(d.y);
    let a = abs(d.x);
    let b = abs(d.y);
    let cc = cq * cq + sq * sq;
    let l = len * len;
    lemma_square_le(cq * len, a * o);
    lemma_square_le(sq * len, b * o);
    lemma_square_product(cq, len);
    lemma_square_product(sq, len);
    lemma_square_product(a, o);
    lemma_square_product(b, o);
    assert(cc * l <= n * (o * o)) by (nonlinear_arith)
        requires
            (cq * cq) * l <= (a * a) * (o * o),
            (sq * sq) * l <= (b * b) * (o * o),
            cc == cq * cq + sq * sq,
            n == a * a + b * b,
    ;
    assert(n < (len + 1) * (len + 1));
    assert(cc < o * o + 8 * o + 17) by (nonlinear_arith)
        requires
            cc * l <= n * (o * o),
            n < (len + 1) * (len + 1),
            l == len * len,
            4 * len >= o,
            o == 268435456,
    ;
    lemma_square_lt(a * o, (cq + 1) * len);
    lemma_square_lt(b * o, (sq + 1) * len);
    lemma_square_product(cq + 1, len);
    lemma_square_product(sq + 1, len);
    let pp = (cq + 1) * (cq + 1) + (sq + 1) * (sq + 1);
    assert(pp * l > n * (o * o)) by (nonlinear_arith)
        requires
            (a * a) * (o * o) < ((cq + 1) * (cq + 1)) * l,
            (b * b) * (o * o) < ((sq + 1) * (sq + 1)) * l,
            pp == (cq + 1) * (cq + 1) + (sq + 1) * (sq + 1),
            n == a * a + b * b,
    ;
    assert(l <= n);
    lemma_square_lt(0, len);
    assert(pp > o * o) by (nonlinear_arith)
        requires
            pp * l > n * (o * o),
            l <= n,
            l > 0,
            o > 0,
    ;
    if cq >= o + 5 {
        lemma_square_le(o + 5, cq);
    }
    if sq >= o + 5 {
        lemma_square_le(o + 5, sq);
    }
    assert(cq <= o + 4 && sq <= o + 4);
    assert(pp == cc + 2 * (cq + sq) + 2) by (nonlinear_arith)
        requires
            pp == (cq + 1) * (cq + 1) + (sq + 1) * (sq + 1),
            cc == cq * cq + sq * sq,
    ;
    assert(cc > o * o - 4 * o - 18);
    // the radius of the circle at height z
    let zz = z * z;
    assert(0 <= zz <= o * o) by (nonlinear_arith)
        requires
            zz == z * z,
            -o <= z <= o,
    ;
    lemma_fmul_exact(z, z);
    let w = fmul(z, z);
    assert(0 <= zz - w * o < o);
    assert(0 <= w <= o);
    let m = fsub(o, w);
    assert(m == o - w);
    let rho = fsqrt(m);
    if m > 0 {
        assert(m * o > 0) by (nonlinear_arith)
            requires
                m > 0,
                o > 0,
        ;
        lemma_root_exists(m * o);
        assert(is_root(m * o, rho));
        assert(m * o == o * o - w * o) by (nonlinear_arith)
            requires
                m == o - w,
        ;
    } else {
        assert(rho == 0);
        assert(w * o == o * o);
    }
    let r2 = rho * rho;
    assert(0 <= rho);
    assert(r2 <= o * o - w * o);
    assert(r2 < o * o - zz + o);
    assert(r2 + 2 * rho + 1 > o * o - zz) by (nonlinear_arith)
        requires
            (m > 0 && (rho + 1) * (rho + 1) > o * o - w * o) || (m <= 0 && rho == 0 && o * o - zz <= 0),
            r2 == rho * rho,
            w * o <= zz,
    ;
    if rho > o {
        lemma_square_lt(o, rho);
    }
    assert(rho <= o);
    assert(r2 >= 0) by (nonlinear_arith)
        requires
            r2 == rho * rho,
    ;
    // the scaled coordinates
    let c = fdiv(d.x, len);
    let s = fdiv(d.y, len);
    lemma_mul_bound(c, rho, o + 4, o);
    lemma_mul_bound(s, rho, o + 4, o);
    lemma_fmul_exact(c, rho);
    lemma_fmul_exact(s, rho);
    let x = fmul(c, rho);
    let y = fmul(s, rho);
    let xa = (cq * rho) / o;
    let ya = (sq * rho) / o;
    assert(xa * o <= cq * rho < (xa + 1) * o && xa >= 0) by (nonlinear_arith)
        requires
            xa == (cq * rho) / o,
            cq >= 0,
            rho >= 0,
            o > 0,
    ;
    assert(ya * o <= sq * rho < (ya + 1) * o && ya >= 0) by (nonlinear_arith)
        requires
            ya == (sq * rho) / o,
            sq >= 0,
            rho >= 0,
            o > 0,
    ;
    assert(abs(c * rho) == cq * rho && abs(s * rho) == sq * rho) by (nonlinear_arith)
        requires
            c == cq || c == -cq,
            s == sq || s == -sq,
            cq >= 0,
            sq >= 0,
            rho >= 0,
    ;
    assert(x == xa || x == -xa);
    assert(y == ya || y == -ya);
    lemma_square_sign(xa);
    lemma_square_sign(ya);
    assert(x * x == xa * xa && y * y == ya * ya);
    assert(xa <= o + 4 && ya <= o + 4) by (nonlinear_arith)
        requires
            xa * o <= cq * rho,
            ya * o <= sq * rho,
            cq <= o + 4,
            sq <= o + 4,
            0 <= rho <= o,
            o > 0,
            xa >= 0,
            ya >= 0,
    ;
    let xx = xa * xa + ya * ya;
    lemma_square_le(xa * o, cq * rho);
    lemma_square_le(ya * o, sq * rho);
    lemma_square_product(xa, o);
    lemma_square_product(ya, o);
    lemma_square_product(cq, rho);
    lemma_square_product(sq, rho);
    assert(xx * (o * o) <= cc * r2) by (nonlinear_arith)
        requires
            (xa * xa) * (o * o) <= (cq * cq) * r2,
            (ya * ya) * (o * o) <= (sq * sq) * r2,
            xx == xa * xa + ya * ya,
            cc == cq * cq + sq * sq,
    ;
    lemma_square_lt(cq * rho, (xa + 1) * o);
    lemma_square_lt(sq * rho, (ya + 1) * o);
    lemma_square_product(xa + 1, o);
    lemma_square_product(ya + 1, o);
    let qq = (xa + 1) * (xa + 1) + (ya + 1) * (ya + 1);
    assert(qq * (o * o) > cc * r2) by (nonlinear_arith)
        requires
            (cq * cq) * r2 < ((xa + 1) * (xa + 1)) * (o * o),
            (sq * sq) * r2 < ((ya + 1) * (ya + 1)) * (o * o),
            qq == (xa + 1) * (xa + 1) + (ya + 1) * (ya + 1),
            cc == cq * cq + sq * sq,
    ;
    // upper bound on xx
    assert(xx < o * o - zz + 9 * o + 26) by (nonlinear_arith)
        requires
            xx * (o * o) <= cc * r2,
            0 <= cc < o * o + 8 * o + 17,
            0 <= r2 < o * o - zz + o,
            0 <= zz <= o * o,
            o == 268435456,
    ;
    // lower bound on xx
    assert(qq > o * o - zz - 6 * o - 19) by (nonlinear_arith)
        requires
            qq * (o * o) > cc * r2,
            cc > o * o - 4 * o - 18,
            0 <= r2 <= o * o,
            r2 + 2 * rho + 1 > o * o - zz,
            rho <= o,
            o == 268435456,
    ;
    assert(qq == xx + 2 * (xa + ya) + 2) by (nonlinear_arith)
        requires
            qq == (xa + 1) * (xa + 1) + (ya + 1) * (ya + 1),
            xx == xa * xa + ya * ya,
    ;
    assert(xx > o * o - zz - 10 * o - 37);
    // the length of the point, from the exact sum of squares
    let p = sphere_point_at(z, d);
    assert(p == v3(x, y, z));
    let n2 = raw_len_sq(p);
    assert(n2 == xx + zz);
    assert(o * o - 10 * o - 37 < n2 < o * o + 9 * o + 26);
    lemma_root_exists(n2);
    let lp = isqrt(n2);
    if lp >= o + 5 {
        lemma_square_le(o + 5, lp);
    }
    if lp + 1 <= o - 6 {
        lemma_square_le(lp + 1, o - 6);
    }
    assert(o - 6 <= lp <= o + 4);
    assert(vlen(p) == lp);
}

} // verus!
