//! Ray-surface intersection: spheres and the scene that holds them.

use vstd::prelude::*;
use vstd::arithmetic::div_mod::lemma_div_is_ordered;
use crate::fixed::{fx_times, sat, lemma_fsqrt_nonneg, lemma_root_exists, abs, quot, ONE, fadd, fdiv, fmul, fneg, fsqrt, fsub, fx_add, fx_div, fx_mul, fx_neg, fx_sqrt, fx_sub};
use crate::material::Material;
use crate::ray::{ray_at, Ray, RaySpec};
use crate::vec::{max_magnitude, v3, vmax, vdiv, vdot, vlen_sq, vneg, vsub, Point, V3, Vec};

verus! {

/// The mathematical value of a hit record.
pub struct Hit {
    pub p: V3,
    pub t: int,
    pub normal: V3,
    pub front_face: bool,
    pub material: Material,
}

#[derive(Clone, Copy, Debug, PartialEq, Eq, Structural)]
pub struct HitRecord {
    pub p: Point,
    pub t: i64,
    pub normal: Vec,
    pub front_face: bool,
    pub material: Material,
}

impl View for HitRecord {
    type V = Hit;

    open spec fn view(&self) -> Hit {
        Hit {
            p: self.p@,
            t: self.t as int,
            normal: self.normal@,
            front_face: self.front_face,
            material: self.material,
        }
    }
}

pub open spec fn hit_view(h: Option<HitRecord>) -> Option<Hit> {
    match h {
        Some(rec) => Some(rec@),
        None => None,
    }
}

/// A hit at `p`, with the normal turned to face against the ray.
pub open spec fn oriented(p: V3, t: int, ray: RaySpec, outward: V3, material: Material) -> Hit {
    let front_face = vdot(ray.dir, outward) < 0;
    Hit {
        p,
        t,
        normal: if front_face {
            outward
        } else {
            vneg(outward)
        },
        front_face,
        material,
    }
}

impl HitRecord {
    pub fn new(p: Point, t: i64, r: &Ray, normal: Vec, material: Material) -> (rec: HitRecord)
        ensures
            rec@ == oriented(p@, t as int, r@, normal@, material),
    {
        let front_face = r.dir.dot(normal) < 0;
        Self { p, t, front_face, normal: if front_face { normal } else { normal.neg() }, material }
    }
}

/// A surface that a ray can meet.
pub trait Hittable {
    /// Where the ray meets the surface strictly between `t_min` and `t_max`.
    spec fn hits(&self, ray: RaySpec, t_min: int, t_max: int) -> Option<Hit>;

    fn hit(&self, ray: &Ray, t_min: i64, t_max: i64) -> (r: Option<HitRecord>)
        ensures
            hit_view(r) == self.hits(ray@, t_min as int, t_max as int),
    ;
}

#[derive(Clone, Copy, Debug, PartialEq, Eq, Structural)]
pub struct Sphere {
    pub center: Point,
    pub radius: i64,
    pub material: Material,
}

/// The coefficients of the quadratic in `t` for a ray and a sphere:
/// `a`, half of `b`, and the discriminant.
pub open spec fn sphere_terms(s: Sphere, ray: RaySpec) -> (int, int, int) {
    let oc = vsub(ray.origin, s.center@);
    let a = vlen_sq(ray.dir);
    let half_b = vdot(oc, ray.dir);
    let c = fsub(vlen_sq(oc), fmul(s.radius as int, s.radius as int));
    (a, half_b, fsub(fmul(half_b, half_b), fmul(a, c)))
}

/// The nearer root of the quadratic.
pub open spec fn near_root(s: Sphere, ray: RaySpec) -> int {
    let (a, half_b, disc) = sphere_terms(s, ray);
    fdiv(fsub(fneg(half_b), fsqrt(disc)), a)
}

/// The farther root of the quadratic.
pub open spec fn far_root(s: Sphere, ray: RaySpec) -> int {
    let (a, half_b, disc) = sphere_terms(s, ray);
    fdiv(fadd(fneg(half_b), fsqrt(disc)), a)
}

/// Below this largest coordinate a direction is doubled before the quadratic
/// is solved, so that its squared length does not round to zero.
pub const DIR_MIN: i64 = 0x100_0000;

pub open spec fn lengthen_measure(d: V3) -> int {
    if vmax(d) >= DIR_MIN {
        0
    } else {
        DIR_MIN - vmax(d)
    }
}

/// The direction doubled until its largest coordinate reaches `DIR_MIN`, and
/// the power of two it was multiplied by. The zero direction stays zero.
pub open spec fn lengthened(d: V3) -> (V3, int)
    decreases lengthen_measure(d),
{
    if vmax(d) == 0 || vmax(d) >= DIR_MIN {
        (d, 1)
    } else {
        let (e, f) = lengthened(v3(2 * d.x, 2 * d.y, 2 * d.z));
        (e, 2 * f)
    }
}

/// The ray with its direction lengthened; its parameter runs slower by the
/// factor of `lengthened`.
pub open spec fn working_ray(ray: RaySpec) -> RaySpec {
    RaySpec { origin: ray.origin, dir: lengthened(ray.dir).0 }
}

/// The nearer root, in units of the ray's own direction.
pub open spec fn near_t(s: Sphere, ray: RaySpec) -> int {
    sat(near_root(s, working_ray(ray)) * lengthened(ray.dir).1)
}

/// The farther root, in units of the ray's own direction.
pub open spec fn far_t(s: Sphere, ray: RaySpec) -> int {
    sat(far_root(s, working_ray(ray)) * lengthened(ray.dir).1)
}

/// The factor of `lengthened` is a positive power of two, and a direction
/// that needs no lengthening keeps its own.
pub proof fn lemma_lengthened(d: V3)
    ensures
        1 <= lengthened(d).1,
        lengthened(d).1 * vmax(d) == vmax(lengthened(d).0),
        vmax(d) == 0 || vmax(d) >= DIR_MIN ==> lengthened(d) == (d, 1int),
        0 < vmax(d) < DIR_MIN ==> vmax(lengthened(d).0) < 2 * DIR_MIN,
    decreases lengthen_measure(d),
{
    if !(vmax(d) == 0 || vmax(d) >= DIR_MIN) {
        let e = v3(2 * d.x, 2 * d.y, 2 * d.z);
        lemma_lengthened(e);
        assert(vmax(e) == 2 * vmax(d));
        let f = lengthened(e).1;
        assert((2 * f) * vmax(d) == f * vmax(e)) by (nonlinear_arith)
            requires
                vmax(e) == 2 * vmax(d),
        ;
    }
}

/// The record of the point at `t` along the ray, which lies on the sphere.
pub open spec fn sphere_record(s: Sphere, ray: RaySpec, t: int) -> Hit {
    let p = ray_at(ray, t);
    oriented(p, t, ray, vdiv(vsub(p, s.center@), s.radius as int), s.material)
}

/// Where the ray meets the sphere strictly between `t_min` and `t_max`: the
/// nearer root if it lies there, else the farther one. The quadratic is
/// solved for the lengthened direction.
#[verifier::opaque]
pub open spec fn sphere_hit(s: Sphere, ray: RaySpec, t_min: int, t_max: int) -> Option<Hit> {
    let (a, half_b, disc) = sphere_terms(s, working_ray(ray));
    if disc < 0 || a == 0 {
        None
    } else if t_min < near_t(s, ray) < t_max {
        Some(sphere_record(s, ray, near_t(s, ray)))
    } else if t_min < far_t(s, ray) < t_max {
        Some(sphere_record(s, ray, far_t(s, ray)))
    } else {
        None
    }
}

impl Sphere {
    pub fn new(center: Vec, radius: i64, material: Material) -> (r: Sphere)
        ensures
            r.center == center,
            r.radius == radius,
            r.material == material,
    {
        Sphere { center, radius, material }
    }
}

/// The direction lengthened as `lengthened` says, with its factor.
fn lengthen(d: Vec) -> (r: (Vec, i64))
    ensures
        (r.0@, r.1 as int) == lengthened(d@),
        1 <= r.1 <= 0x200_0000,
{
    let mut g = d;
    let mut f: i64 = 1;
    proof {
        lemma_lengthened(d@);
    }
    while 0 < max_magnitude(g) && max_magnitude(g) < DIR_MIN as i128
        invariant
            1 <= f <= 0x200_0000,
            f * vmax(d@) == vmax(g@),
            lengthened(d@) == (lengthened(g@).0, lengthened(g@).1 * f),
            vmax(d@) > 0 ==> vmax(g@) > 0,
            vmax(d@) == 0 ==> g == d,
        decreases lengthen_measure(g@),
    {
        let ghost old_g = g@;
        proof {
            lemma_lengthened(g@);
            assert(f <= vmax(g@)) by (nonlinear_arith)
                requires
                    f * vmax(d@) == vmax(g@),
                    vmax(d@) >= 1,
                    f >= 1,
            ;
        }
        g = Vec { x: g.x * 2, y: g.y * 2, z: g.z * 2 };
        f = f * 2;
        proof {
            assert(vmax(g@) == 2 * vmax(old_g));
            assert(f * vmax(d@) == vmax(g@)) by (nonlinear_arith)
                requires
                    f == 2 * (f / 2),
                    (f / 2) * vmax(d@) == vmax(old_g),
                    vmax(g@) == 2 * vmax(old_g),
            ;
            let (e, k) = lengthened(g@);
            assert(lengthened(old_g) == (e, 2 * k));
            assert((2 * k) * (f / 2) == k * f) by (nonlinear_arith)
                requires
                    f == 2 * (f / 2),
            ;
        }
    }
    proof {
        lemma_lengthened(g@);
    }
    (g, f)
}

impl Hittable for Sphere {
    open spec fn hits(&self, ray: RaySpec, t_min: int, t_max: int) -> Option<Hit> {
        sphere_hit(*self, ray, t_min, t_max)
    }

    fn hit(&self, ray: &Ray, t_min: i64, t_max: i64) -> (r: Option<HitRecord>) {
        reveal(sphere_hit);
        let (dir, factor) = lengthen(ray.dir);
        let oc = ray.origin.sub(self.center);
        let a = dir.length_squared();
        let hb = oc.dot(dir);
        let c = fx_sub(oc.length_squared(), fx_mul(self.radius, self.radius));

        let discriminant = fx_sub(fx_mul(hb, hb), fx_mul(a, c));
        if discriminant < 0 || a == 0 {
            return None;
        }

        let root = fx_sqrt(discriminant);
        let solve = fx_times(fx_div(fx_sub(fx_neg(hb), root), a), factor);
        if solve > t_min && solve < t_max {
            let p = ray.at(solve);
            let normal = p.sub(self.center).div(self.radius);
            return Some(HitRecord::new(p, solve, ray, normal, self.material));
        }

        let solve = fx_times(fx_div(fx_add(fx_neg(hb), root), a), factor);
        if solve > t_min && solve < t_max {
            let p = ray.at(solve);
            let normal = p.sub(self.center).div(self.radius);
            return Some(HitRecord::new(p, solve, ray, normal, self.material));
        }

        None
    }
}

/// The hit of the first ray-sphere pair in `s` with the smallest `t`.
pub open spec fn scene_hit(s: Seq<Sphere>, ray: RaySpec, t_min: int, t_max: int) -> Option<Hit>
    decreases s.len(),
{
    if s.len() == 0 {
        None
    } else {
        let before = scene_hit(s.drop_last(), ray, t_min, t_max);
        let here = sphere_hit(s.last(), ray, t_min, t_max);
        match (before, here) {
            (_, None) => before,
            (None, Some(_)) => here,
            (Some(b), Some(h)) => if h.t < b.t {
                here
            } else {
                before
            },
        }
    }
}

/// `sphere_hit` with its upper bound lowered to `bound`.
pub open spec fn below(h: Option<Hit>, bound: int) -> Option<Hit> {
    match h {
        Some(rec) => if rec.t < bound {
            h
        } else {
            None
        },
        None => None,
    }
}

proof fn lemma_quot_monotone(x: int, y: int, b: int)
    requires
        x <= y,
        b > 0,
    ensures
        quot(x, b) <= quot(y, b),
{
    if x >= 0 {
        lemma_div_is_ordered(x, y, b);
    } else if y < 0 {
        lemma_div_is_ordered(-y, -x, b);
    } else {
        assert((-x) / b >= 0) by (nonlinear_arith)
            requires
                -x > 0,
                b > 0,
        ;
        assert(y / b >= 0) by (nonlinear_arith)
            requires
                y >= 0,
                b > 0,
        ;
    }
}

proof fn lemma_fdiv_monotone(x: int, y: int, a: int)
    requires
        x <= y,
        a > 0,
    ensures
        fdiv(x, a) <= fdiv(y, a),
{
    assert(x * ONE <= y * ONE) by (nonlinear_arith)
        requires
            x <= y,
    ;
    lemma_quot_monotone(x * ONE, y * ONE, a);
}

proof fn lemma_fmul_square_nonneg(x: int)
    ensures
        fmul(x, x) >= 0,
{
    assert(x * x >= 0) by (nonlinear_arith);
    assert(abs(x * x) / abs(ONE as int) >= 0) by (nonlinear_arith)
        requires
            x * x >= 0,
    ;
}

pub proof fn lemma_len_sq_nonneg(v: V3)
    ensures
        vlen_sq(v) >= 0,
{
    lemma_fmul_square_nonneg(v.x);
    lemma_fmul_square_nonneg(v.y);
    lemma_fmul_square_nonneg(v.z);
}

/// The nearer root never lies beyond the farther one.
proof fn lemma_roots_ordered(s: Sphere, ray: RaySpec)
    requires
        vlen_sq(ray.dir) != 0,
    ensures
        near_root(s, ray) <= far_root(s, ray),
{
    let (a, half_b, disc) = sphere_terms(s, ray);
    lemma_len_sq_nonneg(ray.dir);
    lemma_fsqrt_nonneg(disc);
    lemma_fdiv_monotone(fsub(fneg(half_b), fsqrt(disc)), fadd(fneg(half_b), fsqrt(disc)), a);
}

/// Lowering the upper bound keeps a hit below the new bound and drops any other.
pub proof fn lemma_sphere_hit_below(s: Sphere, ray: RaySpec, t_min: int, t_max: int, bound: int)
    requires
        bound <= t_max,
    ensures
        sphere_hit(s, ray, t_min, bound) == below(sphere_hit(s, ray, t_min, t_max), bound),
{
    reveal(sphere_hit);
    let (a, half_b, disc) = sphere_terms(s, working_ray(ray));
    if !(disc < 0 || a == 0) {
        lemma_roots_ordered(s, working_ray(ray));
        lemma_lengthened(ray.dir);
        lemma_times_monotone(near_root(s, working_ray(ray)), far_root(s, working_ray(ray)), lengthened(ray.dir).1);
    }
}

proof fn lemma_times_monotone(x: int, y: int, f: int)
    requires
        x <= y,
        f >= 1,
    ensures
        sat(x * f) <= sat(y * f),
        y <= 0 ==> sat(y * f) <= 0,
{
    assert(x * f <= y * f) by (nonlinear_arith)
        requires
            x <= y,
            f >= 1,
    ;
    if y <= 0 {
        assert(y * f <= 0) by (nonlinear_arith)
            requires
                y <= 0,
                f >= 1,
        ;
    }
}

#[derive(Debug)]
pub struct HittableVec {
    pub objects: std::vec::Vec<Sphere>,
}

impl HittableVec {
    pub fn new() -> (r: HittableVec)
        ensures
            r.objects@ == Seq::<Sphere>::empty(),
    {
        HittableVec { objects: std::vec::Vec::new() }
    }

    pub fn push(&mut self, sphere: Sphere)
        ensures
            final(self).objects@ == old(self).objects@.push(sphere),
    {
        self.objects.push(sphere);
    }
}

impl Hittable for HittableVec {
    open spec fn hits(&self, ray: RaySpec, t_min: int, t_max: int) -> Option<Hit> {
        scene_hit(self.objects@, ray, t_min, t_max)
    }

    /// The nearest hit over all spheres, found in one pass: each sphere is
    /// asked only for hits nearer than the best so far.
    fn hit(&self, ray: &Ray, t_min: i64, t_max: i64) -> (r: Option<HitRecord>) {
        let mut record: Option<HitRecord> = None;
        let mut closest: i64 = t_max;
        let n = self.objects.len();
        for i in 0..n
            invariant
                n == self.objects@.len(),
                hit_view(record) == scene_hit(self.objects@.take(i as int), ray@, t_min as int, t_max as int),
                closest == (match record {
                    Some(rec) => rec.t,
                    None => t_max,
                }),
                closest <= t_max,
        {
            let sphere = &self.objects[i];
            proof {
                let prefix = self.objects@.take(i as int + 1);
                assert(prefix.drop_last() == self.objects@.take(i as int));
                assert(prefix.last() == *sphere);
                lemma_sphere_hit_below(*sphere, ray@, t_min as int, t_max as int, closest as int);
            }
            if let Some(rec) = sphere.hit(ray, t_min, closest) {
                closest = rec.t;
                record = Some(rec);
            }
        }
        assert(self.objects@.take(n as int) == self.objects@);
        record
    }
}

/// The scene's hit is the nearest of the spheres' own hits: the scene is hit
/// exactly when some sphere is, its hit is one of theirs, and no sphere is hit
/// nearer.
pub proof fn lemma_scene_hit_nearest(s: Seq<Sphere>, ray: RaySpec, t_min: int, t_max: int)
    ensures
        scene_hit(s, ray, t_min, t_max) is None <==> forall|i: int|
            0 <= i < s.len() ==> (#[trigger] sphere_hit(s[i], ray, t_min, t_max)) is None,
        scene_hit(s, ray, t_min, t_max) is Some ==> exists|i: int|
            0 <= i < s.len() && #[trigger] sphere_hit(s[i], ray, t_min, t_max) == scene_hit(
                s,
                ray,
                t_min,
                t_max,
            ),
        scene_hit(s, ray, t_min, t_max) is Some ==> forall|i: int|
            0 <= i < s.len() && (#[trigger] sphere_hit(s[i], ray, t_min, t_max)) is Some
                ==> scene_hit(s, ray, t_min, t_max)->Some_0.t <= sphere_hit(
                s[i],
                ray,
                t_min,
                t_max,
            )->Some_0.t,
    decreases s.len(),
{
    if s.len() > 0 {
        let prefix = s.drop_last();
        lemma_scene_hit_nearest(prefix, ray, t_min, t_max);
        assert(forall|i: int| 0 <= i < prefix.len() ==> prefix[i] == s[i]);
        let last = s.len() - 1;
        assert(s.last() == s[last]);
        let result = scene_hit(s, ray, t_min, t_max);
        if result is Some {
            if result == sphere_hit(s[last], ray, t_min, t_max) {
                assert(sphere_hit(s[last], ray, t_min, t_max) == result);
            } else {
                let i = choose|i: int|
                    0 <= i < prefix.len() && #[trigger] sphere_hit(prefix[i], ray, t_min, t_max)
                        == scene_hit(prefix, ray, t_min, t_max);
                assert(sphere_hit(s[i], ray, t_min, t_max) == result);
            }
        }
    }
}

/// The sphere's center lies behind the ray's origin, seen along the ray (its
/// direction lengthened, as the intersection takes it).
pub open spec fn heading_away(s: Sphere, ray: RaySpec) -> bool {
    vdot(vsub(ray.origin, s.center@), working_ray(ray).dir) > 0
}

/// The point lies outside the sphere.
pub open spec fn outside(s: Sphere, p: V3) -> bool {
    fsub(vlen_sq(vsub(p, s.center@)), fmul(s.radius as int, s.radius as int)) > 0
}

proof fn lemma_quot_nonpos(x: int, b: int)
    requires
        x <= 0,
        b > 0,
    ensures
        quot(x, b) <= 0,
{
    assert((-x) / b >= 0) by (nonlinear_arith)
        requires
            -x >= 0,
            b > 0,
    ;
}

/// A ray that starts outside a sphere and heads away from it never meets it
/// at a positive distance.
pub proof fn lemma_ray_away_misses(s: Sphere, ray: RaySpec, t_max: int)
    requires
        outside(s, ray.origin),
        heading_away(s, ray),
    ensures
        sphere_hit(s, ray, 0, t_max) is None,
{
    reveal(sphere_hit);
    let w = working_ray(ray);
    let (a, hb, disc) = sphere_terms(s, w);
    if !(disc < 0 || a == 0) {
        lemma_away_roots_nonpositive(s, w);
        lemma_lengthened(ray.dir);
        lemma_times_monotone(near_root(s, w), far_root(s, w), lengthened(ray.dir).1);
        lemma_times_monotone(far_root(s, w), far_root(s, w), lengthened(ray.dir).1);
    }
}

/// Both roots of the quadratic are at most zero for a ray from outside that
/// heads away.
proof fn lemma_away_roots_nonpositive(s: Sphere, ray: RaySpec)
    requires
        outside(s, ray.origin),
        vdot(vsub(ray.origin, s.center@), ray.dir) > 0,
        sphere_terms(s, ray).2 >= 0,
        sphere_terms(s, ray).0 != 0,
    ensures
        near_root(s, ray) <= far_root(s, ray) <= 0,
{
    let (a, hb, disc) = sphere_terms(s, ray);
    let oc = vsub(ray.origin, s.center@);
    let c = fsub(vlen_sq(oc), fmul(s.radius as int, s.radius as int));
    lemma_len_sq_nonneg(ray.dir);
    if !(disc < 0 || a == 0) {
        // a * c >= 0, so the discriminant is at most half_b squared
        assert(a * c >= 0) by (nonlinear_arith)
            requires
                a >= 0,
                c > 0,
        ;
        assert(abs(a * c) / abs(ONE as int) >= 0) by (nonlinear_arith)
            requires
                a * c >= 0,
        ;
        assert(hb * hb >= 0) by (nonlinear_arith);
        let sq = abs(hb * hb) / abs(ONE as int);
        assert(sq * ONE <= hb * hb) by (nonlinear_arith)
            requires
                sq == (hb * hb) / (ONE as int),
                hb * hb >= 0,
                ONE > 0,
        ;
        assert(disc <= sq);
        let root = fsqrt(disc);
        lemma_fsqrt_nonneg(disc);
        if disc > 0 {
            assert(disc * ONE <= hb * hb) by (nonlinear_arith)
                requires
                    disc <= sq,
                    sq * ONE <= hb * hb,
                    ONE > 0,
            ;
            assert(disc * ONE > 0) by (nonlinear_arith)
                requires
                    disc > 0,
                    ONE > 0,
            ;
            lemma_root_exists(disc * ONE);
            assert(root <= hb) by (nonlinear_arith)
                requires
                    root * root <= disc * ONE,
                    disc * ONE <= hb * hb,
                    root >= 0,
                    hb > 0,
            ;
        }
        let num = fadd(fneg(hb), root);
        assert(num <= 0);
        lemma_quot_nonpos(num * ONE, a);
        assert(num * ONE <= 0) by (nonlinear_arith)
            requires
                num <= 0,
                ONE > 0,
        ;
        assert(far_root(s, ray) <= 0);
        lemma_roots_ordered(s, ray);
    }
}

/// Dividing by a positive number keeps the sign, so the product with the
/// dividend is not negative.
proof fn lemma_div_keeps_sign(w: int, r: int)
    requires
        r > 0,
    ensures
        fmul(fdiv(w, r), w) >= 0,
{
    let q = fdiv(w, r);
    if w >= 0 {
        assert(w * ONE >= 0) by (nonlinear_arith)
            requires
                w >= 0,
                ONE > 0,
        ;
        assert((w * ONE) / r >= 0) by (nonlinear_arith)
            requires
                w * ONE >= 0,
                r > 0,
        ;
        assert(q >= 0);
    } else {
        assert(w * ONE < 0) by (nonlinear_arith)
            requires
                w < 0,
                ONE > 0,
        ;
        assert(abs(w * ONE) / r >= 0) by (nonlinear_arith)
            requires
                abs(w * ONE) > 0,
                r > 0,
        ;
        assert(q <= 0);
    }
    assert(q * w >= 0) by (nonlinear_arith)
        requires
            (w >= 0 && q >= 0) || (w < 0 && q <= 0),
    ;
    assert(abs(q * w) / abs(ONE as int) >= 0) by (nonlinear_arith)
        requires
            q * w >= 0,
    ;
}

/// A hit lies on the ray strictly inside the interval. Where the ray meets
/// the sphere from outside, the normal is the outward one, `(p - center) /
/// radius`, which for a positive radius points away from the center; from
/// inside, it is turned around.
pub proof fn lemma_sphere_hit_on_ray(s: Sphere, ray: RaySpec, t_min: int, t_max: int)
    ensures
        sphere_hit(s, ray, t_min, t_max) is Some ==> {
            let h = sphere_hit(s, ray, t_min, t_max)->Some_0;
            &&& t_min < h.t < t_max
            &&& h.p == ray_at(ray, h.t)
            &&& h.material == s.material
            &&& h.front_face ==> h.normal == vdiv(vsub(h.p, s.center@), s.radius as int)
            &&& !h.front_face ==> h.normal == vneg(vdiv(vsub(h.p, s.center@), s.radius as int))
            &&& h.front_face && s.radius > 0 ==> vdot(h.normal, vsub(h.p, s.center@)) >= 0
        },
{
    reveal(sphere_hit);
    if sphere_hit(s, ray, t_min, t_max) is Some {
        let h = sphere_hit(s, ray, t_min, t_max)->Some_0;
        let w = vsub(h.p, s.center@);
        if s.radius > 0 {
            lemma_div_keeps_sign(w.x, s.radius as int);
            lemma_div_keeps_sign(w.y, s.radius as int);
            lemma_div_keeps_sign(w.z, s.radius as int);
        }
    }
}

} // verus!
