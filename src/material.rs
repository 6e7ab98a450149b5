//! Surface materials and how they scatter light.

use vstd::prelude::*;
use crate::fixed::{abs, fdiv, fmin, fmul, fsqrt, fsub, fx_div, fx_min, fx_mul, fx_sqrt, fx_sub, ONE};
use crate::hit::{Hit, HitRecord};
use crate::random::{is_lambertian_point, random_lambertian_point, random_sphere_point};
use crate::ray::{Ray, RaySpec};
use crate::vec::{lemma_reflect_flips_normal_component, vlen_sq, 
    in_unit_ball, v3, vadd, vdot, vneg, vreflect, vrefract, vscale, vunit, Color, V3, Vec,
};

verus! {

/// A diffuse surface.
#[derive(Clone, Copy, Debug, PartialEq, Eq, Structural)]
pub struct Lambertian {
    pub albedo: Color,
}

/// A specular surface; `fuzz` perturbs the mirror direction.
#[derive(Clone, Copy, Debug, PartialEq, Eq, Structural)]
pub struct Metal {
    pub albedo: Color,
    pub fuzz: i64,
}

/// A transparent, refracting surface.
#[derive(Clone, Copy, Debug, PartialEq, Eq, Structural)]
pub struct Dielectric {
    pub ref_idx: i64,
}

#[derive(Clone, Copy, Debug, PartialEq, Eq, Structural)]
pub enum Material {
    Lambertian(Lambertian),
    Metal(Metal),
    Dielectric(Dielectric),
}

impl Lambertian {
    pub fn new(albedo: Color) -> (r: Lambertian)
        ensures
            r.albedo == albedo,
    {
        Self { albedo }
    }
}

impl Metal {
    pub fn new(albedo: Color, fuzz: i64) -> (r: Metal)
        ensures
            r.albedo == albedo,
            r.fuzz == fuzz,
    {
        Self { albedo, fuzz }
    }
}

impl Dielectric {
    pub fn new(ref_idx: i64) -> (r: Dielectric)
        ensures
            r.ref_idx == ref_idx,
    {
        Self { ref_idx }
    }
}

/// The color that leaves light untinted.
pub open spec fn white() -> V3 {
    v3(ONE as int, ONE as int, ONE as int)
}

pub open spec fn scatter_view(r: Option<(Color, Ray)>) -> Option<(V3, RaySpec)> {
    match r {
        Some((attenuation, scattered)) => Some((attenuation@, scattered@)),
        None => None,
    }
}

/// Diffuse scattering towards the normal plus `offset`, a point of the unit sphere.
pub open spec fn lambertian_scatter(m: Lambertian, hit: Hit, offset: V3) -> Option<(V3, RaySpec)> {
    Some((m.albedo@, RaySpec { origin: hit.p, dir: vadd(hit.normal, offset) }))
}

/// The mirror direction of the incoming ray, moved by `fuzz * jitter`; light
/// sent below the surface is absorbed.
pub open spec fn metal_scatter(m: Metal, ray: RaySpec, hit: Hit, jitter: V3) -> Option<(V3, RaySpec)> {
    let dir = vadd(vreflect(vunit(ray.dir), hit.normal), vscale(jitter, m.fuzz as int));
    if vdot(dir, hit.normal) > 0 {
        Some((m.albedo@, RaySpec { origin: hit.p, dir }))
    } else {
        None
    }
}

/// The ratio of refractive indices on the two sides of the surface.
pub open spec fn eta_ratio(m: Dielectric, hit: Hit) -> int {
    if hit.front_face {
        fdiv(ONE as int, m.ref_idx as int)
    } else {
        m.ref_idx as int
    }
}

/// The cosine of the angle between the incoming ray and the normal, at most one.
pub open spec fn cos_incidence(ray: RaySpec, hit: Hit) -> int {
    fmin(ONE as int, vdot(hit.normal, vneg(vunit(ray.dir))))
}

pub open spec fn sin_incidence(ray: RaySpec, hit: Hit) -> int {
    let c = cos_incidence(ray, hit);
    fsqrt(fsub(ONE as int, fmul(c, c)))
}

/// Snell's law has no solution: the ray must be reflected.
pub open spec fn total_internal_reflection(m: Dielectric, ray: RaySpec, hit: Hit) -> bool {
    fmul(eta_ratio(m, hit), sin_incidence(ray, hit)) > ONE
}

/// Refraction, or reflection where refraction is impossible; glass does not tint.
pub open spec fn dielectric_scatter(m: Dielectric, ray: RaySpec, hit: Hit) -> Option<(V3, RaySpec)> {
    let unit_dir = vunit(ray.dir);
    let dir = if total_internal_reflection(m, ray, hit) {
        vreflect(unit_dir, hit.normal)
    } else {
        vrefract(unit_dir, hit.normal, eta_ratio(m, hit))
    };
    Some((white(), RaySpec { origin: hit.p, dir }))
}

/// What scattering off `m` may give, whatever the random draws were.
pub open spec fn scatter_outcome(m: Material, ray: RaySpec, hit: Hit, r: Option<(V3, RaySpec)>) -> bool {
    match m {
        Material::Lambertian(l) => exists|q: V3|
            is_lambertian_point(q) && r == lambertian_scatter(l, hit, q),
        Material::Metal(me) => exists|q: V3| in_unit_ball(q) && r == metal_scatter(me, ray, hit, q),
        Material::Dielectric(d) => r == dielectric_scatter(d, ray, hit),
    }
}

impl Lambertian {
    /// Scatters towards the normal plus the given point of the unit sphere.
    pub fn scatter_with(&self, hit: &HitRecord, offset: Vec) -> (r: Option<(Color, Ray)>)
        ensures
            scatter_view(r) == lambertian_scatter(*self, hit@, offset@),
    {
        let scattered = Ray::new(hit.p, hit.normal.add(offset));
        Some((self.albedo, scattered))
    }

    pub fn scatter(&self, ray: &Ray, hit: &HitRecord) -> (r: Option<(Color, Ray)>)
        ensures
            exists|q: V3| is_lambertian_point(q) && scatter_view(r) == lambertian_scatter(*self, hit@, q),
    {
        let offset = random_lambertian_point();
        self.scatter_with(hit, offset)
    }
}

impl Metal {
    /// Scatters to the mirror direction moved by `fuzz` times `jitter`.
    pub fn scatter_with(&self, ray: &Ray, hit: &HitRecord, jitter: Vec) -> (r: Option<(Color, Ray)>)
        ensures
            scatter_view(r) == metal_scatter(*self, ray@, hit@, jitter@),
    {
        let reflected = ray.dir.unit().reflect(hit.normal);
        let scattered = Ray::new(hit.p, reflected.add(jitter.scale(self.fuzz)));
        if scattered.dir.dot(hit.normal) > 0 {
            Some((self.albedo, scattered))
        } else {
            None
        }
    }

    pub fn scatter(&self, ray: &Ray, hit: &HitRecord) -> (r: Option<(Color, Ray)>)
        ensures
            exists|q: V3| in_unit_ball(q) && scatter_view(r) == metal_scatter(*self, ray@, hit@, q),
    {
        let jitter = random_sphere_point();
        self.scatter_with(ray, hit, jitter)
    }
}

impl Dielectric {
    pub fn scatter(&self, ray: &Ray, hit: &HitRecord) -> (r: Option<(Color, Ray)>)
        ensures
            scatter_view(r) == dielectric_scatter(*self, ray@, hit@),
    {
        let etai_etat = if hit.front_face {
            fx_div(ONE, self.ref_idx)
        } else {
            self.ref_idx
        };
        let color = Vec::new(ONE, ONE, ONE);
        let direction = ray.dir.unit();
        let cos_theta = fx_min(ONE, hit.normal.dot(direction.neg()));
        let sin_theta = fx_sqrt(fx_sub(ONE, fx_mul(cos_theta, cos_theta)));
        if fx_mul(etai_etat, sin_theta) > ONE {
            let reflected = direction.reflect(hit.normal);
            Some((color, Ray::new(hit.p, reflected)))
        } else {
            let refracted = direction.refract(hit.normal, etai_etat);
            Some((color, Ray::new(hit.p, refracted)))
        }
    }
}

impl Material {
    /// Scatters an incoming ray at a hit, or absorbs it (`None`).
    pub fn scatter(&self, ray: &Ray, hit: &HitRecord) -> (r: Option<(Color, Ray)>)
        ensures
            scatter_outcome(*self, ray@, hit@, scatter_view(r)),
    {
        match self {
            Material::Lambertian(m) => m.scatter(ray, hit),
            Material::Metal(m) => m.scatter(ray, hit),
            Material::Dielectric(m) => m.scatter(ray, hit),
        }
    }
}

/// The mirror direction of the incoming ray about the normal.
pub open spec fn mirror(ray: RaySpec, hit: Hit) -> V3 {
    vreflect(vunit(ray.dir), hit.normal)
}

/// Metal without fuzz is a perfect mirror: whatever the jitter drawn, the ray
/// leaves in the exact mirror direction, or is absorbed if that points below
/// the surface.
pub proof fn lemma_metal_without_fuzz(m: Metal, ray: RaySpec, hit: Hit, jitter: V3)
    requires
        m.fuzz == 0,
    ensures
        metal_scatter(m, ray, hit, jitter) == (if vdot(mirror(ray, hit), hit.normal) > 0 {
            Some((m.albedo@, RaySpec { origin: hit.p, dir: mirror(ray, hit) }))
        } else {
            None
        }),
{
    assert(vscale(jitter, 0) == v3(0, 0, 0));
    assert(vadd(mirror(ray, hit), v3(0, 0, 0)) == mirror(ray, hit));
}

/// At normal incidence the sine of the angle is zero, so refraction is always
/// possible, whatever the refractive index.
pub proof fn lemma_normal_incidence_refracts(m: Dielectric, ray: RaySpec, hit: Hit)
    requires
        cos_incidence(ray, hit) == ONE || sin_incidence(ray, hit) == 0,
    ensures
        !total_internal_reflection(m, ray, hit),
        dielectric_scatter(m, ray, hit) == Some(
            (
                white(),
                RaySpec {
                    origin: hit.p,
                    dir: vrefract(vunit(ray.dir), hit.normal, eta_ratio(m, hit)),
                },
            ),
        ),
{
    if cos_incidence(ray, hit) == ONE {
        assert(fmul(ONE as int, ONE as int) == ONE) by (nonlinear_arith)
            requires
                ONE == 268435456,
        ;
    }
    assert(sin_incidence(ray, hit) == 0);
    assert(fmul(eta_ratio(m, hit), 0) == 0);
}

/// Metal without fuzz, met head-on (the ray's unit direction is the reverse
/// of a normal of length one up to round-off), always sends the ray back
/// along the mirror direction.
pub proof fn lemma_metal_head_on(m: Metal, ray: RaySpec, hit: Hit, jitter: V3)
    requires
        m.fuzz == 0,
        vunit(ray.dir) == vneg(hit.normal),
        abs(vlen_sq(hit.normal) - ONE) <= 8,
        abs(hit.normal.x) <= 2 * ONE,
        abs(hit.normal.y) <= 2 * ONE,
        abs(hit.normal.z) <= 2 * ONE,
    ensures
        metal_scatter(m, ray, hit, jitter) == Some(
            (m.albedo@, RaySpec { origin: hit.p, dir: mirror(ray, hit) }),
        ),
{
    let n = hit.normal;
    let v = vneg(n);
    assert(v == v3(-n.x, -n.y, -n.z));
    lemma_fmul_odd(n.x, n.x);
    lemma_fmul_odd(n.y, n.y);
    lemma_fmul_odd(n.z, n.z);
    let d = vdot(v, n);
    assert(d == -vlen_sq(n));
    lemma_reflect_flips_normal_component(v, n);
    let dr = vdot(mirror(ray, hit), n);
    assert(abs(dr + d) * ONE <= 12 * ONE + 22 * abs(d));
    assert(dr > 0) by (nonlinear_arith)
        requires
            abs(dr + d) * ONE <= 12 * ONE + 22 * abs(d),
            -(ONE + 8) <= d <= -(ONE - 8),
            ONE == 268435456,
    ;
    lemma_metal_without_fuzz(m, ray, hit, jitter);
}

/// Products with a negated factor are negated.
proof fn lemma_fmul_odd(a: int, b: int)
    ensures
        fmul(-a, b) == -fmul(a, b),
{
    assert((-a) * b == -(a * b)) by (nonlinear_arith);
}

} // verus!
