//! The radiance estimator: a depth-bounded random walk through the scene.

use vstd::prelude::*;
use crate::camera::{lemma_pinhole, lens_ray, pinhole_ray, Camera};
use crate::fixed::{lemma_quot_one, fadd, fdiv, fmul, fsub, fx_add, fx_div, fx_mul, fx_sub, LIMIT, ONE};
use crate::random::uniform;
use crate::hit::{lemma_scene_hit_nearest, lemma_sphere_hit_on_ray, sphere_hit, scene_hit, Hittable, HittableVec, Sphere};
use crate::material::{Material, scatter_outcome, scatter_view, white};
use crate::ray::{Ray, RaySpec};
use crate::vec::{lemma_unit_coordinates, in_unit_disk, v_in_range, v3, vadd, vmul, vscale, vunit, vzero, Color, V3, Vec};

verus! {

/// The nearest distance at which a hit counts: bounced rays start on a
/// surface, and round-off must not let them hit it again at once.
pub const T_MIN: i64 = 268435;

/// One half.
pub const HALF: i64 = 134217728;

/// The green component of the sky's blue.
pub const SKY_GREEN: i64 = 187904819;

/// The background: white at the bottom, sky blue at the top, blended by the
/// height of the ray's unit direction.
pub open spec fn sky(ray: RaySpec) -> V3 {
    let t = fmul(HALF as int, fadd(vunit(ray.dir).y, ONE as int));
    vadd(vscale(white(), fsub(ONE as int, t)), vscale(v3(HALF as int, SKY_GREEN as int, ONE as int), t))
}

/// The color of a path after a scatter outcome `s`, where `rest` is the color
/// that the scattered ray brought back.
pub open spec fn bounced(s: Option<(V3, RaySpec)>, rest: V3, c: V3) -> bool {
    match s {
        None => c == vzero(),
        Some((attenuation, _)) => c == vmul(attenuation, rest),
    }
}

/// `c` is a color that the estimator may return for `ray` with `depth` bounces
/// left, for some outcome of each random draw.
pub open spec fn radiance(world: Seq<Sphere>, ray: RaySpec, depth: nat, c: V3) -> bool
    decreases depth,
{
    if depth == 0 {
        c == vzero()
    } else {
        match scene_hit(world, ray, T_MIN as int, LIMIT as int) {
            None => c == sky(ray),
            Some(h) => exists|s: Option<(V3, RaySpec)>, rest: V3|
                #![trigger scatter_outcome(h.material, ray, h, s), bounced(s, rest, c)]
                scatter_outcome(h.material, ray, h, s) && bounced(s, rest, c) && (s is Some
                    ==> radiance(world, s->Some_0.1, (depth - 1) as nat, rest)),
        }
    }
}

/// A color whose channels all lie in `[0, 1]`.
pub open spec fn color_in_range(c: V3) -> bool {
    0 <= c.x <= ONE && 0 <= c.y <= ONE && 0 <= c.z <= ONE
}

/// The material tints by a color in `[0, 1]`, or not at all.
pub open spec fn material_in_range(m: Material) -> bool {
    match m {
        Material::Lambertian(l) => color_in_range(l.albedo@),
        Material::Metal(me) => color_in_range(me.albedo@),
        Material::Dielectric(_) => true,
    }
}

pub open spec fn albedos_in_range(world: Seq<Sphere>) -> bool {
    forall|i: int| 0 <= i < world.len() ==> material_in_range(#[trigger] world[i].material)
}

proof fn lemma_half_of(s: int)
    requires
        0 <= s <= 2 * ONE,
    ensures
        0 <= fmul(HALF as int, s) <= ONE,
        fmul(HALF as int, s) == s / 2,
{
    assert(HALF * s >= 0) by (nonlinear_arith)
        requires
            s >= 0,
            HALF > 0,
    ;
    assert((HALF * s) / (ONE as int) == s / 2) by (nonlinear_arith)
        requires
            s >= 0,
            HALF == 134217728,
            ONE == 268435456,
    ;
}

proof fn lemma_scaled_part(k: int, t: int)
    requires
        0 <= k <= ONE,
        0 <= t <= ONE,
    ensures
        fmul(k, t) * ONE <= k * t < fmul(k, t) * ONE + ONE,
        0 <= fmul(k, t) <= ONE,
{
    assert(0 <= k * t <= ONE * ONE) by (nonlinear_arith)
        requires
            0 <= k <= ONE,
            0 <= t <= ONE,
    ;
    lemma_quot_one(k * t);
}

/// The background lies between white and sky blue, channel by channel, for
/// every direction (the zero direction included).
pub proof fn lemma_sky_in_range(ray: RaySpec)
    ensures
        HALF <= sky(ray).x <= ONE,
        SKY_GREEN - 1 <= sky(ray).y <= ONE,
        sky(ray).z == ONE,
{
    lemma_unit_coordinates(ray.dir);
    let s = fadd(vunit(ray.dir).y, ONE as int);
    lemma_half_of(s);
    let t = fmul(HALF as int, s);
    lemma_scaled_part(ONE as int, ONE - t);
    lemma_scaled_part(HALF as int, t);
    lemma_scaled_part(SKY_GREEN as int, t);
    lemma_scaled_part(ONE as int, t);
    assert(fmul(ONE as int, ONE - t) == ONE - t);
    assert(fmul(ONE as int, t) == t);
    assert(fmul(SKY_GREEN as int, t) * ONE > SKY_GREEN * t - ONE);
    assert(ONE - t + fmul(SKY_GREEN as int, t) >= SKY_GREEN - 1) by (nonlinear_arith)
        requires
            fmul(SKY_GREEN as int, t) * ONE > SKY_GREEN * t - ONE,
            0 <= t <= ONE,
            SKY_GREEN == 187904819,
            ONE == 268435456,
    ;
    assert(ONE - t + fmul(SKY_GREEN as int, t) <= ONE) by (nonlinear_arith)
        requires
            fmul(SKY_GREEN as int, t) * ONE <= SKY_GREEN * t,
            0 <= t <= ONE,
            SKY_GREEN == 187904819,
            ONE == 268435456,
    ;
}

/// Tinting never amplifies: where every material's albedo lies in `[0, 1]`,
/// every color the estimator may return lies in `[0, 1]`.
pub proof fn lemma_radiance_in_range(world: Seq<Sphere>, ray: RaySpec, depth: nat, c: V3)
    requires
        albedos_in_range(world),
        radiance(world, ray, depth, c),
    ensures
        color_in_range(c),
    decreases depth,
{
    if depth > 0 {
        match scene_hit(world, ray, T_MIN as int, LIMIT as int) {
            None => {
                lemma_sky_in_range(ray);
            },
            Some(h) => {
                lemma_scene_hit_nearest(world, ray, T_MIN as int, LIMIT as int);
                let i = choose|i: int|
                    0 <= i < world.len() && #[trigger] sphere_hit(world[i], ray, T_MIN as int, LIMIT as int)
                        == scene_hit(world, ray, T_MIN as int, LIMIT as int);
                lemma_sphere_hit_on_ray(world[i], ray, T_MIN as int, LIMIT as int);
                assert(h.material == world[i].material);
                assert(material_in_range(h.material));
                let (s, rest) = choose|s: Option<(V3, RaySpec)>, rest: V3|
                    #![trigger scatter_outcome(h.material, ray, h, s), bounced(s, rest, c)]
                    scatter_outcome(h.material, ray, h, s) && bounced(s, rest, c) && (s is Some
                        ==> radiance(world, s->Some_0.1, (depth - 1) as nat, rest));
                if s is Some {
                    let (att, next) = s->Some_0;
                    lemma_radiance_in_range(world, next, (depth - 1) as nat, rest);
                    assert(color_in_range(att));
                    lemma_scaled_part(att.x, rest.x);
                    lemma_scaled_part(att.y, rest.y);
                    lemma_scaled_part(att.z, rest.z);
                }
            },
        }
    }
}

fn background(r: &Ray) -> (c: Color)
    ensures
        c@ == sky(r@),
{
    let dir = r.dir.unit();
    let t = fx_mul(HALF, fx_add(dir.y, ONE));
    Vec::new(ONE, ONE, ONE).scale(fx_sub(ONE, t)).add(Vec::new(HALF, SKY_GREEN, ONE).scale(t))
}

/// The color seen along `r`, following at most `depth` bounces.
pub fn ray_color(r: &Ray, world: &HittableVec, depth: u32) -> (c: Color)
    ensures
        radiance(world.objects@, r@, depth as nat, c@),
        depth == 0 ==> c@ == vzero(),
        depth > 0 && scene_hit(world.objects@, r@, T_MIN as int, LIMIT as int) is None ==> c@
            == sky(r@),
        albedos_in_range(world.objects@) ==> color_in_range(c@),
    decreases depth,
{
    let c = ray_color_in(r, world, depth);
    proof {
        if albedos_in_range(world.objects@) {
            lemma_radiance_in_range(world.objects@, r@, depth as nat, c@);
        }
    }
    c
}

fn ray_color_in(r: &Ray, world: &HittableVec, depth: u32) -> (c: Color)
    ensures
        radiance(world.objects@, r@, depth as nat, c@),
        depth == 0 ==> c@ == vzero(),
        depth > 0 && scene_hit(world.objects@, r@, T_MIN as int, LIMIT as int) is None ==> c@
            == sky(r@),
    decreases depth,
{
    if depth == 0 {
        return Vec::zero();
    }
    if let Some(rec) = world.hit(r, T_MIN, LIMIT) {
        let scattered = rec.material.scatter(r, &rec);
        let ghost outcome = scatter_view(scattered);
        assert(scene_hit(world.objects@, r@, T_MIN as int, LIMIT as int) == Some(rec@));
        assert(scatter_outcome(rec.material, r@, rec@, outcome));
        match scattered {
            Some((attenuation, next)) => {
                let rest = ray_color_in(&next, world, depth - 1);
                let c = attenuation.mul(rest);
                assert(bounced(outcome, rest@, c@));
                c
            },
            None => {
                assert(bounced(outcome, vzero(), vzero()));
                Vec::zero()
            },
        }
    } else {
        background(r)
    }
}

/// With a pinhole camera, a sample whose ray meets no sphere shows exactly the
/// background gradient along that ray, whatever the depth left.
pub proof fn lemma_missed_ray_shows_sky(
    cam: Camera,
    world: Seq<Sphere>,
    s: int,
    t: int,
    disk: V3,
    depth: nat,
    c: V3,
)
    requires
        cam.lens_radius == 0,
        v_in_range(cam.origin@),
        depth > 0,
        scene_hit(world, pinhole_ray(cam, s, t), T_MIN as int, LIMIT as int) is None,
        radiance(world, lens_ray(cam, s, t, disk), depth, c),
    ensures
        c == sky(pinhole_ray(cam, s, t)),
{
    lemma_pinhole(cam, s, t, disk);
}

/// The plane coordinate `(index + jitter) / (extent - 1)` of a point in pixel
/// `index` of a row or column of `extent` pixels.
pub open spec fn plane_coord(index: int, jitter: int, extent: int) -> int {
    fdiv(index * ONE + jitter, (extent - 1) * ONE)
}

/// The plane coordinate of a uniform random point of pixel `index`.
pub fn sample_coord(index: u32, extent: u32) -> (r: i64)
    ensures
        exists|jitter: int| 0 <= jitter < ONE && r == plane_coord(index as int, jitter, extent as int),
{
    let jitter = uniform(0, ONE);
    let r = fx_div(index as i64 * ONE + jitter, (extent as i64 - 1) * ONE);
    assert(r == plane_coord(index as int, jitter as int, extent as int));
    r
}

/// The componentwise sum of the colors in `cs`.
pub open spec fn vsum(cs: Seq<V3>) -> V3
    decreases cs.len(),
{
    if cs.len() == 0 {
        vzero()
    } else {
        vadd(vsum(cs.drop_last()), cs.last())
    }
}

/// `c` is a color that one sample of pixel `(i, j)` may bring back.
pub open spec fn pixel_sample(
    cam: Camera,
    world: Seq<Sphere>,
    i: int,
    j: int,
    width: int,
    height: int,
    depth: nat,
    c: V3,
) -> bool {
    exists|ju: int, jv: int, d: V3|
        0 <= ju < ONE && 0 <= jv < ONE && in_unit_disk(d) && radiance(
            world,
            lens_ray(cam, plane_coord(i, ju, width), plane_coord(j, jv, height), d),
            depth,
            c,
        )
}

/// The sum of `samples` estimates of the color of pixel `(i, j)` of a
/// `width` by `height` image, counted from the bottom left.
pub fn render_pixel(
    cam: &Camera,
    world: &HittableVec,
    i: u32,
    j: u32,
    width: u32,
    height: u32,
    samples: u32,
    depth: u32,
) -> (c: Color)
    ensures
        exists|cs: Seq<V3>|
            cs.len() == samples && c@ == vsum(cs) && forall|k: int|
                0 <= k < cs.len() ==> #[trigger] pixel_sample(
                    *cam,
                    world.objects@,
                    i as int,
                    j as int,
                    width as int,
                    height as int,
                    depth as nat,
                    cs[k],
                ),
{
    let mut color = Vec::zero();
    let ghost mut cs: Seq<V3> = Seq::empty();
    let mut n: u32 = 0;
    while n < samples
        invariant
            n <= samples,
            cs.len() == n,
            color@ == vsum(cs),
            forall|k: int|
                0 <= k < cs.len() ==> #[trigger] pixel_sample(
                    *cam,
                    world.objects@,
                    i as int,
                    j as int,
                    width as int,
                    height as int,
                    depth as nat,
                    cs[k],
                ),
        decreases samples - n,
    {
        let u = sample_coord(i, width);
        let v = sample_coord(j, height);
        let r = cam.cast_ray(u, v);
        let sample = ray_color(&r, world, depth);
        proof {
            let ju = choose|ju: int| 0 <= ju < ONE && u == plane_coord(i as int, ju, width as int);
            let jv = choose|jv: int| 0 <= jv < ONE && v == plane_coord(j as int, jv, height as int);
            let d = choose|d: V3| in_unit_disk(d) && r@ == lens_ray(*cam, u as int, v as int, d);
            assert(pixel_sample(*cam, world.objects@, i as int, j as int, width as int, height as int, depth as nat, sample@));
            let next = cs.push(sample@);
            assert(next.drop_last() == cs);
            assert forall|k: int| 0 <= k < next.len() implies #[trigger] pixel_sample(
                *cam,
                world.objects@,
                i as int,
                j as int,
                width as int,
                height as int,
                depth as nat,
                next[k],
            ) by {
                if k < cs.len() {
                    assert(next[k] == cs[k]);
                }
            }
            cs = next;
        }
        color = color.add(sample);
        n = n + 1;
    }
    color
}

} // verus!
