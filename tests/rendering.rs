use raytracer::camera::Camera;
use raytracer::color::{clamp, write_color, CHANNEL_MAX};
use raytracer::fixed::{fx_add, fx_mul, fx_sub, LIMIT, ONE};
use raytracer::hit::{HitRecord, Hittable, HittableVec, Sphere};
use raytracer::material::{Dielectric, Lambertian, Material, Metal};
use raytracer::random::{
    azimuth_candidate, ball_candidate, disk_candidate, hemisphere_point_from,
    lambertian_point_from, random_disk_point, random_hemisphere_point, random_lambertian_point,
    random_sphere_point,
};
use raytracer::ray::Ray;
use raytracer::render::{ray_color, render_pixel, sample_coord, HALF, SKY_GREEN, T_MIN};
use raytracer::vec::Vec as Vec3;

fn fx(v: f64) -> i64 {
    (v * ONE as f64).round() as i64
}

fn v(x: f64, y: f64, z: f64) -> Vec3 {
    Vec3::new(fx(x), fx(y), fx(z))
}

fn close(a: i64, b: i64, tol: i64) -> bool {
    (a - b).abs() <= tol
}

fn head_on_hit(material: Material) -> (Ray, HitRecord) {
    let sphere = Sphere::new(v(0.0, 0.0, -5.0), fx(1.0), material);
    let ray = Ray::new(Vec3::zero(), v(0.0, 0.0, -1.0));
    let hit = sphere.hit(&ray, 0, LIMIT).unwrap();
    (ray, hit)
}

fn sky_of(dir: Vec3) -> Vec3 {
    let t = fx_mul(HALF, fx_add(dir.unit().y, ONE));
    Vec3::new(ONE, ONE, ONE)
        .scale(fx_sub(ONE, t))
        .add(Vec3::new(HALF, SKY_GREEN, ONE).scale(t))
}

fn pinhole() -> Camera {
    Camera::new(Vec3::zero(), v(0.0, 0.0, -1.0), v(0.0, 1.0, 0.0), ONE, ONE, 0, ONE)
}

#[test]
fn metal_without_fuzz_mirrors_exactly() {
    let metal = Metal::new(v(0.7, 0.6, 0.5), 0);
    let (ray, hit) = head_on_hit(Material::Metal(metal));
    for _ in 0..20 {
        let (attenuation, scattered) = metal.scatter(&ray, &hit).unwrap();
        assert_eq!(attenuation, v(0.7, 0.6, 0.5));
        assert_eq!(scattered.origin, v(0.0, 0.0, -4.0));
        assert_eq!(scattered.dir, v(0.0, 0.0, 1.0));
    }
    let oblique = Ray::new(v(0.0, 1.0, 0.0), v(0.0, -1.0, -4.0));
    let (_, scattered) = metal.scatter(&oblique, &hit).unwrap();
    assert_eq!(scattered.dir, oblique.dir.unit().reflect(hit.normal));
}

#[test]
fn metal_absorbs_light_sent_below_the_surface() {
    let metal = Metal::new(v(0.7, 0.6, 0.5), ONE);
    let (ray, hit) = head_on_hit(Material::Metal(metal));
    let below = Vec3::new(0, 0, -ONE / 2 * 3);
    assert_eq!(metal.scatter_with(&ray, &hit, below), None);
    let (_, scattered) = metal.scatter_with(&ray, &hit, v(0.5, 0.0, 0.0)).unwrap();
    assert_eq!(scattered.dir, v(0.5, 0.0, 1.0));
}

#[test]
fn dielectric_at_normal_incidence_refracts() {
    for index in [fx(1.5), fx(0.5), fx(100.0), 1].iter() {
        let glass = Dielectric::new(*index);
        let (ray, hit) = head_on_hit(Material::Dielectric(glass));
        let (attenuation, scattered) = glass.scatter(&ray, &hit).unwrap();
        assert_eq!(attenuation, v(1.0, 1.0, 1.0));
        assert_eq!(scattered.origin, hit.p);
        assert_eq!(scattered.dir, v(0.0, 0.0, -1.0));
    }
}

#[test]
fn dielectric_reflects_past_the_critical_angle() {
    let glass = Dielectric::new(fx(1.5));
    let ray = Ray::new(Vec3::zero(), v(1.0, 0.0, -0.2));
    let hit = HitRecord::new(v(1.0, 0.0, 0.0), ONE, &ray, v(0.0, 0.0, -1.0), Material::Dielectric(glass));
    assert!(!hit.front_face);
    let (attenuation, scattered) = glass.scatter(&ray, &hit).unwrap();
    assert_eq!(attenuation, v(1.0, 1.0, 1.0));
    assert_eq!(scattered.dir, ray.dir.unit().reflect(hit.normal));
    assert!(scattered.dir.z > 0);
}

#[test]
fn lambertian_scatters_around_the_normal() {
    let albedo = v(0.8, 0.3, 0.3);
    let matte = Lambertian::new(albedo);
    let (ray, hit) = head_on_hit(Material::Lambertian(matte));
    for _ in 0..50 {
        let (attenuation, scattered) = matte.scatter(&ray, &hit).unwrap();
        assert_eq!(attenuation, albedo);
        assert_eq!(scattered.origin, hit.p);
        let offset = scattered.dir.sub(hit.normal);
        assert!(close(offset.length(), ONE, 7));
    }
    let (_, scattered) = matte.scatter_with(&hit, v(0.0, 1.0, 0.0)).unwrap();
    assert_eq!(scattered.dir, v(0.0, 1.0, 1.0));
}

#[test]
fn material_dispatches_to_its_variant() {
    let glass = Material::Dielectric(Dielectric::new(fx(1.5)));
    let (ray, hit) = head_on_hit(glass);
    let (_, scattered) = glass.scatter(&ray, &hit).unwrap();
    assert_eq!(scattered.dir, v(0.0, 0.0, -1.0));
    let mirror = Material::Metal(Metal::new(v(1.0, 1.0, 1.0), 0));
    let (_, scattered) = mirror.scatter(&ray, &hit).unwrap();
    assert_eq!(scattered.dir, v(0.0, 0.0, 1.0));
}

#[test]
fn depth_zero_is_black() {
    let mut world = HittableVec::new();
    world.push(Sphere::new(v(0.0, 0.0, -5.0), fx(1.0), Material::Lambertian(Lambertian::new(v(0.5, 0.5, 0.5)))));
    let ray = Ray::new(Vec3::zero(), v(0.0, 0.0, -1.0));
    assert_eq!(ray_color(&ray, &world, 0), Vec3::zero());
    let empty = HittableVec::new();
    assert_eq!(ray_color(&ray, &empty, 0), Vec3::zero());
}

#[test]
fn sky_gradient_exact_values() {
    let empty = HittableVec::new();
    let up = Ray::new(Vec3::zero(), v(0.0, 1.0, 0.0));
    assert_eq!(ray_color(&up, &empty, 5), Vec3::new(HALF, SKY_GREEN, ONE));
    let level = Ray::new(Vec3::zero(), v(0.0, 0.0, -1.0));
    assert_eq!(ray_color(&level, &empty, 5), Vec3::new(HALF + HALF / 2, HALF + SKY_GREEN / 2, ONE));
    let down = Ray::new(Vec3::zero(), v(0.0, -1.0, 0.0));
    assert_eq!(ray_color(&down, &empty, 1), Vec3::new(ONE, ONE, ONE));
}

#[test]
fn ground_sphere_scene_shows_the_sky_where_rays_miss() {
    let mut world = HittableVec::new();
    world.push(Sphere::new(v(0.0, -1000.5, -1.0), fx(1000.0), Material::Lambertian(Lambertian::new(v(0.5, 0.5, 0.5)))));
    let cam = pinhole();
    for (s, t) in [(0.0, 1.0), (0.5, 0.9), (1.0, 0.75), (0.25, 0.6)].iter() {
        let ray = cam.cast_ray(fx(*s), fx(*t));
        assert!(world.hit(&ray, T_MIN, LIMIT).is_none());
        assert_eq!(ray_color(&ray, &world, 1), sky_of(ray.dir));
    }
    let ray = cam.cast_ray(fx(0.5), fx(0.0));
    assert!(world.hit(&ray, T_MIN, LIMIT).is_some());
    assert_eq!(ray_color(&ray, &world, 1), Vec3::zero());
}

#[test]
fn mirror_ball_enclosing_the_camera_renders_black() {
    let mut world = HittableVec::new();
    world.push(Sphere::new(Vec3::zero(), fx(10.0), Material::Metal(Metal::new(v(0.9, 0.9, 0.9), ONE))));
    let cam = pinhole();
    let samples: u32 = 400;
    let sum = render_pixel(&cam, &world, 3, 4, 8, 8, samples, 10);
    for channel in [sum.x, sum.y, sum.z].iter() {
        assert!(*channel >= 0);
        assert!(*channel / samples as i64 <= ONE / 50, "{:?}", sum);
    }
    assert_eq!(render_pixel(&cam, &world, 3, 4, 8, 8, 0, 10), Vec3::zero());
}

#[test]
fn camera_basis_and_pinhole_rays() {
    let cam = pinhole();
    assert_eq!(cam.w, v(0.0, 0.0, 1.0));
    assert_eq!(cam.u, v(1.0, 0.0, 0.0));
    assert_eq!(cam.v, v(0.0, 1.0, 0.0));
    assert_eq!(cam.llcorner, v(-1.0, -1.0, -1.0));
    assert_eq!(cam.horizontal, v(2.0, 0.0, 0.0));
    assert_eq!(cam.vertical, v(0.0, 2.0, 0.0));
    assert_eq!(cam.lens_radius, 0);
    let center = cam.cast_ray(HALF, HALF);
    assert_eq!(center, Ray::new(Vec3::zero(), v(0.0, 0.0, -1.0)));
    let corner = cam.cast_ray(ONE, ONE);
    assert_eq!(corner.dir, v(1.0, 1.0, -1.0));
    for _ in 0..10 {
        assert_eq!(cam.cast_ray(fx(0.25), fx(0.75)), cam.cast_ray_with(fx(0.25), fx(0.75), Vec3::zero()));
    }
}

#[test]
fn camera_lens_moves_the_origin_within_the_aperture() {
    let cam = Camera::new(Vec3::zero(), v(0.0, 0.0, -1.0), v(0.0, 1.0, 0.0), ONE, ONE, fx(2.0), fx(2.0));
    assert_eq!(cam.lens_radius, ONE);
    let jittered = cam.cast_ray_with(HALF, HALF, v(0.5, 0.0, 0.0));
    assert_eq!(jittered.origin, v(0.5, 0.0, 0.0));
    assert_eq!(jittered.origin.add(jittered.dir), v(0.0, 0.0, -2.0));
    let mut moved = false;
    for _ in 0..20 {
        let r = cam.cast_ray(HALF, HALF);
        assert!(r.origin.length_squared() < ONE);
        assert_eq!(r.origin.z, 0);
        moved |= r.origin != Vec3::zero();
    }
    assert!(moved);
}

#[test]
fn clamp_bounds_values() {
    assert_eq!(clamp(5, 0, 10), 5);
    assert_eq!(clamp(-5, 0, 10), 0);
    assert_eq!(clamp(15, 0, 10), 10);
    assert_eq!(clamp(10, 0, 10), 10);
}

#[test]
fn write_color_gamma_corrects_and_quantizes() {
    let mut out = Vec::new();
    write_color(&mut out, Vec3::new(ONE, HALF, 0), 1);
    assert_eq!(String::from_utf8(out.clone()).unwrap(), "255 181 0\n");
    write_color(&mut out, Vec3::new(4 * ONE, ONE, fx(0.09)), 4);
    assert_eq!(String::from_utf8(out).unwrap(), "255 181 0\n255 128 38\n");
    assert_eq!(CHANNEL_MAX / (ONE / 256), 255);
}

#[test]
fn write_color_clamps_out_of_range_colors() {
    let mut out = Vec::new();
    write_color(&mut out, Vec3::new(-ONE, 3 * ONE, LIMIT), 1);
    assert_eq!(String::from_utf8(out).unwrap(), "0 255 255\n");
}

#[test]
fn sample_coordinates_vary_within_the_pixel() {
    let draws: Vec<i64> = (0..100).map(|_| sample_coord(0, 2)).collect();
    assert!(draws.iter().all(|d| 0 <= *d && *d < ONE));
    assert!(draws.iter().any(|d| *d != draws[0]));
}

#[test]
fn random_points_lie_in_their_regions() {
    let mut distinct = false;
    let first = random_sphere_point();
    for _ in 0..200 {
        let p = random_sphere_point();
        assert!(p.length_squared() < ONE);
        distinct |= p != first;
        let d = random_disk_point();
        assert_eq!(d.z, 0);
        assert!(d.length_squared() < ONE);
        let l = random_lambertian_point();
        assert!(-ONE <= l.z && l.z < ONE);
        assert!(close(l.length(), ONE, 7), "{:?}", l);
        let n = v(0.0, 1.0, 0.0);
        let h = random_hemisphere_point(n);
        assert!(h.dot(n) >= 0);
        assert!(h.length_squared() < ONE);
    }
    assert!(distinct);
}

#[test]
fn sample_coordinates_fall_inside_their_pixel() {
    for _ in 0..50 {
        let s = sample_coord(3, 5);
        assert!(3 * ONE / 4 <= s && s < ONE);
    }
    let s = sample_coord(0, 2);
    assert!(0 <= s && s < ONE);
}

#[test]
fn ball_candidates_are_kept_only_inside() {
    let inside = v(0.5, -0.5, 0.5);
    assert_eq!(ball_candidate(inside), Some(inside));
    assert_eq!(ball_candidate(v(0.6, 0.6, 0.6)), None);
    assert_eq!(ball_candidate(v(1.0, 0.0, 0.0)), None);
    assert_eq!(ball_candidate(Vec3::zero()), Some(Vec3::zero()));
}

#[test]
fn disk_candidates_are_kept_only_inside() {
    let inside = v(0.5, -0.5, 0.0);
    assert_eq!(disk_candidate(inside), Some(inside));
    assert_eq!(disk_candidate(v(0.8, 0.8, 0.0)), None);
    assert_eq!(disk_candidate(v(0.1, 0.1, 0.1)), None);
}

#[test]
fn hemisphere_point_is_flipped_to_the_normal_side() {
    let n = v(0.0, 1.0, 0.0);
    assert_eq!(hemisphere_point_from(v(0.1, 0.2, 0.3), n), v(0.1, 0.2, 0.3));
    assert_eq!(hemisphere_point_from(v(0.1, -0.2, 0.3), n), v(-0.1, 0.2, -0.3));
    assert_eq!(hemisphere_point_from(v(0.1, 0.0, 0.3), n), v(-0.1, 0.0, -0.3));
}

#[test]
fn azimuth_candidates_avoid_the_center() {
    let ok = v(0.3, -0.4, 0.0);
    assert_eq!(azimuth_candidate(ok), Some(ok));
    assert_eq!(azimuth_candidate(Vec3::new(1, 0, 0)), None);
    assert_eq!(azimuth_candidate(v(0.1, 0.1, 0.0)), None);
    assert_eq!(azimuth_candidate(v(0.9, 0.9, 0.0)), None);
}

#[test]
fn lambertian_point_lies_on_the_unit_sphere() {
    let p = lambertian_point_from(0, v(0.5, 0.0, 0.0));
    assert_eq!(p, v(1.0, 0.0, 0.0));
    let p = lambertian_point_from(fx(0.6), v(0.0, -0.3, 0.0));
    assert!(close(p.x, 0, 2) && close(p.y, -fx(0.8), 8) && p.z == fx(0.6), "{:?}", p);
    let p = lambertian_point_from(-ONE, v(0.3, 0.4, 0.0));
    assert_eq!(p, Vec3::new(0, 0, -ONE));
    for z in [fx(0.5), fx(-0.99), fx(0.123)].iter() {
        for d in [v(0.3, 0.4, 0.0), v(-0.26, 0.01, 0.0), v(0.6, -0.7, 0.0)].iter() {
            let p = lambertian_point_from(*z, *d);
            assert!(close(p.length(), ONE, 7), "{:?}", p);
            assert_eq!(p.z, *z);
        }
    }
    for _ in 0..200 {
        assert!(close(random_lambertian_point().length(), ONE, 7));
    }
}

#[test]
fn sky_stays_between_white_and_blue_for_any_direction() {
    let empty = HittableVec::new();
    let tiny_up = Ray::new(Vec3::zero(), Vec3::new(0, 1, 0));
    assert_eq!(ray_color(&tiny_up, &empty, 1), Vec3::new(HALF, SKY_GREEN, ONE));
    let zero = Ray::new(Vec3::zero(), Vec3::zero());
    assert_eq!(ray_color(&zero, &empty, 1), Vec3::new(HALF + HALF / 2, HALF + SKY_GREEN / 2, ONE));
    for d in [Vec3::new(3, -1, 2), Vec3::new(-7, 0, 0), v(0.2, 0.9, -0.4), Vec3::new(0, i64::MIN, 0)].iter() {
        let c = ray_color(&Ray::new(Vec3::zero(), *d), &empty, 1);
        assert!(HALF <= c.x && c.x <= ONE, "{:?}", c);
        assert!(SKY_GREEN - 1 <= c.y && c.y <= ONE, "{:?}", c);
        assert_eq!(c.z, ONE);
    }
}
