use raytracer::fixed::{fx_add, fx_div, fx_mul, fx_sqrt, LIMIT, ONE};
use raytracer::hit::{HitRecord, Hittable, HittableVec, Sphere};
use raytracer::material::{Lambertian, Material};
use raytracer::ray::Ray;
use raytracer::vec::Vec as Vec3;

fn fx(v: f64) -> i64 {
    (v * ONE as f64).round() as i64
}

fn v(x: f64, y: f64, z: f64) -> Vec3 {
    Vec3::new(fx(x), fx(y), fx(z))
}

fn grey() -> Material {
    Material::Lambertian(Lambertian::new(v(0.5, 0.5, 0.5)))
}

fn close(a: i64, b: i64, tol: i64) -> bool {
    (a - b).abs() <= tol
}

#[test]
fn scalar_operations_round_toward_zero_and_saturate() {
    assert_eq!(fx_mul(fx(1.5), fx(2.0)), fx(3.0));
    assert_eq!(fx_mul(-3, ONE / 2), -1);
    assert_eq!(fx_div(fx(3.0), fx(2.0)), fx(1.5));
    assert_eq!(fx_div(fx(1.0), 0), LIMIT);
    assert_eq!(fx_div(fx(-1.0), 0), -LIMIT);
    assert_eq!(fx_div(0, 0), 0);
    assert_eq!(fx_add(LIMIT, LIMIT), LIMIT);
    assert_eq!(fx_sqrt(fx(4.0)), fx(2.0));
    assert_eq!(fx_sqrt(fx(-4.0)), 0);
    assert_eq!(fx_sqrt(fx(2.0)), 379625062);
}

#[test]
fn vector_arithmetic_exact_values() {
    let a = v(1.0, 2.0, 3.0);
    let b = v(4.0, -5.0, 6.0);
    assert_eq!(a.add(b), v(5.0, -3.0, 9.0));
    assert_eq!(a.sub(b), v(-3.0, 7.0, -3.0));
    assert_eq!(a.mul(b), v(4.0, -10.0, 18.0));
    assert_eq!(a.scale(fx(2.0)), v(2.0, 4.0, 6.0));
    assert_eq!(a.div(fx(2.0)), v(0.5, 1.0, 1.5));
    assert_eq!(a.neg(), v(-1.0, -2.0, -3.0));
    assert_eq!(a.dot(b), fx(12.0));
    assert_eq!(a.cross(b), v(27.0, 6.0, -13.0));
    assert_eq!(v(3.0, 4.0, 0.0).length_squared(), fx(25.0));
    assert_eq!(v(3.0, 4.0, 0.0).length(), fx(5.0));
    assert_eq!(v(3.0, 4.0, 0.0).unit(), Vec3::new(3 * ONE / 5, 4 * ONE / 5, 0));
    assert_eq!(Vec3::zero(), Vec3::new(0, 0, 0));
}

#[test]
fn unit_vectors_have_length_one() {
    let samples = [
        v(1.0, 0.0, 0.0),
        v(3.0, 4.0, 12.0),
        v(-0.25, 7.5, 0.125),
        v(1000.0, -1000.0, 1.0),
        v(0.3, 0.3, 0.3),
    ];
    for s in samples.iter() {
        assert!(close(s.unit().length(), ONE, 64), "{:?}", s);
    }
}

#[test]
fn reflection_flips_the_normal_component() {
    let n = v(0.0, 1.0, 0.0);
    let d = v(1.0, -1.0, 0.0);
    let r = d.reflect(n);
    assert_eq!(r, v(1.0, 1.0, 0.0));
    assert_eq!(r.dot(n), -d.dot(n));

    let n = v(0.6, 0.8, 0.0);
    for d in [v(1.0, -2.0, 3.0), v(-0.5, 0.25, 9.0), v(10.0, 10.0, -10.0)].iter() {
        let r = d.reflect(n);
        assert!(close(r.dot(n), -d.dot(n), 256), "{:?}", d);
    }
}

#[test]
fn refraction_at_normal_incidence_goes_straight_through() {
    let n = v(0.0, 0.0, 1.0);
    let d = v(0.0, 0.0, -1.0);
    assert_eq!(d.refract(n, fx(1.0) * 2 / 3), d);
    assert_eq!(d.refract(n, fx(100.0)), d);
}

#[test]
fn ray_at_walks_along_the_direction() {
    let r = Ray::new(v(1.0, 2.0, 3.0), v(0.0, 0.5, -1.0));
    assert_eq!(r.at(fx(2.0)), v(1.0, 3.0, 1.0));
    assert_eq!(r.at(0), v(1.0, 2.0, 3.0));
}

#[test]
fn hit_record_faces_against_the_ray() {
    let r = Ray::new(v(0.0, 0.0, 0.0), v(0.0, 0.0, -1.0));
    let outside = HitRecord::new(v(0.0, 0.0, -1.0), fx(1.0), &r, v(0.0, 0.0, 1.0), grey());
    assert!(outside.front_face);
    assert_eq!(outside.normal, v(0.0, 0.0, 1.0));
    let inside = HitRecord::new(v(0.0, 0.0, -1.0), fx(1.0), &r, v(0.0, 0.0, -1.0), grey());
    assert!(!inside.front_face);
    assert_eq!(inside.normal, v(0.0, 0.0, 1.0));
}

#[test]
fn sphere_hit_returns_the_point_the_ray_was_aimed_at() {
    let center = v(0.0, 0.0, -5.0);
    let sphere = Sphere::new(center, fx(1.0), grey());
    let target = v(0.0, 0.6, -4.2);
    let ray = Ray::new(Vec3::zero(), target);
    let hit = sphere.hit(&ray, 0, LIMIT).expect("the ray is aimed at the sphere");
    assert!(close(hit.t, fx(1.0), 16));
    assert!(close(hit.p.x, target.x, 64));
    assert!(close(hit.p.y, target.y, 64));
    assert!(close(hit.p.z, target.z, 64));
    assert!(hit.normal.dot(hit.p.sub(center)) > 0);
    assert!(hit.front_face);
    assert_eq!(hit.material, grey());

    let straight = Ray::new(Vec3::zero(), v(0.0, 0.0, -1.0));
    let hit = sphere.hit(&straight, 0, LIMIT).unwrap();
    assert_eq!(hit.t, fx(4.0));
    assert_eq!(hit.p, v(0.0, 0.0, -4.0));
    assert_eq!(hit.normal, v(0.0, 0.0, 1.0));
}

#[test]
fn sphere_hit_falls_back_to_the_far_root() {
    let sphere = Sphere::new(v(0.0, 0.0, -5.0), fx(1.0), grey());
    let ray = Ray::new(Vec3::zero(), v(0.0, 0.0, -1.0));
    let hit = sphere.hit(&ray, fx(4.5), LIMIT).unwrap();
    assert_eq!(hit.t, fx(6.0));
    assert!(!hit.front_face);
    assert_eq!(hit.normal, v(0.0, 0.0, 1.0));
    assert!(sphere.hit(&ray, fx(6.0), LIMIT).is_none());
    assert!(sphere.hit(&ray, 0, fx(4.0)).is_none());
}

#[test]
fn sphere_hit_tangent_ray_touches_once() {
    let sphere = Sphere::new(v(0.0, 1.0, -5.0), fx(1.0), grey());
    let ray = Ray::new(Vec3::zero(), v(0.0, 0.0, -1.0));
    let hit = sphere.hit(&ray, 0, LIMIT).unwrap();
    assert_eq!(hit.t, fx(5.0));
}

#[test]
fn negative_radius_turns_the_normal_inwards() {
    let sphere = Sphere::new(v(0.0, 0.0, -5.0), fx(-1.0), grey());
    let ray = Ray::new(Vec3::zero(), v(0.0, 0.0, -1.0));
    let hit = sphere.hit(&ray, 0, LIMIT).unwrap();
    assert_eq!(hit.t, fx(4.0));
    assert!(!hit.front_face);
    assert_eq!(hit.normal, v(0.0, 0.0, 1.0));
}

#[test]
fn ray_heading_away_never_hits() {
    let sphere = Sphere::new(v(0.0, 0.0, -5.0), fx(1.0), grey());
    let away = Ray::new(Vec3::zero(), v(0.0, 0.0, 1.0));
    assert!(sphere.hit(&away, 0, LIMIT).is_none());
    let sideways = Ray::new(v(0.0, 0.0, -5.0 + 3.0), v(0.1, 0.2, 1.0));
    assert!(sphere.hit(&sideways, 0, LIMIT).is_none());
    let zero_direction = Ray::new(Vec3::zero(), Vec3::zero());
    assert!(sphere.hit(&zero_direction, 0, LIMIT).is_none());
}

#[test]
fn scene_returns_the_nearest_of_two_overlapping_spheres() {
    let near = Sphere::new(v(0.0, 0.0, -5.0), fx(1.0), grey());
    let far = Sphere::new(v(0.0, 0.0, -5.5), fx(1.0), Material::Lambertian(Lambertian::new(v(0.1, 0.2, 0.3))));
    let ray = Ray::new(Vec3::zero(), v(0.0, 0.0, -1.0));
    for order in [[near, far], [far, near]].iter() {
        let mut world = HittableVec::new();
        world.push(order[0]);
        world.push(order[1]);
        let hit = world.hit(&ray, 0, LIMIT).unwrap();
        assert_eq!(hit.t, fx(4.0));
        assert_eq!(hit.material, grey());
    }
}

#[test]
fn empty_scene_is_never_hit() {
    let world = HittableVec::new();
    let ray = Ray::new(Vec3::zero(), v(0.0, 0.0, -1.0));
    assert!(world.hit(&ray, 0, LIMIT).is_none());
}

#[test]
fn scene_of_equal_spheres_keeps_the_first() {
    let a = Sphere::new(v(0.0, 0.0, -5.0), fx(1.0), grey());
    let b = Sphere::new(v(0.0, 0.0, -5.0), fx(1.0), Material::Lambertian(Lambertian::new(v(0.9, 0.0, 0.0))));
    let mut world = HittableVec::new();
    world.push(a);
    world.push(b);
    let ray = Ray::new(Vec3::zero(), v(0.0, 0.0, -1.0));
    assert_eq!(world.hit(&ray, 0, LIMIT).unwrap().material, grey());
    assert_eq!(world.objects.len(), 2);
}

#[test]
fn short_vectors_have_precise_unit_vectors() {
    for s in [
        Vec3::new(0, 23170, 0),
        Vec3::new(1, 1, 0),
        Vec3::new(0, 1, 0),
        Vec3::new(-3, 4, 12),
        Vec3::new(i64::MAX, i64::MIN, 5),
    ]
    .iter()
    {
        let u = s.unit();
        assert!(close(u.length(), ONE, 4), "{:?} {:?}", s, u);
        assert!(u.x.abs() <= ONE && u.y.abs() <= ONE && u.z.abs() <= ONE);
    }
    assert_eq!(Vec3::new(0, 1, 0).unit(), Vec3::new(0, ONE, 0));
    assert_eq!(Vec3::new(0, 23170, 0).length(), 23170);
    assert_eq!(Vec3::zero().unit(), Vec3::zero());
    assert_eq!(Vec3::new(i64::MAX, 0, 0).length(), LIMIT);
}

#[test]
fn short_ray_directions_still_hit() {
    let sphere = Sphere::new(v(0.0, 0.0, -5.0), fx(1.0), grey());
    let ray = Ray::new(Vec3::zero(), Vec3::new(0, 0, -1));
    let hit = sphere.hit(&ray, 0, LIMIT).unwrap();
    assert_eq!(hit.t, 1i64 << 58);
    assert_eq!(hit.p, v(0.0, 0.0, -4.0));
    assert_eq!(hit.normal, v(0.0, 0.0, 1.0));
    assert!(hit.front_face);
    let away = Ray::new(Vec3::zero(), Vec3::new(0, 0, 1));
    assert!(sphere.hit(&away, 0, LIMIT).is_none());
}
