//! The camera: maps points of the image plane to rays, with optional lens blur.

use vstd::prelude::*;
use crate::fixed::{fdiv, fmul, fx_div, fx_mul, ONE};
use crate::random::random_disk_point;
use crate::ray::{Ray, RaySpec};
use crate::vec::{v3, v_in_range, in_unit_disk, vadd, vcross, vscale, vsub, vunit, Point, V3, Vec};

verus! {

#[derive(Clone, Copy, Debug, PartialEq, Eq, Structural)]
pub struct Camera {
    pub origin: Point,
    pub horizontal: Vec,
    pub vertical: Vec,
    pub llcorner: Vec,
    pub u: Vec,
    pub v: Vec,
    pub w: Vec,
    pub lens_radius: i64,
}

/// The backward axis of a camera at `lookfrom` facing `lookat`.
pub open spec fn axis_w(lookfrom: V3, lookat: V3) -> V3 {
    vunit(vsub(lookfrom, lookat))
}

/// The rightward axis.
pub open spec fn axis_u(lookfrom: V3, lookat: V3, vup: V3) -> V3 {
    vunit(vcross(vup, axis_w(lookfrom, lookat)))
}

/// The upward axis.
pub open spec fn axis_v(lookfrom: V3, lookat: V3, vup: V3) -> V3 {
    vcross(axis_w(lookfrom, lookat), axis_u(lookfrom, lookat, vup))
}

/// The ray through the plane point `(s, t)` from the lens point `disk`
/// (a point of the unit disk, scaled by the lens radius).
pub open spec fn lens_ray(cam: Camera, s: int, t: int, disk: V3) -> RaySpec {
    let rd = vscale(disk, cam.lens_radius as int);
    let offset = vadd(vscale(cam.u@, rd.x), vscale(cam.v@, rd.y));
    RaySpec {
        origin: vadd(cam.origin@, offset),
        dir: vsub(
            vsub(vadd(vadd(cam.llcorner@, vscale(cam.horizontal@, s)), vscale(cam.vertical@, t)), cam.origin@),
            offset,
        ),
    }
}

/// The ray of a pinhole camera through the plane point `(s, t)`.
pub open spec fn pinhole_ray(cam: Camera, s: int, t: int) -> RaySpec {
    RaySpec {
        origin: cam.origin@,
        dir: vsub(vadd(vadd(cam.llcorner@, vscale(cam.horizontal@, s)), vscale(cam.vertical@, t)), cam.origin@),
    }
}

impl Camera {
    /// A camera at `lookfrom` facing `lookat`, with `vup` upwards.
    ///
    /// `half_height` is the tangent of half the vertical field of view and
    /// `ratio` the width of the image over its height; the image plane lies at
    /// `focus_dist`, and `aperture` is the diameter of the lens.
    pub fn new(
        lookfrom: Point,
        lookat: Point,
        vup: Vec,
        half_height: i64,
        ratio: i64,
        aperture: i64,
        focus_dist: i64,
    ) -> (r: Camera)
        ensures
            r.origin == lookfrom,
            r.w@ == axis_w(lookfrom@, lookat@),
            r.u@ == axis_u(lookfrom@, lookat@, vup@),
            r.v@ == axis_v(lookfrom@, lookat@, vup@),
            r.lens_radius == fdiv(aperture as int, 2 * ONE),
            r.horizontal@ == vscale(
                vscale(vscale(r.u@, fmul(ratio as int, half_height as int)), focus_dist as int),
                2 * ONE,
            ),
            r.vertical@ == vscale(vscale(vscale(r.v@, half_height as int), focus_dist as int), 2 * ONE),
            r.llcorner@ == vsub(
                vsub(
                    vsub(
                        lookfrom@,
                        vscale(vscale(r.u@, fmul(ratio as int, half_height as int)), focus_dist as int),
                    ),
                    vscale(vscale(r.v@, half_height as int), focus_dist as int),
                ),
                vscale(r.w@, focus_dist as int),
            ),
    {
        let hheight = half_height;
        let hwidth = fx_mul(ratio, hheight);

        let w = lookfrom.sub(lookat).unit();
        let u = vup.cross(w).unit();
        let v = w.cross(u);

        let origin = lookfrom;
        let lens_radius = fx_div(aperture, 2 * ONE);
        let llcorner = origin.sub(u.scale(hwidth).scale(focus_dist)).sub(
            v.scale(hheight).scale(focus_dist),
        ).sub(w.scale(focus_dist));
        let horizontal = u.scale(hwidth).scale(focus_dist).scale(2 * ONE);
        let vertical = v.scale(hheight).scale(focus_dist).scale(2 * ONE);

        Camera { origin, horizontal, vertical, llcorner, u, v, w, lens_radius }
    }

    /// The ray through the plane point `(s, t)` (from the bottom left corner,
    /// each in `[0, 1]`) that leaves the lens at `disk`, a point of the unit disk.
    pub fn cast_ray_with(&self, s: i64, t: i64, disk: Vec) -> (r: Ray)
        ensures
            r@ == lens_ray(*self, s as int, t as int, disk@),
    {
        let rd = disk.scale(self.lens_radius);
        let offset = self.u.scale(rd.x).add(self.v.scale(rd.y));
        Ray::new(
            self.origin.add(offset),
            self.llcorner.add(self.horizontal.scale(s)).add(self.vertical.scale(t)).sub(
                self.origin,
            ).sub(offset),
        )
    }

    /// The ray through the plane point `(s, t)`, leaving the lens at a random point.
    pub fn cast_ray(&self, s: i64, t: i64) -> (r: Ray)
        ensures
            exists|d: V3| in_unit_disk(d) && r@ == lens_ray(*self, s as int, t as int, d),
    {
        let disk = random_disk_point();
        self.cast_ray_with(s, t, disk)
    }
}

/// With no aperture the camera is a pinhole: the lens point drawn makes no
/// difference to the ray.
pub proof fn lemma_pinhole(cam: Camera, s: int, t: int, disk: V3)
    requires
        cam.lens_radius == 0,
        v_in_range(cam.origin@),
    ensures
        lens_ray(cam, s, t, disk) == pinhole_ray(cam, s, t),
{
    let zero = v3(0, 0, 0);
    assert(vscale(disk, 0) == zero);
    assert(vscale(cam.u@, 0) == zero);
    assert(vscale(cam.v@, 0) == zero);
    assert(vadd(zero, zero) == zero);
    assert(vadd(cam.origin@, zero) == cam.origin@);
    let through = vsub(
        vadd(vadd(cam.llcorner@, vscale(cam.horizontal@, s)), vscale(cam.vertical@, t)),
        cam.origin@,
    );
    assert(vsub(through, zero) == through);
}

} // verus!
