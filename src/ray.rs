//! Rays: an origin and a direction.

use vstd::prelude::*;
use crate::vec::{vadd, vscale, Point, V3, Vec};

verus! {

/// The mathematical value of a ray.
pub struct RaySpec {
    pub origin: V3,
    pub dir: V3,
}

#[derive(Clone, Copy, Debug, PartialEq, Eq, Structural)]
pub struct Ray {
    pub origin: Point,
    pub dir: Vec,
}

impl View for Ray {
    type V = RaySpec;

    open spec fn view(&self) -> RaySpec {
        RaySpec { origin: self.origin@, dir: self.dir@ }
    }
}

/// The point `origin + t * dir`.
pub open spec fn ray_at(r: RaySpec, t: int) -> V3 {
    vadd(r.origin, vscale(r.dir, t))
}

impl Ray {
    pub fn new(origin: Point, dir: Vec) -> (r: Ray)
        ensures
            r.origin == origin,
            r.dir == dir,
    {
        Ray { origin, dir }
    }

    pub fn at(&self, t: i64) -> (r: Point)
        ensures
            r@ == ray_at(self@, t as int),
    {
        self.origin.add(self.dir.scale(t))
    }
}

} // verus!
