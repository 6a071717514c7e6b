//! Rays: an origin and a direction, which need not have unit length.

use crate::fixed::Fixed;
use crate::vec3::{v_add, v_scale, Point3, Vec3};
use vstd::prelude::*;

verus! {

/// The half-line `origin + t * direction`.
#[derive(Clone, Copy, Debug, PartialEq, Eq, Structural)]
pub struct Ray {
    pub origin: Point3,
    pub direction: Vec3,
}

/// The point `origin + t * direction`.
pub open spec fn at_spec(r: Ray, t: Fixed) -> Point3 {
    v_add(r.origin, v_scale(r.direction, t))
}

impl Ray {
    /// The point of the ray at parameter `t`, which may be negative.
    pub fn at_t(self, t: Fixed) -> (p: Point3)
        ensures
            p == at_spec(self, t),
    {
        self.origin + self.direction * t
    }
}

} // verus!
