//! A thin-lens camera.

use crate::fixed::{fx, fx_div, fx_mul, Fixed, ONE_RAW};
use crate::ray::Ray;
use crate::vec3::{
    cross, cross_spec, in_unit_disk, unit_spec, v_add, v_scale, v_shrink, v_sub, Point3, Vec3,
};
use vstd::prelude::*;

verus! {

/// The fixed configuration of a camera.  The basis and the viewport are
/// derived from it anew for every ray.
#[derive(Clone, Copy, Debug, PartialEq, Eq, Structural)]
pub struct Camera {
    /// Tangent of half the vertical field of view.
    pub half_height: Fixed,
    pub aspect_ratio: Fixed,
    pub look_at: Point3,
    pub look_from: Point3,
    pub vup: Vec3,
    pub aperture: Fixed,
    pub focus_distance: Fixed,
}

/// The unit vector from the point looked at towards the camera.
pub open spec fn camera_w(c: Camera) -> Vec3 {
    unit_spec(v_sub(c.look_from, c.look_at))
}

/// The unit vector to the right of the camera.
pub open spec fn camera_u(c: Camera) -> Vec3 {
    unit_spec(cross_spec(c.vup, camera_w(c)))
}

/// The vector that points up in the camera's view.
pub open spec fn camera_v(c: Camera) -> Vec3 {
    cross_spec(camera_w(c), camera_u(c))
}

/// Height of the viewport at distance one: twice the half height.
pub open spec fn viewport_height(c: Camera) -> Fixed {
    fx_mul(fx(2 * ONE_RAW), c.half_height)
}

/// The focus plane's horizontal edge: `focus * width * u`.
pub open spec fn camera_horizontal(c: Camera) -> Vec3 {
    v_scale(camera_u(c), fx_mul(c.focus_distance, fx_mul(c.aspect_ratio, viewport_height(c))))
}

/// The focus plane's vertical edge: `focus * height * v`.
pub open spec fn camera_vertical(c: Camera) -> Vec3 {
    v_scale(camera_v(c), fx_mul(c.focus_distance, viewport_height(c)))
}

/// The lower left corner of the focus plane.
pub open spec fn camera_lower_left(c: Camera) -> Point3 {
    let two = fx(2 * ONE_RAW);
    v_sub(
        v_sub(
            v_sub(c.look_from, v_shrink(camera_horizontal(c), two)),
            v_shrink(camera_vertical(c), two),
        ),
        v_scale(camera_w(c), c.focus_distance),
    )
}

/// The offset of the ray's origin on the lens for the disk point `lens`.
pub open spec fn lens_offset(c: Camera, lens: Point3) -> Vec3 {
    let rd = v_scale(lens, fx_div(c.aperture, fx(2 * ONE_RAW)));
    v_add(v_scale(camera_u(c), rd.0), v_scale(camera_v(c), rd.1))
}

/// The ray through the point `(s, t)` of the focus plane that leaves the
/// lens at the disk point `lens`.
pub open spec fn get_ray_spec(c: Camera, s: Fixed, t: Fixed, lens: Point3) -> Ray {
    let offset = lens_offset(c, lens);
    let target = v_add(
        v_add(camera_lower_left(c), v_scale(camera_horizontal(c), s)),
        v_scale(camera_vertical(c), t),
    );
    Ray {
        origin: v_add(c.look_from, offset),
        direction: v_sub(v_sub(target, c.look_from), offset),
    }
}

impl Camera {
    /// The configuration can focus: an open lens has a focus distance.
    pub open spec fn can_focus(&self) -> bool {
        self.focus_distance@ != 0 || self.aperture@ == 0
    }

    /// The ray for the image coordinates `(s, t)` with `lens` as the point
    /// drawn in the unit disk.
    pub fn get_ray_with(&self, s: Fixed, t: Fixed, lens: Point3) -> (ray: Ray)
        requires
            self.can_focus(),
        ensures
            ray == get_ray_spec(*self, s, t, lens),
    {
        let two = Fixed::from_int(2);
        let viewport_height = two * self.half_height;
        let viewport_width = self.aspect_ratio * viewport_height;
        let w = (self.look_from - self.look_at).unit_vector();
        let u = cross(self.vup, w).unit_vector();
        let v = cross(w, u);
        let origin = self.look_from;
        let horizontal = (self.focus_distance * viewport_width) * u;
        let vertical = (self.focus_distance * viewport_height) * v;
        let lower_left_corner = origin - horizontal / two - vertical / two - self.focus_distance
            * w;
        let lens_radius = self.aperture / two;
        let rd = lens_radius * lens;
        let offset = u * rd.x() + v * rd.y();
        Ray {
            origin: origin + offset,
            direction: lower_left_corner + s * horizontal + t * vertical - origin - offset,
        }
    }

    /// The ray for the image coordinates `(s, t)`, which need not lie in
    /// `[0, 1]`, through a random point of the lens.
    pub fn get_ray(&self, s: Fixed, t: Fixed) -> (ray: Ray)
        requires
            self.can_focus(),
        ensures
            exists|lens: Point3| in_unit_disk(lens) && ray == get_ray_spec(*self, s, t, lens),
    {
        let lens = Vec3::random_in_unit_disk();
        self.get_ray_with(s, t, lens)
    }
}

} // verus!
