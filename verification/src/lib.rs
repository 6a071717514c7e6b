//! The render core of a path tracer over saturating fixed-point arithmetic.
//!
//! Given a scene of spheres and a camera, the core estimates the colour that
//! arrives along a ray by following it from surface to surface.  Every
//! quantity (coordinates, directions, colours, ray parameters) is a
//! [`fixed::Fixed`]: a signed 64-bit number with 24 fractional bits whose
//! operations round towards zero and saturate instead of overflowing, so
//! that its result is stated exactly.  Lengths and the roots of the sphere's
//! quadratic are taken from exact sums of squares, held in up to 256 bits
//! where they are formed, so that short vectors and small spheres lose
//! nothing to rounding but the last place.
//!
//! - [`fixed`]: the numbers and their arithmetic.
//! - [`vec3`]: vectors, reflection, refraction and random sampling.
//! - [`ray`]: rays.
//! - [`hittable`], [`sphere`], [`hittable_list`]: surfaces, and the nearest
//!   hit in a scene.
//! - [`material`]: how diffuse, metallic and clear surfaces scatter a ray.
//! - [`camera`]: rays through a thin lens.
//! - [`tracer`]: the colour along a ray.
//! - [`color`]: channel values for display.
//! - [`accuracy`]: bounds on what rounding does to lengths and directions.
//! - [`sampling`]: the source of random numbers.

pub mod accuracy;
pub mod camera;
pub mod color;
pub mod fixed;
pub mod hittable;
pub mod hittable_list;
pub mod material;
pub mod ray;
pub mod sampling;
pub mod sphere;
pub mod tracer;
pub mod vec3;
mod wide;
