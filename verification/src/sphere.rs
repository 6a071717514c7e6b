//! Spheres.

use crate::accuracy::{
    lemma_aimed_component, lemma_aimed_signs, lemma_aimed_steps, lemma_aimed_strict,
    lemma_exact_point_parallel, lemma_point_component, lemma_product_bound, lemma_sign_carries,
    lemma_square_le, lemma_square_lt, abs, is_scaled, lemma_length_is_exact_root, lemma_normal_length, lemma_point_near_sphere,
    lemma_point_reach, lemma_product_below_lengths, lemma_product_gap, point_slack, lemma_product_rounds_to_zero,
    lemma_magnitude_below, lemma_root_residual, lemma_trunc_div_bounds, reach_limit,
    sum_sq, within_working_range, working_limit,
};
use crate::fixed::{
    fx, fx_div, fx_mul, isqrt, lemma_isqrt_exists, lemma_isqrt_unique, lemma_trunc_div_monotone,
    trunc_div, Fixed, ONE_RAW,
};
use crate::hittable::{
    face_normal_spec, front_face_spec, lemma_face_normal_opposes_ray, HitRecord, Hittable,
};
use crate::material::Material;
use crate::ray::{at_spec, Ray};
use crate::vec3::{
    dot_spec, length_spec, raw_sum_sq, v_neg, v_scale, v_shrink, v_sub, Point3,
};
use crate::wide::{wide_add, wide_div, wide_isqrt, wide_le, wide_mul, wide_sub};
use vstd::prelude::*;

verus! {

/// A sphere with the material of its surface.
#[derive(Clone, Copy, Debug, PartialEq, Eq, Structural)]
pub struct Sphere {
    pub center: Point3,
    pub radius: Fixed,
    pub material: Material,
}

/// The raw value of `x` as the quadratic takes it: held at `2^61` in
/// magnitude, so that the exact coefficients fit.
pub open spec fn held(x: Fixed) -> int {
    if x@ > reach_limit() {
        reach_limit()
    } else if x@ < -reach_limit() {
        -reach_limit()
    } else {
        x@
    }
}

/// The exact coefficients of the quadratic `a t^2 + 2 h t + c = 0` that the
/// ray `O + t D` solves on the sphere `|P - C|^2 = r^2`: `a = |D|^2`,
/// `h = D . (O - C)` and `c = |O - C|^2 - r^2`, each as an integer in units
/// of `2^-48`.  No product is rounded.
pub open spec fn sphere_quadratic(s: Sphere, r: Ray) -> (int, int, int) {
    let oc = v_sub(r.origin, s.center);
    let (dx, dy, dz) = (held(r.direction.0), held(r.direction.1), held(r.direction.2));
    let (ox, oy, oz) = (held(oc.0), held(oc.1), held(oc.2));
    let radius = held(s.radius);
    (
        dx * dx + dy * dy + dz * dz,
        dx * ox + dy * oy + dz * oz,
        ox * ox + oy * oy + oz * oz - radius * radius,
    )
}

/// The exact discriminant `h^2 - a c` of the quadratic.
pub open spec fn sphere_discriminant(s: Sphere, r: Ray) -> int {
    let (a, h, c) = sphere_quadratic(s, r);
    h * h - a * c
}

/// The quotient `numerator / a`, rounded towards zero and saturated; zero
/// for a ray without direction.
pub open spec fn root_spec(numerator: int, a: int) -> Fixed {
    if a == 0 {
        fx(0)
    } else {
        fx(trunc_div(numerator * ONE_RAW, a))
    }
}

/// The two parameters at which the line of `r` meets the sphere, smaller
/// first: the roots `(-h -+ sqrt(h^2 - a c)) / a` of the quadratic, with the
/// root of the exact discriminant rounded down.  `None` when the
/// discriminant is negative.
pub open spec fn sphere_roots(s: Sphere, r: Ray) -> Option<(Fixed, Fixed)> {
    let (a, h, c) = sphere_quadratic(s, r);
    let discriminant = sphere_discriminant(s, r);
    if discriminant < 0 {
        None
    } else {
        let sqrtd = isqrt(discriminant);
        Some((root_spec(-h - sqrtd, a), root_spec(-h + sqrtd, a)))
    }
}

/// The first of the two roots that lies within `[t_min, t_max]`.
pub open spec fn select_root(roots: Option<(Fixed, Fixed)>, t_min: Fixed, t_max: Fixed) -> Option<
    Fixed,
> {
    match roots {
        None => None,
        Some((near, far)) => if t_min@ <= near@ <= t_max@ {
            Some(near)
        } else if t_min@ <= far@ <= t_max@ {
            Some(far)
        } else {
            None
        },
    }
}

/// The record of the hit of `r` on the sphere at parameter `t`: the point
/// `r(t)`, and the outward normal `(p - centre) / radius` turned against the
/// ray.
pub open spec fn sphere_record(s: Sphere, r: Ray, t: Fixed) -> HitRecord {
    let p = at_spec(r, t);
    let outward_normal = v_shrink(v_sub(p, s.center), s.radius);
    HitRecord {
        p,
        normal: face_normal_spec(r, outward_normal),
        t,
        front_face: front_face_spec(r, outward_normal),
        material: s.material,
    }
}

/// The raw value of `x`, held at `2^61` in magnitude.
fn held_value(x: Fixed) -> (v: i128)
    ensures
        v == held(x),
        -0x2000_0000_0000_0000 <= v <= 0x2000_0000_0000_0000,
{
    if x.raw > 0x2000_0000_0000_0000 {
        0x2000_0000_0000_0000
    } else if x.raw < -0x2000_0000_0000_0000 {
        -0x2000_0000_0000_0000
    } else {
        x.raw as i128
    }
}

/// The product of two held values.
fn held_product(x: i128, y: i128) -> (p: i128)
    requires
        -0x2000_0000_0000_0000 <= x <= 0x2000_0000_0000_0000,
        -0x2000_0000_0000_0000 <= y <= 0x2000_0000_0000_0000,
    ensures
        p == x * y,
        -0x400_0000_0000_0000_0000_0000_0000_0000 <= p <= 0x400_0000_0000_0000_0000_0000_0000_0000,
{
    assert(-0x400_0000_0000_0000_0000_0000_0000_0000 <= x * y
        <= 0x400_0000_0000_0000_0000_0000_0000_0000) by (nonlinear_arith)
        requires
            -0x2000_0000_0000_0000 <= x <= 0x2000_0000_0000_0000,
            -0x2000_0000_0000_0000 <= y <= 0x2000_0000_0000_0000,
    ;
    x * y
}

/// The magnitude of `x`.
fn size(x: i128) -> (m: u128)
    requires
        x > -0x4000_0000_0000_0000_0000_0000_0000_0000,
    ensures
        m == x || m == -x,
        m >= 0,
{
    if x < 0 {
        (-x) as u128
    } else {
        x as u128
    }
}

/// The root `numerator / a`.
fn root(numerator: i128, a: u128) -> (t: Fixed)
    requires
        -0x4000_0000_0000_0000_0000_0000_0000_0000 < numerator
            < 0x4000_0000_0000_0000_0000_0000_0000_0000,
    ensures
        t == root_spec(numerator as int, a as int),
{
    if a == 0 {
        return Fixed::zero();
    }
    let m = size(numerator);
    let scaled = wide_mul(m, 0x100_0000);
    let q = wide_div(&scaled, a);
    proof {
        assert(numerator * ONE_RAW == -(m * 0x100_0000) || numerator * ONE_RAW == m * 0x100_0000)
            by (nonlinear_arith)
            requires
                m == numerator || m == -numerator,
                ONE_RAW == 0x100_0000,
        ;
        assert(numerator >= 0 ==> numerator * ONE_RAW >= 0) by (nonlinear_arith);
        assert(numerator < 0 ==> numerator * ONE_RAW < 0) by (nonlinear_arith);
        vstd::arithmetic::div_mod::lemma_div_pos_is_pos(scaled@, a as int);
    }
    if numerator < 0 {
        Fixed { raw: -q }
    } else {
        Fixed { raw: q }
    }
}

impl Sphere {
    /// The two parameters at which the line of `r` meets the sphere.
    pub fn roots(&self, r: &Ray) -> (res: Option<(Fixed, Fixed)>)
        ensures
            res == sphere_roots(*self, *r),
    {
        let oc = r.origin - self.center;
        let dx = held_value(r.direction.0);
        let dy = held_value(r.direction.1);
        let dz = held_value(r.direction.2);
        let ox = held_value(oc.0);
        let oy = held_value(oc.1);
        let oz = held_value(oc.2);
        let radius = held_value(self.radius);
        let a: i128 = held_product(dx, dx) + held_product(dy, dy) + held_product(dz, dz);
        let h: i128 = held_product(dx, ox) + held_product(dy, oy) + held_product(dz, oz);
        let c: i128 = held_product(ox, ox) + held_product(oy, oy) + held_product(oz, oz)
            - held_product(radius, radius);
        proof {
            assert(dx * dx >= 0 && dy * dy >= 0 && dz * dz >= 0 && ox * ox >= 0 && oy * oy >= 0
                && oz * oz >= 0 && radius * radius >= 0) by (nonlinear_arith);
        }
        let h_size = size(h);
        let c_size = size(c);
        let a_size = a as u128;
        let hh = wide_mul(h_size, h_size);
        let ac = wide_mul(a_size, c_size);
        proof {
            let bound = 0xc00_0000_0000_0000_0000_0000_0000_0000int;
            assert(h_size * h_size == h * h) by (nonlinear_arith)
                requires
                    h_size == h || h_size == -h,
            ;
            assert(a_size * c_size == a * c || a_size * c_size == -(a * c)) by (nonlinear_arith)
                requires
                    a_size == a,
                    c_size == c || c_size == -c,
            ;
            assert(c >= 0 ==> a * c >= 0) by (nonlinear_arith)
                requires
                    a >= 0,
            ;
            assert(c <= 0 ==> a * c <= 0) by (nonlinear_arith)
                requires
                    a >= 0,
            ;
            assert(h_size * h_size <= bound * bound && a_size * c_size <= bound * bound)
                by (nonlinear_arith)
                requires
                    0 <= h_size <= bound,
                    0 <= a_size <= bound,
                    0 <= c_size <= bound,
            ;
            assert(bound * bound == 0x90_0000_0000_0000_0000_0000_0000_0000
                * 0x1_0000_0000_0000_0000_0000_0000_0000_0000int) by (nonlinear_arith)
                requires
                    bound == 0xc00_0000_0000_0000_0000_0000_0000_0000,
            ;
            assert(hh.hi <= 0x90_0000_0000_0000_0000_0000_0000_0000 && ac.hi
                <= 0x90_0000_0000_0000_0000_0000_0000_0000);
        }
        let discriminant = if c > 0 {
            if !wide_le(&ac, &hh) {
                return None;
            }
            wide_sub(&hh, &ac)
        } else {
            wide_add(&hh, &ac)
        };
        assert(discriminant@ == sphere_discriminant(*self, *r));
        let sqrtd = wide_isqrt(&discriminant);
        proof {
            lemma_isqrt_exists(discriminant@);
            lemma_isqrt_unique(discriminant@, sqrtd as int, isqrt(discriminant@));
        }
        proof {
            let most = 0x120000000000000000000000000000000000000000000000000000000000000int;
            assert(discriminant@ <= most);
            assert(sqrtd < 0x2000_0000_0000_0000_0000_0000_0000_0000) by (nonlinear_arith)
                requires
                    sqrtd * sqrtd <= discriminant@,
                    discriminant@ <= most,
                    most == 0x120000000000000000000000000000000000000000000000000000000000000int,
            ;
        }
        let e = sqrtd as i128;
        Some((root(-h - e, a_size), root(-h + e, a_size)))
    }
}

impl Hittable for Sphere {
    /// A sphere is valid where its radius is positive.
    open spec fn valid(&self) -> bool {
        self.radius@ > 0
    }

    open spec fn hit_spec(&self, r: Ray, t_min: Fixed, t_max: Fixed) -> Option<HitRecord> {
        match select_root(sphere_roots(*self, r), t_min, t_max) {
            None => None,
            Some(t) => Some(sphere_record(*self, r, t)),
        }
    }

    fn hit(&self, r: &Ray, t_min: Fixed, t_max: Fixed) -> (res: Option<HitRecord>) {
        let (near, far) = match self.roots(r) {
            None => {
                return None;
            },
            Some(roots) => roots,
        };
        let mut root = near;
        if root.raw < t_min.raw || t_max.raw < root.raw {
            root = far;
            if root.raw < t_min.raw || t_max.raw < root.raw {
                return None;
            }
        }
        let p = r.at_t(root);
        let outward_normal = (p - self.center) / self.radius;
        let mut rec = HitRecord {
            p,
            normal: outward_normal,
            t: root,
            front_face: true,
            material: self.material,
        };
        rec.set_face_normal(r, outward_normal);
        Some(rec)
    }

    proof fn lemma_hit_in_range(&self, r: Ray, t_min: Fixed, t_max: Fixed) {
    }

    proof fn lemma_hit_narrowed(&self, r: Ray, t_min: Fixed, cut: Fixed, t_max: Fixed) {
        lemma_roots_ordered(*self, r);
    }
}

/// The smaller root is not above the larger one.
pub proof fn lemma_roots_ordered(s: Sphere, r: Ray)
    ensures
        sphere_roots(s, r) matches Some((near, far)) ==> near@ <= far@,
{
    let (a, h, c) = sphere_quadratic(s, r);
    let discriminant = sphere_discriminant(s, r);
    if discriminant >= 0 {
        lemma_isqrt_exists(discriminant);
        let sqrtd = isqrt(discriminant);
        assert(a >= 0) by (nonlinear_arith)
            requires
                a == held(r.direction.0) * held(r.direction.0) + held(r.direction.1) * held(
                    r.direction.1,
                ) + held(r.direction.2) * held(r.direction.2),
        ;
        if a > 0 {
            assert((-h - sqrtd) * ONE_RAW <= (-h + sqrtd) * ONE_RAW) by (nonlinear_arith)
                requires
                    sqrtd >= 0,
                    ONE_RAW > 0,
            ;
            lemma_trunc_div_monotone((-h - sqrtd) * ONE_RAW, (-h + sqrtd) * ONE_RAW, a);
        }
    }
}

/// What a hit on a sphere records: a parameter within the interval asked
/// for that is one of the two roots, the smaller one whenever that lies in
/// the interval; the point of the ray at that parameter; the sphere's
/// material; and a normal that does not point along the ray.
pub proof fn lemma_sphere_hit(s: Sphere, r: Ray, t_min: Fixed, t_max: Fixed)
    ensures
        s.hit_spec(r, t_min, t_max) matches Some(rec) ==> {
            &&& sphere_roots(s, r) matches Some((near, far)) && (rec.t == near || rec.t == far)
                && (t_min@ <= near@ <= t_max@ ==> rec.t == near)
            &&& t_min@ <= rec.t@ <= t_max@
            &&& rec.p == at_spec(r, rec.t)
            &&& rec.material == s.material
            &&& dot_spec(r.direction, rec.normal)@ <= 0
        },
        s.hit_spec(r, t_min, t_max) is None <==> (sphere_roots(s, r) matches Some((near, far))
            ==> !(t_min@ <= near@ <= t_max@) && !(t_min@ <= far@ <= t_max@)),
{
    match select_root(sphere_roots(s, r), t_min, t_max) {
        Some(t) => {
            let outward_normal = v_shrink(v_sub(at_spec(r, t), s.center), s.radius);
            lemma_face_normal_opposes_ray(r, outward_normal);
        },
        None => {},
    }
}

/// Seen from inside, a sphere is hit at the far root only: where the origin
/// of the ray lies inside the sphere (`c < 0`), the near root is not
/// positive, so that within an interval that starts above zero a hit is at
/// the far root.
pub proof fn lemma_inside_hits_far_root(s: Sphere, r: Ray, t_min: Fixed, t_max: Fixed)
    requires
        sphere_quadratic(s, r).2 < 0,
        t_min@ > 0,
    ensures
        sphere_roots(s, r) matches Some((near, far)) && near@ <= 0,
        s.hit_spec(r, t_min, t_max) matches Some(rec) ==> sphere_roots(s, r) matches Some(
            (near, far),
        ) && rec.t == far,
{
    let (a, h, c) = sphere_quadratic(s, r);
    let discriminant = sphere_discriminant(s, r);
    assert(a >= 0) by (nonlinear_arith)
        requires
            a == held(r.direction.0) * held(r.direction.0) + held(r.direction.1) * held(
                r.direction.1,
            ) + held(r.direction.2) * held(r.direction.2),
    ;
    assert(a * c <= 0) by (nonlinear_arith)
        requires
            a >= 0,
            c < 0,
    ;
    assert(h * h >= 0) by (nonlinear_arith);
    lemma_isqrt_exists(discriminant);
    let sqrtd = isqrt(discriminant);
    // the root of the discriminant is at least |h|
    assert(sqrtd >= h && sqrtd >= -h) by (nonlinear_arith)
        requires
            h * h <= discriminant,
            discriminant < (sqrtd + 1) * (sqrtd + 1),
            sqrtd >= 0,
    ;
    if a > 0 {
        assert((-h - sqrtd) * ONE_RAW <= 0) by (nonlinear_arith)
            requires
                -h - sqrtd <= 0,
                ONE_RAW > 0,
        ;
        lemma_trunc_div_monotone((-h - sqrtd) * ONE_RAW, 0, a);
    }
}

/// Seen from outside and ahead, both roots lie ahead: where the origin of
/// the ray is not inside the sphere (`c >= 0`) and the direction does not
/// point away from the centre (`h <= 0`), neither root is negative.  With
/// `lemma_sphere_hit` this makes the near root the one reported whenever it
/// lies in the interval.
pub proof fn lemma_outside_roots_lie_ahead(s: Sphere, r: Ray)
    requires
        sphere_quadratic(s, r).2 >= 0,
        sphere_quadratic(s, r).1 <= 0,
    ensures
        sphere_roots(s, r) matches Some((near, far)) ==> 0 <= near@ <= far@,
{
    let (a, h, c) = sphere_quadratic(s, r);
    let discriminant = sphere_discriminant(s, r);
    lemma_roots_ordered(s, r);
    assert(a >= 0) by (nonlinear_arith)
        requires
            a == held(r.direction.0) * held(r.direction.0) + held(r.direction.1) * held(
                r.direction.1,
            ) + held(r.direction.2) * held(r.direction.2),
    ;
    assert(a * c >= 0) by (nonlinear_arith)
        requires
            a >= 0,
            c >= 0,
    ;
    if discriminant >= 0 {
        lemma_isqrt_exists(discriminant);
        let sqrtd = isqrt(discriminant);
        assert(sqrtd <= -h) by (nonlinear_arith)
            requires
                sqrtd * sqrtd <= h * h,
                sqrtd >= 0,
                h <= 0,
        ;
        if a > 0 {
            assert((-h - sqrtd) * ONE_RAW >= 0) by (nonlinear_arith)
                requires
                    -h - sqrtd >= 0,
                    ONE_RAW > 0,
            ;
            lemma_trunc_div_monotone(0, (-h - sqrtd) * ONE_RAW, a);
        }
    }
}

/// The ray and the sphere keep to the working range: no coordinate of the
/// origin, the direction or the centre exceeds `65536` in magnitude, and the
/// radius is positive and at most `65536`.
pub open spec fn within_scene(s: Sphere, r: Ray) -> bool {
    &&& within_working_range(r.origin)
    &&& within_working_range(r.direction)
    &&& within_working_range(s.center)
    &&& 0 < s.radius@ <= working_limit()
}

/// The normal of a hit is of unit length, up to rounding: for a ray and a
/// sphere within the working range, a direction whose length lies between
/// `1 / j` and `k`, a radius of at least `2 (k + 3 + j^2)^2` units of the
/// last place and a hit at a parameter within the working range, the length
/// `m` of the recorded normal differs from one by about `(k + 3 + j^2) / r` units
/// of the last place: `(m - 1) r <= k + 3 + j^2` and
/// `(1 - m) r <= k + 3 + j^2 + 4 r`, lengths in units of the last place and
/// the radius `r` as a raw value.  The hit point lies on the sphere as
/// closely: its squared distance from the centre differs from `r^2` by at
/// most `point_slack / 2^48`, about `(2 k + 6) r`.
#[verifier::rlimit(60)]
pub proof fn lemma_hit_normal_is_nearly_unit(
    s: Sphere,
    r: Ray,
    t_min: Fixed,
    t_max: Fixed,
    k: int,
    j: int,
)
    requires
        within_scene(s, r),
        1 <= k <= 0x10_0000,
        1 <= j <= 1024,
        ONE_RAW * ONE_RAW <= sphere_quadratic(s, r).0 * (j * j),
        sphere_quadratic(s, r).0 <= (k * ONE_RAW) * (k * ONE_RAW),
        s.radius@ >= 2 * ((k + 3 + j * j) * (k + 3 + j * j)),
    ensures
        s.hit_spec(r, t_min, t_max) matches Some(rec) ==> (-working_limit() <= rec.t@
            <= working_limit() ==> {
            &&& (length_spec(rec.normal)@ - ONE_RAW) * s.radius@ <= (k + 3 + j * j) * ONE_RAW
            &&& (ONE_RAW - length_spec(rec.normal)@) * s.radius@ <= (k + 3 + j * j) * ONE_RAW + 4
                * s.radius@
            &&& -point_slack(ONE_RAW as int, k * ONE_RAW, s.radius@, j * j) <= (ONE_RAW * ONE_RAW)
                * (raw_sum_sq(v_sub(rec.p, s.center)) - s.radius@ * s.radius@) <= point_slack(
                ONE_RAW as int,
                k * ONE_RAW,
                s.radius@,
                j * j,
            )
        }),
{
    let one = ONE_RAW as int;
    let rr = s.radius@;
    let b = k * one;
    let jj = j * j;
    assert(1 <= jj <= 0x10_0000) by (nonlinear_arith)
        requires
            jj == j * j,
            1 <= j <= 1024,
    ;
    let (a, h, c) = sphere_quadratic(s, r);
    let oc = v_sub(r.origin, s.center);
    let d = r.direction;
    match s.hit_spec(r, t_min, t_max) {
        None => {},
        Some(rec) => if -working_limit() <= rec.t@ <= working_limit() {
            let discriminant = sphere_discriminant(s, r);
            lemma_isqrt_exists(discriminant);
            let e = isqrt(discriminant);
            let t = rec.t;
            let (near, far) = sphere_roots(s, r).unwrap();
            let sigma = if t == near {
                -e
            } else {
                e
            };
            // the root is a rounded quotient
            let numerator = (-h + sigma) * one;
            assert(a >= 0) by (nonlinear_arith)
                requires
                    a == held(r.direction.0) * held(r.direction.0) + held(r.direction.1) * held(
                        r.direction.1,
                    ) + held(r.direction.2) * held(r.direction.2),
            ;
            assert(a >= 1) by (nonlinear_arith)
                requires
                    a * jj >= one * one,
                    one == 0x100_0000,
                    jj >= 1,
                    a >= 0,
            ;
            lemma_trunc_div_bounds(numerator, a);
            assert(t@ == trunc_div(numerator, a));
            assert(trunc_div(numerator, a) * a == a * t@ && numerator == one * (-h + sigma))
                by (nonlinear_arith)
                requires
                    numerator == (-h + sigma) * one,
                    t@ == trunc_div(numerator, a),
            ;
            lemma_root_residual(a, h, c, e, sigma, t@, one, jj);
            // the root of the discriminant is at most b r
            lemma_product_below_lengths(d.0@, d.1@, d.2@, oc.0@, oc.1@, oc.2@);
            let so = sum_sq(oc.0@, oc.1@, oc.2@);
            assert(a * c == a * so - a * (rr * rr)) by (nonlinear_arith)
                requires
                    c == so - rr * rr,
            ;
            let br = b * rr;
            assert(a * (rr * rr) <= br * br) by (nonlinear_arith)
                requires
                    0 <= a <= b * b,
                    br == b * rr,
            ;
            assert(e * e <= br * br);
            assert(br >= 0) by (nonlinear_arith)
                requires
                    br == b * rr,
                    b >= 1,
                    rr >= 1,
            ;
            lemma_magnitude_below(e, br);
            assert(one * e <= one * br && a <= b * b && jj * (2 * e + 1) <= jj * (2 * br + 1))
                by (nonlinear_arith)
                requires
                    e <= br,
                    one >= 1,
                    a <= b * b,
                    jj >= 1,
            ;
            // the hit point
            lemma_product_rounds_to_zero(d.0, t);
            lemma_product_rounds_to_zero(d.1, t);
            lemma_product_rounds_to_zero(d.2, t);
            let g = v_scale(d, t);
            assert(one * g.0@ == ONE_RAW * g.0@ && one * g.1@ == ONE_RAW * g.1@ && one * g.2@
                == ONE_RAW * g.2@);
            assert(b <= one * one) by (nonlinear_arith)
                requires
                    b == k * one,
                    1 <= k <= 0x10_0000,
                    one == 0x100_0000,
            ;
            assert(b >= one) by (nonlinear_arith)
                requires
                    b == k * one,
                    1 <= k,
                    one >= 1,
            ;
            lemma_point_near_sphere(
                oc.0@,
                oc.1@,
                oc.2@,
                d.0@,
                d.1@,
                d.2@,
                g.0@,
                g.1@,
                g.2@,
                t@,
                one,
                rr,
                b,
                jj,
            );
            let x = v_sub(rec.p, s.center);
            assert(x.0@ == oc.0@ + g.0@ && x.1@ == oc.1@ + g.1@ && x.2@ == oc.2@ + g.2@);
            lemma_point_reach(x.0@, x.1@, x.2@, one, rr, b, jj);
            // the normal
            let reach = k + 3 + jj;
            assert(one * rr + b + (3 + jj) * one <= 2 * (one * rr)) by (nonlinear_arith)
                requires
                    b == k * one,
                    rr >= 2 * (reach * reach),
                    reach == k + 3 + jj,
                    k >= 1,
                    jj >= 1,
                    one >= 1,
            ;
            let outward = v_shrink(x, s.radius);
            lemma_scaled_component(x.0, s.radius);
            lemma_scaled_component(x.1, s.radius);
            lemma_scaled_component(x.2, s.radius);
            let normal = rec.normal;
            assert(normal == outward || normal == v_neg(outward));
            let (n0, n1, n2) = (abs(outward.0@), abs(outward.1@), abs(outward.2@));
            assert(raw_sum_sq(normal) == sum_sq(n0, n1, n2)) by (nonlinear_arith)
                requires
                    n0 == abs(outward.0@),
                    n1 == abs(outward.1@),
                    n2 == abs(outward.2@),
                    (normal.0@ == outward.0@ && normal.1@ == outward.1@ && normal.2@
                        == outward.2@) || (normal.0@ == -outward.0@ && normal.1@ == -outward.1@
                        && normal.2@ == -outward.2@),
                    raw_sum_sq(normal) == normal.0@ * normal.0@ + normal.1@ * normal.1@ + normal.2@
                        * normal.2@,
                    sum_sq(n0, n1, n2) == n0 * n0 + n1 * n1 + n2 * n2,
            ;
            lemma_length_is_exact_root(normal);
            let m = length_spec(normal)@;
            let (y0, y1, y2) = (abs(x.0@), abs(x.1@), abs(x.2@));
            assert(sum_sq(y0, y1, y2) == sum_sq(x.0@, x.1@, x.2@)) by (nonlinear_arith)
                requires
                    y0 == abs(x.0@),
                    y1 == abs(x.1@),
                    y2 == abs(x.2@),
            ;
            // the radius is not tiny
            let kk = reach * reach;
            let oo = one * one;
            let far = b + (3 + jj) * one;
            assert(far == reach * one) by (nonlinear_arith)
                requires
                    far == b + (3 + jj) * one,
                    b == k * one,
                    reach == k + 3 + jj,
            ;
            assert(far * far == kk * oo && b * b == (k * k) * oo && one * b == k * oo)
                by (nonlinear_arith)
                requires
                    far == reach * one,
                    b == k * one,
                    kk == reach * reach,
                    oo == one * one,
            ;
            let br2 = 2 * (b * rr);
            assert(br2 <= oo * rr) by (nonlinear_arith)
                requires
                    br2 == 2 * (b * rr),
                    b == k * one,
                    oo == one * one,
                    2 * k <= one,
                    rr >= 0,
                    one >= 0,
            ;
            assert(jj * (br2 + 1) <= jj * (oo * rr) + jj) by (nonlinear_arith)
                requires
                    br2 <= oo * rr,
                    jj >= 1,
            ;
            assert((kk + k * k + 6 * k + 6 * jj + 4) * oo <= oo * rr) by (nonlinear_arith)
                requires
                    kk == reach * reach,
                    reach == k + 3 + jj,
                    rr >= 2 * kk,
                    k >= 1,
                    jj >= 1,
                    oo >= 1,
            ;
            assert((kk + k * k + 6 * k + 6 * jj + 4) * oo == kk * oo + (k * k) * oo + 6 * (k * oo)
                + (6 * jj + 3) * oo + oo) by (nonlinear_arith);
            assert(jj <= oo && oo * rr <= jj * (oo * rr)) by (nonlinear_arith)
                requires
                    1 <= jj <= 0x10_0000,
                    oo == one * one,
                    one == 0x100_0000,
                    rr >= 0,
            ;
            lemma_normal_length(y0, y1, y2, n0, n1, n2, one, rr, b, jj, m);
        },
    }
}

/// The quotient of a coordinate of a point close to a sphere by the radius
/// is the exact quotient rounded towards zero.
proof fn lemma_scaled_component(x: Fixed, radius: Fixed)
    requires
        radius@ >= 1,
        -(2 * (ONE_RAW * radius@)) <= ONE_RAW * x@ <= 2 * (ONE_RAW * radius@),
    ensures
        is_scaled(abs(x@), abs(fx_div(x, radius)@), ONE_RAW as int, radius@),
        abs(fx_div(x, radius)@) <= 2 * ONE_RAW,
{
    let s = ONE_RAW as int;
    let q = trunc_div(x@ * s, radius@);
    lemma_trunc_div_bounds(x@ * s, radius@);
    assert(x@ * s == s * x@ && (-q) * radius@ == -(q * radius@) && (-x@) * s == -(x@ * s))
        by (nonlinear_arith);
    assert(abs(q) <= 2 * s) by (nonlinear_arith)
        requires
            abs(q) * radius@ <= 2 * (s * radius@),
            radius@ >= 1,
            abs(q) >= 0,
    ;
    assert(fx_div(x, radius)@ == q);
}

/// The ray points at the centre of the sphere: its direction is parallel to
/// the line from its origin to the centre and does not point away from it.
pub open spec fn aimed_at_centre(s: Sphere, r: Ray) -> bool {
    let oc = v_sub(r.origin, s.center);
    let (dx, dy, dz) = (held(r.direction.0), held(r.direction.1), held(r.direction.2));
    let (ox, oy, oz) = (held(oc.0), held(oc.1), held(oc.2));
    &&& dx * oy == dy * ox
    &&& dx * oz == dz * ox
    &&& dy * oz == dz * oy
    &&& sphere_quadratic(s, r).1 <= 0
}

/// A ray from outside that points at the centre hits the near side: its
/// discriminant is `a r^2`, so that the roots exist, neither is negative,
/// and whenever the near root lies in the interval, it is the one reported.
pub proof fn lemma_aimed_ray_hits_near_side(s: Sphere, r: Ray, t_min: Fixed, t_max: Fixed)
    requires
        sphere_quadratic(s, r).2 >= 0,
        aimed_at_centre(s, r),
    ensures
        sphere_discriminant(s, r) == sphere_quadratic(s, r).0 * (held(s.radius) * held(s.radius)),
        sphere_roots(s, r) matches Some((near, far)) && 0 <= near@ <= far@ && (t_min@ <= near@
            <= t_max@ ==> (s.hit_spec(r, t_min, t_max) matches Some(rec) && rec.t == near)),
{
    let oc = v_sub(r.origin, s.center);
    let (d0, d1, d2) = (held(r.direction.0), held(r.direction.1), held(r.direction.2));
    let (o0, o1, o2) = (held(oc.0), held(oc.1), held(oc.2));
    let rr = held(s.radius);
    let (a, h, c) = sphere_quadratic(s, r);
    lemma_product_gap(d0, d1, d2, o0, o1, o2);
    let so = sum_sq(o0, o1, o2);
    assert(a * c == a * so - a * (rr * rr)) by (nonlinear_arith)
        requires
            c == so - rr * rr,
    ;
    assert((d0 * o1 - d1 * o0) * (d0 * o1 - d1 * o0) == 0 && (d0 * o2 - d2 * o0) * (d0 * o2 - d2
        * o0) == 0 && (d1 * o2 - d2 * o1) * (d1 * o2 - d2 * o1) == 0) by (nonlinear_arith)
        requires
            d0 * o1 == d1 * o0,
            d0 * o2 == d2 * o0,
            d1 * o2 == d2 * o1,
    ;
    assert(a >= 0 && rr * rr >= 0) by (nonlinear_arith)
        requires
            a == d0 * d0 + d1 * d1 + d2 * d2,
    ;
    assert(a * (rr * rr) >= 0) by (nonlinear_arith)
        requires
            a >= 0,
            rr * rr >= 0,
    ;
    lemma_outside_roots_lie_ahead(s, r);
    lemma_sphere_hit(s, r, t_min, t_max);
}

/// A ray from outside that points at the centre meets the front of the
/// sphere: under the conditions of `lemma_hit_normal_is_nearly_unit`, for a
/// direction at least of unit length, where the near root lies in the
/// interval and within the working range, the hit is at the near root and is
/// recorded as one from outside.
#[verifier::rlimit(80)]
pub proof fn lemma_aimed_ray_meets_front(
    s: Sphere,
    r: Ray,
    t_min: Fixed,
    t_max: Fixed,
    k: int,
)
    requires
        within_scene(s, r),
        1 <= k <= 0x10_0000,
        ONE_RAW * ONE_RAW <= sphere_quadratic(s, r).0 <= (k * ONE_RAW) * (k * ONE_RAW),
        s.radius@ >= 2 * ((k + 4) * (k + 4)),
        sphere_quadratic(s, r).2 >= 0,
        aimed_at_centre(s, r),
        sphere_roots(s, r) matches Some((near, far)) ==> t_min@ <= near@ <= t_max@ && near@
            <= working_limit(),
    ensures
        s.hit_spec(r, t_min, t_max) matches Some(rec) && rec.front_face && (sphere_roots(s, r)
            matches Some((near, far)) && rec.t == near),
{
    let one = ONE_RAW as int;
    let rr = s.radius@;
    let b = k * one;
    let (a, h, c) = sphere_quadratic(s, r);
    let oc = v_sub(r.origin, s.center);
    let d = r.direction;
    lemma_aimed_ray_hits_near_side(s, r, t_min, t_max);
    lemma_hit_normal_is_nearly_unit(s, r, t_min, t_max, k, 1);
    let rec = s.hit_spec(r, t_min, t_max).unwrap();
    let (near, far) = sphere_roots(s, r).unwrap();
    let t = rec.t;
    assert(t == near && t@ >= 0);
    // the ray has not passed the centre
    let discriminant = sphere_discriminant(s, r);
    lemma_isqrt_exists(discriminant);
    let e = isqrt(discriminant);
    let numerator = (-h - e) * one;
    assert(a >= 1) by (nonlinear_arith)
        requires
            a >= one * one,
            one == 0x100_0000,
    ;
    lemma_trunc_div_bounds(numerator, a);
    assert(t@ == trunc_div(numerator, a));
    assert(numerator <= -(h * one)) by (nonlinear_arith)
        requires
            numerator == (-h - e) * one,
            e >= 0,
            one >= 1,
    ;
    assert(trunc_div(numerator, a) * a == t@ * a);
    assert(h * one <= 0) by (nonlinear_arith)
        requires
            h <= 0,
            one >= 1,
    ;
    assert(t@ * a <= -(h * one)) by {
        if numerator < 0 {
            assert(t@ == 0);
            assert(t@ * a == 0) by (nonlinear_arith)
                requires
                    t@ == 0,
            ;
        }
    }
    lemma_aimed_signs(d.0@, d.1@, d.2@, oc.0@, oc.1@, oc.2@);
    lemma_aimed_steps(d.0@, d.1@, d.2@, oc.0@, oc.1@, oc.2@, t@, one);
    // the hit point, component by component
    let g = v_scale(d, t);
    lemma_product_rounds_to_zero(d.0, t);
    lemma_product_rounds_to_zero(d.1, t);
    lemma_product_rounds_to_zero(d.2, t);
    lemma_trunc_div_bounds(d.0@ * t@, one);
    lemma_trunc_div_bounds(d.1@ * t@, one);
    lemma_trunc_div_bounds(d.2@ * t@, one);
    assert(g.0@ == trunc_div(d.0@ * t@, one) && g.1@ == trunc_div(d.1@ * t@, one) && g.2@
        == trunc_div(d.2@ * t@, one));
    lemma_aimed_component(d.0@, oc.0@, g.0@, t@, one);
    lemma_aimed_component(d.1@, oc.1@, g.1@, t@, one);
    lemma_aimed_component(d.2@, oc.2@, g.2@, t@, one);
    let x = v_sub(rec.p, s.center);
    assert(x.0@ == oc.0@ + g.0@ && x.1@ == oc.1@ + g.1@ && x.2@ == oc.2@ + g.2@);
    // the outward normal has the signs of the point
    assert(b <= one * one) by (nonlinear_arith)
        requires
            b == k * one,
            1 <= k <= 0x10_0000,
            one == 0x100_0000,
    ;
    assert(b >= one) by (nonlinear_arith)
        requires
            b == k * one,
            1 <= k,
            one >= 1,
    ;
    lemma_point_reach(x.0@, x.1@, x.2@, one, rr, b, 1);
    assert(one * rr + b + 5 * one <= 2 * (one * rr)) by (nonlinear_arith)
        requires
            b == k * one,
            rr >= 2 * ((k + 4) * (k + 4)),
            k >= 1,
            one >= 1,
    ;
    let outward = v_shrink(x, s.radius);
    lemma_scaled_component(x.0, s.radius);
    lemma_scaled_component(x.1, s.radius);
    lemma_scaled_component(x.2, s.radius);
    lemma_trunc_div_bounds(x.0@ * one, rr);
    lemma_trunc_div_bounds(x.1@ * one, rr);
    lemma_trunc_div_bounds(x.2@ * one, rr);
    assert(x.0@ >= 0 ==> x.0@ * one >= 0) by (nonlinear_arith)
        requires
            one >= 1,
    ;
    assert(x.0@ <= 0 ==> x.0@ * one <= 0) by (nonlinear_arith)
        requires
            one >= 1,
    ;
    assert(x.1@ >= 0 ==> x.1@ * one >= 0) by (nonlinear_arith)
        requires
            one >= 1,
    ;
    assert(x.1@ <= 0 ==> x.1@ * one <= 0) by (nonlinear_arith)
        requires
            one >= 1,
    ;
    assert(x.2@ >= 0 ==> x.2@ * one >= 0) by (nonlinear_arith)
        requires
            one >= 1,
    ;
    assert(x.2@ <= 0 ==> x.2@ * one <= 0) by (nonlinear_arith)
        requires
            one >= 1,
    ;
    assert(outward.0@ == trunc_div(x.0@ * one, rr) && outward.1@ == trunc_div(x.1@ * one, rr)
        && outward.2@ == trunc_div(x.2@ * one, rr));
    lemma_sign_carries(d.0@, x.0@, outward.0@);
    lemma_sign_carries(d.1@, x.1@, outward.1@);
    lemma_sign_carries(d.2@, x.2@, outward.2@);
    // so no product of the direction and the normal is positive
    let (q0, q1, q2) = (d.0@ * outward.0@, d.1@ * outward.1@, d.2@ * outward.2@);
    lemma_product_rounds_to_zero(d.0, outward.0);
    lemma_product_rounds_to_zero(d.1, outward.1);
    lemma_product_rounds_to_zero(d.2, outward.2);
    lemma_trunc_div_bounds(q0, one);
    lemma_trunc_div_bounds(q1, one);
    lemma_trunc_div_bounds(q2, one);
    let (m0, m1, m2) = (
        fx_mul(d.0, outward.0)@,
        fx_mul(d.1, outward.1)@,
        fx_mul(d.2, outward.2)@,
    );
    assert(m0 == trunc_div(q0, one) && m1 == trunc_div(q1, one) && m2 == trunc_div(q2, one));
    assert(m0 <= 0 && m1 <= 0 && m2 <= 0);
    assert(dot_spec(d, outward)@ == m0 + m1 + m2);
    // the exact scaled point
    let exact0 = lemma_point_component(oc.0@, d.0@, g.0@, t@, one);
    let exact1 = lemma_point_component(oc.1@, d.1@, g.1@, t@, one);
    let exact2 = lemma_point_component(oc.2@, d.2@, g.2@, t@, one);
    lemma_exact_point_parallel(d.0@, d.1@, d.2@, oc.0@, oc.1@, oc.2@, t@, one);
    let total = sum_sq(exact0, exact1, exact2);
    let srr = one * rr;
    assert(srr >= 1) by (nonlinear_arith)
        requires
            srr == one * rr,
            one >= 1,
            rr >= 1,
    ;
    lemma_product_bound(exact0, exact0, 2 * srr, 2 * srr);
    lemma_product_bound(exact1, exact1, 2 * srr, 2 * srr);
    lemma_product_bound(exact2, exact2, 2 * srr, 2 * srr);
    assert((2 * srr) * (2 * srr) == 4 * (srr * srr)) by (nonlinear_arith);
    assert(exact0 * exact0 >= 0 && exact1 * exact1 >= 0 && exact2 * exact2 >= 0)
        by (nonlinear_arith);
    assert(0 <= total <= 12 * (srr * srr));
    // the normal is long, so one of its components is
    let m = length_spec(rec.normal)@;
    let normal = rec.normal;
    assert(normal == outward || normal == v_neg(outward));
    let (n0, n1, n2) = (abs(outward.0@), abs(outward.1@), abs(outward.2@));
    assert(raw_sum_sq(normal) == sum_sq(n0, n1, n2)) by (nonlinear_arith)
        requires
            n0 == abs(outward.0@),
            n1 == abs(outward.1@),
            n2 == abs(outward.2@),
            (normal.0@ == outward.0@ && normal.1@ == outward.1@ && normal.2@ == outward.2@) || (
            normal.0@ == -outward.0@ && normal.1@ == -outward.1@ && normal.2@ == -outward.2@),
            raw_sum_sq(normal) == normal.0@ * normal.0@ + normal.1@ * normal.1@ + normal.2@
                * normal.2@,
            sum_sq(n0, n1, n2) == n0 * n0 + n1 * n1 + n2 * n2,
    ;
    lemma_length_is_exact_root(normal);
    assert(2 * m >= one) by (nonlinear_arith)
        requires
            (one - m) * rr <= (k + 4) * one + 4 * rr,
            rr >= 2 * ((k + 4) * (k + 4)),
            k >= 1,
            one == 0x100_0000,
            m >= 0,
    ;
    lemma_square_le(one, 2 * m);
    assert((2 * m) * (2 * m) == 4 * (m * m)) by (nonlinear_arith);
    if 4 * n0 < one && 4 * n1 < one && 4 * n2 < one {
        lemma_square_lt(4 * n0, one);
        lemma_square_lt(4 * n1, one);
        lemma_square_lt(4 * n2, one);
        assert((4 * n0) * (4 * n0) == 16 * (n0 * n0) && (4 * n1) * (4 * n1) == 16 * (n1 * n1) && (
        4 * n2) * (4 * n2) == 16 * (n2 * n2)) by (nonlinear_arith);
        assert(false);
    }
    assert(rr >= 16) by (nonlinear_arith)
        requires
            rr >= 2 * ((k + 4) * (k + 4)),
            k >= 1,
    ;
    if 4 * n0 >= one {
        lemma_aimed_strict(d.0@, x.0@, exact0, outward.0@, a, total, one, rr);
        assert(m0 <= -1);
    } else if 4 * n1 >= one {
        lemma_aimed_strict(d.1@, x.1@, exact1, outward.1@, a, total, one, rr);
        assert(m1 <= -1);
    } else {
        lemma_aimed_strict(d.2@, x.2@, exact2, outward.2@, a, total, one, rr);
        assert(m2 <= -1);
    }
    assert(front_face_spec(r, outward));
}

} // verus!
