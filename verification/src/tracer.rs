//! The light-transport estimator: the colour that arrives along a ray.

use crate::accuracy::{abs, lemma_unit_vector_has_unit_length};
use crate::fixed::{
    fx, fx_add, fx_mul, fx_ratio, fx_sub, lemma_mul_commutes, Fixed, LIMIT_RAW, ONE_RAW,
};
use crate::hittable::Hittable;
use crate::hittable_list::HittableList;
use crate::material::{sample_valid, scatter_spec, Sample};
use crate::ray::Ray;
use crate::vec3::{raw_sum_sq, unit_spec, v_add, v_mul, v_scale, Color, Vec3};
use vstd::prelude::*;

verus! {

/// The colour black.
pub open spec fn black() -> Color {
    Vec3(fx(0), fx(0), fx(0))
}

/// The smallest ray parameter at which a hit counts, `0.001`: it keeps a
/// scattered ray from hitting the surface it leaves.
pub open spec fn shadow_epsilon() -> Fixed {
    fx_ratio(1, 1000)
}

/// The colour of the sky: white blended into `(0.5, 0.7, 1.0)` with the
/// weight `0.5 (y + 1)`, for the height `y` of the ray's unit direction.
pub open spec fn background_spec(ray: Ray) -> Color {
    let one = fx(ONE_RAW as int);
    let t = fx_mul(fx_ratio(1, 2), fx_add(unit_spec(ray.direction).1, one));
    v_add(
        v_scale(Vec3(one, one, one), fx_sub(one, t)),
        v_scale(Vec3(fx_ratio(1, 2), fx_ratio(7, 10), one), t),
    )
}

/// The sample that stands for every draw never made.
pub open spec fn idle_sample() -> Sample {
    Sample { point: black(), draw: fx(0) }
}

/// The sample for the next scattering event.
pub open spec fn next_sample(samples: Seq<Sample>) -> Sample {
    if samples.len() > 0 {
        samples[0]
    } else {
        idle_sample()
    }
}

/// The samples for the scattering events after the next.
pub open spec fn later_samples(samples: Seq<Sample>) -> Seq<Sample> {
    if samples.len() > 0 {
        samples.skip(1)
    } else {
        samples
    }
}

/// Every sample is one a random draw can give.
pub open spec fn samples_valid(samples: Seq<Sample>) -> bool {
    forall|k: int| 0 <= k < samples.len() ==> sample_valid(#[trigger] samples[k])
}

/// The colour along `ray` with at most `depth` scattering events, the k-th
/// of which consumes `samples[k]`: black once `depth` is used up; the
/// background where the ray leaves the scene; black where the material hit
/// absorbs the ray; else the material's attenuation times the colour along
/// the scattered ray.
pub open spec fn ray_color_spec<H: Hittable>(
    ray: Ray,
    world: HittableList<H>,
    depth: int,
    samples: Seq<Sample>,
) -> Color
    decreases depth,
{
    if depth <= 0 {
        black()
    } else {
        match world.hit_spec(ray, shadow_epsilon(), fx(LIMIT_RAW as int)) {
            None => background_spec(ray),
            Some(rec) => {
                let s = scatter_spec(rec.material, ray, rec, next_sample(samples));
                if s.continues {
                    v_mul(
                        s.attenuation,
                        ray_color_spec(s.scattered, world, depth - 1, later_samples(samples)),
                    )
                } else {
                    black()
                }
            },
        }
    }
}

/// The colour of the sky behind a ray that hits nothing.
pub fn background(ray: &Ray) -> (c: Color)
    ensures
        c == background_spec(*ray),
        ONE_RAW / 2 <= c.0@ <= ONE_RAW,
        fx_ratio(7, 10)@ <= c.1@ <= ONE_RAW,
        c.2@ == ONE_RAW,
{
    proof {
        lemma_background_on_gradient(*ray);
    }
    let one = Fixed::one();
    let unit_direction = ray.direction.unit_vector();
    let t = Fixed::from_ratio(1, 2) * (unit_direction.y() + one);
    (one - t) * Vec3(one, one, one) + t * Vec3(
        Fixed::from_ratio(1, 2),
        Fixed::from_ratio(7, 10),
        one,
    )
}

/// The colour along `ray` when the scattering events consume `samples` from
/// index `used` on.
fn ray_color_from<H: Hittable>(
    ray: Ray,
    world: &HittableList<H>,
    depth: i32,
    samples: &Vec<Sample>,
    used: usize,
) -> (c: Color)
    requires
        world.valid(),
        used <= samples.len(),
    ensures
        c == ray_color_spec(ray, *world, depth as int, samples@.skip(used as int)),
    decreases depth,
{
    let zero = Fixed::zero();
    if depth <= 0 {
        return Vec3(zero, zero, zero);
    }
    match world.hit(&ray, Fixed::from_ratio(1, 1000), Fixed::max_value()) {
        None => background(&ray),
        Some(rec) => {
            let (sample, next) = if used < samples.len() {
                (samples[used], used + 1)
            } else {
                (Sample { point: Vec3(zero, zero, zero), draw: zero }, used)
            };
            assert(sample == next_sample(samples@.skip(used as int)));
            assert(samples@.skip(next as int) =~= later_samples(samples@.skip(used as int)));
            let s = rec.material.scatter_with(&ray, &rec, &sample);
            if s.continues {
                s.attenuation * ray_color_from(s.scattered, world, depth - 1, samples, next)
            } else {
                Vec3(zero, zero, zero)
            }
        },
    }
}

/// The colour along `ray` when the k-th scattering event consumes
/// `samples[k]`, and the idle sample where `samples` has run out.
pub fn ray_color_with<H: Hittable>(
    ray: Ray,
    world: &HittableList<H>,
    depth: i32,
    samples: &Vec<Sample>,
) -> (c: Color)
    requires
        world.valid(),
    ensures
        c == ray_color_spec(ray, *world, depth as int, samples@),
        depth <= 0 ==> c == black(),
        depth > 0 && world.hit_spec(ray, shadow_epsilon(), fx(LIMIT_RAW as int)) is None ==> c
            == background_spec(ray),
{
    assert(samples@.skip(0) =~= samples@);
    ray_color_from(ray, world, depth, samples, 0)
}

/// The colour along `ray` with freshly drawn samples, and the samples that
/// were drawn, in order.
fn ray_color_traced<H: Hittable>(ray: Ray, world: &HittableList<H>, depth: i32) -> (res: (
    Color,
    Ghost<Seq<Sample>>,
))
    requires
        world.valid(),
    ensures
        samples_valid(res.1@),
        res.0 == ray_color_spec(ray, *world, depth as int, res.1@),
    decreases depth,
{
    let zero = Fixed::zero();
    if depth <= 0 {
        return (Vec3(zero, zero, zero), Ghost(Seq::empty()));
    }
    match world.hit(&ray, Fixed::from_ratio(1, 1000), Fixed::max_value()) {
        None => (background(&ray), Ghost(Seq::empty())),
        Some(rec) => {
            let sample = rec.material.draw_sample();
            let s = rec.material.scatter_with(&ray, &rec, &sample);
            if s.continues {
                let (rest, Ghost(later)) = ray_color_traced(s.scattered, world, depth - 1);
                let ghost samples = seq![sample] + later;
                assert(later_samples(samples) =~= later);
                (s.attenuation * rest, Ghost(samples))
            } else {
                let ghost samples = seq![sample];
                (Vec3(zero, zero, zero), Ghost(samples))
            }
        },
    }
}

/// The colour that arrives along `ray` from the scene `world`, followed
/// through at most `depth` scattering events with freshly drawn samples.
pub fn ray_color<H: Hittable>(ray: Ray, world: &HittableList<H>, depth: i32) -> (c: Color)
    requires
        world.valid(),
    ensures
        exists|samples: Seq<Sample>|
            samples_valid(samples) && c == #[trigger] ray_color_spec(
                ray,
                *world,
                depth as int,
                samples,
            ),
        depth <= 0 ==> c == black(),
        depth > 0 && world.hit_spec(ray, shadow_epsilon(), fx(LIMIT_RAW as int)) is None ==> c
            == background_spec(ray),
{
    let (c, Ghost(samples)) = ray_color_traced(ray, world, depth);
    c
}

/// The background lies on the gradient from white to sky blue: for every
/// ray, red lies between one half and one, green between seven tenths and
/// one, and blue is one.
pub proof fn lemma_background_on_gradient(ray: Ray)
    ensures
        ONE_RAW / 2 <= background_spec(ray).0@ <= ONE_RAW,
        fx_ratio(7, 10)@ <= background_spec(ray).1@ <= ONE_RAW,
        background_spec(ray).2@ == ONE_RAW,
{
    let s = ONE_RAW as int;
    let one = fx(ONE_RAW as int);
    let half = fx_ratio(1, 2);
    let green = fx_ratio(7, 10);
    assert(half@ == 0x80_0000 && green@ == 11_744_051);
    let height = unit_spec(ray.direction).1;
    if raw_sum_sq(ray.direction) > 0 {
        lemma_unit_vector_has_unit_length(ray.direction);
        assert(abs(height@) <= s);
    } else {
        let v = ray.direction;
        assert(v.0@ * v.0@ >= 0 && v.1@ * v.1@ >= 0 && v.2@ * v.2@ >= 0) by (nonlinear_arith);
        assert(raw_sum_sq(v) == 0);
        assert(height == fx(0));
    }
    assert(-s <= height@ <= s);
    let lift = fx_add(height, one);
    assert(half@ * lift@ == 0x80_0000 * lift@) by (nonlinear_arith)
        requires
            half@ == 0x80_0000,
    ;
    let t = fx_mul(half, lift);
    assert(0 <= t@ <= s);
    let rest = fx_sub(one, t);
    assert(one@ * rest@ == s * rest@ && half@ * t@ == 0x80_0000 * t@ && green@ * t@ == 11_744_051
        * t@ && one@ * t@ == s * t@) by (nonlinear_arith)
        requires
            one@ == s,
            half@ == 0x80_0000,
            green@ == 11_744_051,
    ;
    lemma_mul_commutes(one, rest);
    lemma_mul_commutes(half, t);
    lemma_mul_commutes(green, t);
    lemma_mul_commutes(one, t);
}

} // verus!
