//! Surface materials and the way each of them scatters an incoming ray.

use crate::accuracy::{
    cosine_spec, lemma_reflect_keeps_length, lemma_refraction_at_equal_indices,
    lemma_refraction_has_unit_length, lemma_trunc_div_bounds, lemma_unit_vector_has_unit_length, nearly_equal,
    nearly_unit, };
use crate::fixed::{
    trunc_div, fx, fx_add, fx_div, fx_min, fx_mul, fx_sqrt, fx_sub, lemma_mul_one, lemma_mul_zero,
    lemma_sqrt_at_most_one, lemma_sqrt_nonneg, lemma_square_nonneg, Fixed, ONE_RAW,
};
use crate::hittable::HitRecord;
use crate::ray::Ray;
use crate::sampling::uniform;
use crate::vec3::{
    candidates_in_cube, first_in_unit_sphere, length_squared_spec, raw_sum_sq, SAMPLE_ATTEMPTS, dot, dot_spec,
    in_unit_sphere, near_zero_spec, reflect, reflect_spec, refract, refract_spec,
    unit_spec, v_add, v_neg, v_scale, Color, Point3, Vec3,
};
use core::ops::Neg;
use vstd::prelude::*;

verus! {

/// A diffuse surface.
#[derive(Clone, Copy, Debug, PartialEq, Eq, Structural)]
pub struct Lambertian {
    pub albedo: Color,
}

/// A mirror, blurred by `fuzz`.
#[derive(Clone, Copy, Debug, PartialEq, Eq, Structural)]
pub struct Metal {
    pub albedo: Color,
    pub fuzz: Fixed,
}

/// A clear refracting medium with refractive index `ir`.
#[derive(Clone, Copy, Debug, PartialEq, Eq, Structural)]
pub struct Dielectric {
    pub ir: Fixed,
}

/// The material of a surface: one of the three kinds.
#[derive(Clone, Copy, Debug, PartialEq, Eq, Structural)]
pub enum Material {
    Lambertian(Lambertian),
    Metal(Metal),
    Dielectric(Dielectric),
}

/// What a material makes of an incoming ray: the colour factor it applies,
/// the ray that leaves the surface, and whether that ray is followed at all.
#[derive(Clone, Copy, Debug, PartialEq, Eq, Structural)]
pub struct Scatter {
    pub attenuation: Color,
    pub scattered: Ray,
    pub continues: bool,
}

/// The random numbers one scattering event may consume: a point inside the
/// unit sphere and a number in `[0, 1)`.
#[derive(Clone, Copy, Debug, PartialEq, Eq, Structural)]
pub struct Sample {
    pub point: Point3,
    pub draw: Fixed,
}

/// The sample is one a random draw can give.
pub open spec fn sample_valid(s: Sample) -> bool {
    &&& in_unit_sphere(s.point)
    &&& 0 <= s.draw@ < ONE_RAW
}

/// Diffuse scattering: along the normal plus the unit vector through
/// `point`, or along the normal alone where the two cancel; always followed.
pub open spec fn lambertian_scatter_spec(m: Lambertian, rec: HitRecord, point: Point3) -> Scatter {
    let direction = v_add(rec.normal, unit_spec(point));
    Scatter {
        attenuation: m.albedo,
        scattered: Ray {
            origin: rec.p,
            direction: if near_zero_spec(direction) {
                rec.normal
            } else {
                direction
            },
        },
        continues: true,
    }
}

/// Specular scattering: the mirror direction, moved by `fuzz * point`;
/// followed only if it leaves the surface.
pub open spec fn metal_scatter_spec(m: Metal, r_in: Ray, rec: HitRecord, point: Point3) -> Scatter {
    let direction = v_add(reflect_spec(r_in.direction, rec.normal), v_scale(point, m.fuzz));
    Scatter {
        attenuation: m.albedo,
        scattered: Ray { origin: rec.p, direction },
        continues: dot_spec(direction, rec.normal)@ > 0,
    }
}

/// The fifth power of `x`.
pub open spec fn pow5_spec(x: Fixed) -> Fixed {
    fx_mul(fx_mul(fx_mul(fx_mul(x, x), x), x), x)
}

/// Schlick's approximation `r0 + (1 - r0) (1 - cos)^5` of the reflectance,
/// with `r0 = ((1 - n) / (1 + n))^2` for the ratio `n` of refractive indices.
pub open spec fn reflectance_spec(cosine: Fixed, ref_idx: Fixed) -> Fixed {
    let one = fx(ONE_RAW as int);
    let q = fx_div(fx_sub(one, ref_idx), fx_add(one, ref_idx));
    let r0 = fx_mul(q, q);
    fx_add(r0, fx_mul(fx_sub(one, r0), pow5_spec(fx_sub(one, cosine))))
}

/// The ratio of refractive indices met by a ray that hits as `rec` tells.
pub open spec fn refraction_ratio_spec(m: Dielectric, rec: HitRecord) -> Fixed {
    if rec.front_face {
        fx_div(fx(ONE_RAW as int), m.ir)
    } else {
        m.ir
    }
}

/// The cosine of the angle of incidence, capped at one.
pub open spec fn incidence_cos_spec(r_in: Ray, rec: HitRecord) -> Fixed {
    fx_min(dot_spec(v_neg(unit_spec(r_in.direction)), rec.normal), fx(ONE_RAW as int))
}

/// The ray is reflected: refraction is impossible (`ratio * sin > 1`), or the
/// reflectance exceeds `draw`.
pub open spec fn dielectric_reflects(m: Dielectric, r_in: Ray, rec: HitRecord, draw: Fixed) -> bool {
    let one = fx(ONE_RAW as int);
    let ratio = refraction_ratio_spec(m, rec);
    let cos_theta = incidence_cos_spec(r_in, rec);
    let sin_theta = fx_sqrt(fx_sub(one, fx_mul(cos_theta, cos_theta)));
    fx_mul(sin_theta, ratio)@ > ONE_RAW || reflectance_spec(cos_theta, ratio)@ > draw@
}

/// Scattering by a clear medium: the unit incoming direction, reflected or
/// refracted; never attenuated and always followed.
pub open spec fn dielectric_scatter_spec(
    m: Dielectric,
    r_in: Ray,
    rec: HitRecord,
    draw: Fixed,
) -> Scatter {
    let one = fx(ONE_RAW as int);
    let unit_direction = unit_spec(r_in.direction);
    Scatter {
        attenuation: Vec3(one, one, one),
        scattered: Ray {
            origin: rec.p,
            direction: if dielectric_reflects(m, r_in, rec, draw) {
                reflect_spec(unit_direction, rec.normal)
            } else {
                refract_spec(unit_direction, rec.normal, refraction_ratio_spec(m, rec))
            },
        },
        continues: true,
    }
}

/// What material `m` makes of the ray `r_in` that hit as `rec` tells, when
/// the random numbers drawn are those of `sample`.
pub open spec fn scatter_spec(m: Material, r_in: Ray, rec: HitRecord, sample: Sample) -> Scatter {
    match m {
        Material::Lambertian(l) => lambertian_scatter_spec(l, rec, sample.point),
        Material::Metal(l) => metal_scatter_spec(l, r_in, rec, sample.point),
        Material::Dielectric(l) => dielectric_scatter_spec(l, r_in, rec, sample.draw),
    }
}

/// A metal without fuzz is a perfect mirror: whatever point is drawn, the
/// ray leaves along the exact mirror direction, so that two scattering
/// events of one ray at one hit never differ.
pub proof fn lemma_polished_metal_is_mirror(
    m: Metal,
    r_in: Ray,
    rec: HitRecord,
    point: Point3,
    other: Point3,
)
    requires
        m.fuzz@ == 0,
    ensures
        metal_scatter_spec(m, r_in, rec, point).scattered.direction == reflect_spec(
            r_in.direction,
            rec.normal,
        ),
        metal_scatter_spec(m, r_in, rec, point) == metal_scatter_spec(m, r_in, rec, other),
{
    lemma_mul_zero(point.0);
    lemma_mul_zero(point.1);
    lemma_mul_zero(point.2);
    lemma_mul_zero(other.0);
    lemma_mul_zero(other.1);
    lemma_mul_zero(other.2);
    assert(m.fuzz == fx(0));
}

/// A medium of refractive index one meets every ray with the ratio one,
/// never reflects it totally, and reflects it at all only when the draw
/// falls below `(1 - cos)^5`.
pub proof fn lemma_unit_index_reflects_by_chance_alone(
    m: Dielectric,
    r_in: Ray,
    rec: HitRecord,
    draw: Fixed,
)
    requires
        m.ir@ == ONE_RAW,
    ensures
        refraction_ratio_spec(m, rec) == fx(ONE_RAW as int),
        dielectric_reflects(m, r_in, rec, draw) <==> pow5_spec(
            fx_sub(fx(ONE_RAW as int), incidence_cos_spec(r_in, rec)),
        )@ > draw@,
{
    let one = fx(ONE_RAW as int);
    assert(m.ir == one);
    lemma_mul_one(one);
    assert(fx_div(one, one) == one);
    let cos_theta = incidence_cos_spec(r_in, rec);
    let under_root = fx_sub(one, fx_mul(cos_theta, cos_theta));
    lemma_square_nonneg(cos_theta);
    lemma_sqrt_at_most_one(under_root);
    lemma_mul_one(fx_sqrt(under_root));
    lemma_sqrt_nonneg(under_root);
    let q = fx_div(fx_sub(one, one), fx_add(one, one));
    assert(q == fx(0));
    lemma_mul_zero(q);
    lemma_mul_one(pow5_spec(fx_sub(one, cos_theta)));
}

/// A medium of refractive index one does not bend a ray, up to rounding:
/// unless the draw makes it reflect, a ray that meets the normal from the
/// front leaves along its own unit direction, each component within the
/// tolerance of straight refraction.
pub proof fn lemma_unit_index_keeps_direction(
    m: Dielectric,
    r_in: Ray,
    rec: HitRecord,
    draw: Fixed,
)
    requires
        m.ir@ == ONE_RAW,
        raw_sum_sq(r_in.direction) > 0,
        nearly_unit(rec.normal),
        dot_spec(v_neg(unit_spec(r_in.direction)), rec.normal)@ >= 0,
        !dielectric_reflects(m, r_in, rec, draw),
    ensures
        nearly_equal(
            dielectric_scatter_spec(m, r_in, rec, draw).scattered.direction,
            unit_spec(r_in.direction),
        ),
{
    lemma_unit_index_reflects_by_chance_alone(m, r_in, rec, draw);
    lemma_unit_vector_has_unit_length(r_in.direction);
    lemma_refraction_at_equal_indices(unit_spec(r_in.direction), rec.normal);
}

/// A reflected ray leaves with unit length, up to rounding: where a clear
/// medium reflects a ray off a normal of nearly unit length, the computed
/// squared length of the outgoing direction differs from one by at most 144
/// units of the last place.
pub proof fn lemma_reflection_has_unit_length(
    m: Dielectric,
    r_in: Ray,
    rec: HitRecord,
    draw: Fixed,
)
    requires
        raw_sum_sq(r_in.direction) > 0,
        nearly_unit(rec.normal),
        dielectric_reflects(m, r_in, rec, draw),
    ensures
        ONE_RAW - 144 <= length_squared_spec(
            dielectric_scatter_spec(m, r_in, rec, draw).scattered.direction,
        )@ <= ONE_RAW + 144,
{
    lemma_unit_vector_has_unit_length(r_in.direction);
    lemma_reflect_keeps_length(unit_spec(r_in.direction), rec.normal);
}

/// A ray scattered by a clear medium leaves with unit length, up to
/// rounding, whether it is reflected or refracted: for a ray that meets a
/// normal of nearly unit length from the front, and a refractive index
/// between one quarter and four, the computed squared
/// length of the outgoing direction lies between `1 - 512 ulp` and
/// `1 + 2048 ulp`, where one ulp is `2^-24`.
pub proof fn lemma_scattered_ray_has_unit_length(
    m: Dielectric,
    r_in: Ray,
    rec: HitRecord,
    draw: Fixed,
)
    requires
        raw_sum_sq(r_in.direction) > 0,
        nearly_unit(rec.normal),
        dot_spec(v_neg(unit_spec(r_in.direction)), rec.normal)@ >= 0,
        ONE_RAW <= 4 * m.ir@ <= 16 * ONE_RAW,
    ensures
        ONE_RAW - 512 <= length_squared_spec(
            dielectric_scatter_spec(m, r_in, rec, draw).scattered.direction,
        )@ <= ONE_RAW + 2048,
{
    if dielectric_reflects(m, r_in, rec, draw) {
        lemma_reflection_has_unit_length(m, r_in, rec, draw);
    } else {
        let one = fx(ONE_RAW as int);
        let ratio = refraction_ratio_spec(m, rec);
        if rec.front_face {
            lemma_trunc_div_bounds(ONE_RAW * ONE_RAW, m.ir@);
            assert(trunc_div(ONE_RAW * ONE_RAW, m.ir@) <= 4 * ONE_RAW) by (nonlinear_arith)
                requires
                    trunc_div(ONE_RAW * ONE_RAW, m.ir@) * m.ir@ <= ONE_RAW * ONE_RAW,
                    ONE_RAW <= 4 * m.ir@,
                    trunc_div(ONE_RAW * ONE_RAW, m.ir@) >= 0,
                    ONE_RAW == 0x100_0000,
            ;
            assert(one@ * ONE_RAW == ONE_RAW * ONE_RAW);
        }
        assert(0 <= ratio@ <= 4 * ONE_RAW);
        lemma_unit_vector_has_unit_length(r_in.direction);
        assert(incidence_cos_spec(r_in, rec) == cosine_spec(unit_spec(r_in.direction), rec.normal));
        lemma_refraction_has_unit_length(unit_spec(r_in.direction), rec.normal, ratio);
    }
}

impl Lambertian {
    /// Scatters with `point` as the point drawn inside the unit sphere.
    pub fn scatter_with(&self, rec: &HitRecord, point: Point3) -> (res: Scatter)
        ensures
            res == lambertian_scatter_spec(*self, *rec, point),
    {
        let mut scatter_direction = rec.normal + point.unit_vector();
        if scatter_direction.near_zero() {
            scatter_direction = rec.normal;
        }
        Scatter {
            attenuation: self.albedo,
            scattered: Ray { origin: rec.p, direction: scatter_direction },
            continues: true,
        }
    }

    /// Scatters with a point freshly drawn inside the unit sphere.
    pub fn scatter(&self, r_in: &Ray, rec: &HitRecord) -> (res: Scatter)
        ensures
            exists|point: Point3|
                in_unit_sphere(point) && res == lambertian_scatter_spec(*self, *rec, point),
    {
        let point = Vec3::random_in_unit_sphere();
        self.scatter_with(rec, point)
    }
}

impl Metal {
    /// Scatters with `point` as the point drawn inside the unit sphere.
    pub fn scatter_with(&self, r_in: &Ray, rec: &HitRecord, point: Point3) -> (res: Scatter)
        ensures
            res == metal_scatter_spec(*self, *r_in, *rec, point),
    {
        let reflected = reflect(r_in.direction, rec.normal);
        let direction = reflected + self.fuzz * point;
        Scatter {
            attenuation: self.albedo,
            scattered: Ray { origin: rec.p, direction },
            continues: dot(direction, rec.normal).raw > 0,
        }
    }

    /// Scatters with a point freshly drawn inside the unit sphere.
    pub fn scatter(&self, r_in: &Ray, rec: &HitRecord) -> (res: Scatter)
        ensures
            exists|point: Point3|
                in_unit_sphere(point) && res == metal_scatter_spec(*self, *r_in, *rec, point),
    {
        let point = Vec3::random_in_unit_sphere();
        self.scatter_with(r_in, rec, point)
    }
}

impl Dielectric {
/// Schlick's approximation of the reflectance at the given cosine.
    pub fn reflectance(cosine: Fixed, ref_idx: Fixed) -> (r: Fixed)
        ensures
            r == reflectance_spec(cosine, ref_idx),
    {
        let one = Fixed::one();
        let mut r0 = (one - ref_idx) / (one + ref_idx);
        r0 = r0 * r0;
        let x = one - cosine;
        r0 + (one - r0) * (x * x * x * x * x)
    }

    /// Scatters with `draw` as the number drawn from `[0, 1)`.
    pub fn scatter_with(&self, r_in: &Ray, rec: &HitRecord, draw: Fixed) -> (res: Scatter)
        ensures
            res == dielectric_scatter_spec(*self, *r_in, *rec, draw),
    {
        let one = Fixed::one();
        let refraction_ratio = if rec.front_face {
            one / self.ir
        } else {
            self.ir
        };
        let unit_direction = r_in.direction.unit_vector();
        let cos_theta = dot(unit_direction.neg(), rec.normal).min(one);
        let sin_theta = (one - cos_theta * cos_theta).sqrt();
        let cannot_refract = (sin_theta * refraction_ratio).raw > ONE_RAW;
        let direction = if cannot_refract || Dielectric::reflectance(
            cos_theta,
            refraction_ratio,
        ).raw > draw.raw {
            reflect(unit_direction, rec.normal)
        } else {
            refract(unit_direction, rec.normal, refraction_ratio)
        };
        Scatter {
            attenuation: Vec3(one, one, one),
            scattered: Ray { origin: rec.p, direction },
            continues: true,
        }
    }

    /// Scatters with a number freshly drawn from `[0, 1)`.
    pub fn scatter(&self, r_in: &Ray, rec: &HitRecord) -> (res: Scatter)
        ensures
            exists|draw: Fixed|
                0 <= draw@ < ONE_RAW && res == dielectric_scatter_spec(*self, *r_in, *rec, draw),
    {
        let draw = uniform(Fixed::zero(), Fixed::one());
        self.scatter_with(r_in, rec, draw)
    }
}

impl Material {
    /// Draws the random numbers that this material consumes; the others are
    /// left at zero.
    pub fn draw_sample(&self) -> (sample: Sample)
        ensures
            sample_valid(sample),
            self is Dielectric ==> sample.point == Vec3(fx(0), fx(0), fx(0)),
            !(self is Dielectric) ==> sample.draw == fx(0) && exists|candidates: Seq<Vec3>|
                candidates.len() <= SAMPLE_ATTEMPTS && candidates_in_cube(candidates)
                    && sample.point == #[trigger] first_in_unit_sphere(candidates),
    {
        let zero = Fixed::zero();
        proof {
            crate::vec3::lemma_origin_has_no_length();
        }
        match self {
            Material::Dielectric(_) => Sample {
                point: Vec3(zero, zero, zero),
                draw: uniform(zero, Fixed::one()),
            },
            _ => Sample { point: Vec3::random_in_unit_sphere(), draw: zero },
        }
    }

    /// Scatters with the random numbers of `sample`.
    pub fn scatter_with(&self, r_in: &Ray, rec: &HitRecord, sample: &Sample) -> (res: Scatter)
        ensures
            res == scatter_spec(*self, *r_in, *rec, *sample),
    {
        match self {
            Material::Lambertian(m) => m.scatter_with(rec, sample.point),
            Material::Metal(m) => m.scatter_with(r_in, rec, sample.point),
            Material::Dielectric(m) => m.scatter_with(r_in, rec, sample.draw),
        }
    }

    /// Decides whether the ray `r_in` that hit as `rec` tells goes on, in
    /// which direction and with which attenuation.
    pub fn scatter(&self, r_in: &Ray, rec: &HitRecord) -> (res: Scatter)
        ensures
            exists|sample: Sample|
                sample_valid(sample) && res == scatter_spec(*self, *r_in, *rec, sample),
    {
        let sample = self.draw_sample();
        self.scatter_with(r_in, rec, &sample)
    }
}

} // verus!
