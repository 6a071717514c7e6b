//! Three-component vectors, used alike for points, directions and colours.

use crate::fixed::{
    trunc_div, is_isqrt, isqrt, isqrt_u128, lemma_isqrt_exists, lemma_isqrt_unique, fx, fx_add, fx_div, fx_max, fx_min, fx_mul, fx_neg, fx_sqrt, fx_sub, lemma_mul_commutes,
    lemma_mul_neg, lemma_mul_one, lemma_mul_zero, lemma_square_nonneg, lemma_square_of_neg,
    Fixed, LIMIT_RAW, ONE_RAW,
};
use crate::sampling::uniform;
use crate::wide::{wide_isqrt, wide_mul};
use core::ops::Neg;
use vstd::prelude::*;

verus! {

/// A vector of three fixed-point components `x`, `y` and `z`.
#[derive(Clone, Copy, Debug, PartialEq, Eq, Structural)]
pub struct Vec3(pub Fixed, pub Fixed, pub Fixed);

/// A vector read as a point in space.
pub type Point3 = Vec3;

/// A vector read as red, green and blue.
pub type Color = Vec3;

/// The vector `v` with every component negated.
pub open spec fn v_neg(v: Vec3) -> Vec3 {
    Vec3(fx_neg(v.0), fx_neg(v.1), fx_neg(v.2))
}

/// Componentwise sum.
pub open spec fn v_add(u: Vec3, v: Vec3) -> Vec3 {
    Vec3(fx_add(u.0, v.0), fx_add(u.1, v.1), fx_add(u.2, v.2))
}

/// Componentwise difference.
pub open spec fn v_sub(u: Vec3, v: Vec3) -> Vec3 {
    Vec3(fx_sub(u.0, v.0), fx_sub(u.1, v.1), fx_sub(u.2, v.2))
}

/// Componentwise product.
pub open spec fn v_mul(u: Vec3, v: Vec3) -> Vec3 {
    Vec3(fx_mul(u.0, v.0), fx_mul(u.1, v.1), fx_mul(u.2, v.2))
}

/// Componentwise quotient.
pub open spec fn v_div(u: Vec3, v: Vec3) -> Vec3 {
    Vec3(fx_div(u.0, v.0), fx_div(u.1, v.1), fx_div(u.2, v.2))
}

/// The vector `v` with every component multiplied by `k`.
pub open spec fn v_scale(v: Vec3, k: Fixed) -> Vec3 {
    Vec3(fx_mul(v.0, k), fx_mul(v.1, k), fx_mul(v.2, k))
}

/// The vector `v` with every component divided by `k`.
pub open spec fn v_shrink(v: Vec3, k: Fixed) -> Vec3 {
    Vec3(fx_div(v.0, k), fx_div(v.1, k), fx_div(v.2, k))
}

/// The vector `v` with `k` added to every component.
pub open spec fn v_offset(v: Vec3, k: Fixed) -> Vec3 {
    Vec3(fx_add(v.0, k), fx_add(v.1, k), fx_add(v.2, k))
}

/// The dot product `u.x v.x + u.y v.y + u.z v.z`, summed from the left.
pub open spec fn dot_spec(u: Vec3, v: Vec3) -> Fixed {
    fx_add(fx_add(fx_mul(u.0, v.0), fx_mul(u.1, v.1)), fx_mul(u.2, v.2))
}

/// The cross product `u x v`.
pub open spec fn cross_spec(u: Vec3, v: Vec3) -> Vec3 {
    Vec3(
        fx_sub(fx_mul(u.1, v.2), fx_mul(u.2, v.1)),
        fx_sub(fx_mul(u.2, v.0), fx_mul(u.0, v.2)),
        fx_sub(fx_mul(u.0, v.1), fx_mul(u.1, v.0)),
    )
}

/// The squared length `v . v`.
pub open spec fn length_squared_spec(v: Vec3) -> Fixed {
    dot_spec(v, v)
}

/// The exact sum of the squares of the raw components.
pub open spec fn raw_sum_sq(v: Vec3) -> int {
    v.0@ * v.0@ + v.1@ * v.1@ + v.2@ * v.2@
}

/// The length: the square root of the exact sum of the squares, rounded
/// down.  No square is rounded before the root is taken, so that the length
/// is off by less than one unit of the last place, however short the vector.
pub open spec fn length_spec(v: Vec3) -> Fixed {
    fx(isqrt(raw_sum_sq(v)))
}

/// The factor `2^32` by which the length is refined before a vector is
/// divided by it.
pub open spec fn fine() -> int {
    0x1_0000_0000
}

/// The length of `v` in units of `2^-56`: the root of the exact sum of the
/// squares, taken with 32 more places than a length has.
pub open spec fn fine_length_spec(v: Vec3) -> int {
    isqrt(raw_sum_sq(v) * (fine() * fine()))
}

/// The component `x` of a vector whose refined length is `l`, divided by
/// that length and rounded towards zero.
pub open spec fn unit_component(x: Fixed, l: int) -> Fixed {
    fx(trunc_div(x@ * (ONE_RAW * fine()), l))
}

/// `v / |v|`; the zero vector when `v` is the zero vector.  The length is
/// taken with 32 more places than the components have, so that even a
/// vector of a few units of the last place keeps its direction.
pub open spec fn unit_spec(v: Vec3) -> Vec3 {
    let l = fine_length_spec(v);
    if raw_sum_sq(v) == 0 {
        Vec3(fx(0), fx(0), fx(0))
    } else {
        Vec3(unit_component(v.0, l), unit_component(v.1, l), unit_component(v.2, l))
    }
}

/// Every component is smaller than `1e-8` in magnitude.
pub open spec fn near_zero_spec(v: Vec3) -> bool {
    &&& -ONE_RAW < v.0@ * 100_000_000 < ONE_RAW
    &&& -ONE_RAW < v.1@ * 100_000_000 < ONE_RAW
    &&& -ONE_RAW < v.2@ * 100_000_000 < ONE_RAW
}

/// The mirror image `v - 2 (v . n) n` of `v` about a surface with normal `n`.
pub open spec fn reflect_spec(v: Vec3, n: Vec3) -> Vec3 {
    v_sub(v, v_scale(n, fx_mul(fx(2 * ONE_RAW), dot_spec(v, n))))
}

/// Snell refraction of the unit vector `uv` at a surface with unit normal
/// `n`, for the ratio `eta` of the refractive indices: the sum of the part
/// perpendicular to the normal, `eta (uv + cos n)`, and the part parallel to
/// it, `-sqrt(max(0, 1 - |perp|^2)) n`, where `cos = min(-uv . n, 1)`.
pub open spec fn refract_spec(uv: Vec3, n: Vec3, eta: Fixed) -> Vec3 {
    let cos_theta = fx_min(dot_spec(v_neg(uv), n), fx(ONE_RAW as int));
    let perp = v_scale(v_add(uv, v_scale(n, cos_theta)), eta);
    let under_root = fx_max(fx(0), fx_sub(fx(ONE_RAW as int), length_squared_spec(perp)));
    let parallel = v_scale(n, fx_neg(fx_sqrt(under_root)));
    v_add(perp, parallel)
}

/// Every component of `v` lies in `[lo, hi)`.
pub open spec fn in_box(v: Vec3, lo: Fixed, hi: Fixed) -> bool {
    &&& lo@ <= v.0@ < hi@
    &&& lo@ <= v.1@ < hi@
    &&& lo@ <= v.2@ < hi@
}

/// `p` is a point of `[-1, 1)^3` whose squared length is below one.
pub open spec fn in_unit_sphere(p: Vec3) -> bool {
    &&& in_box(p, fx(-ONE_RAW), fx(ONE_RAW as int))
    &&& length_squared_spec(p)@ < ONE_RAW
}

/// `p` is a point of `[-1, 1)^2` in the plane `z = 0` whose length is at most
/// one.
pub open spec fn in_unit_disk(p: Vec3) -> bool {
    &&& -ONE_RAW <= p.0@ < ONE_RAW
    &&& -ONE_RAW <= p.1@ < ONE_RAW
    &&& p.2@ == 0
    &&& length_spec(p)@ <= ONE_RAW
}

/// The candidate `p` passes the test of a rejection sampler: for the disk,
/// its length is at most one; for the sphere, its squared length is below
/// one.
pub open spec fn accepted(p: Vec3, disk: bool) -> bool {
    if disk {
        length_spec(p)@ <= ONE_RAW
    } else {
        length_squared_spec(p)@ < ONE_RAW
    }
}

/// The first candidate from index `from` on that passes the test, and the
/// origin if none does.
pub open spec fn first_accepted(candidates: Seq<Vec3>, from: int, disk: bool) -> Vec3
    decreases candidates.len() - from,
{
    if from < 0 || from >= candidates.len() {
        Vec3(fx(0), fx(0), fx(0))
    } else if accepted(candidates[from], disk) {
        candidates[from]
    } else {
        first_accepted(candidates, from + 1, disk)
    }
}

/// The first candidate whose squared length is below one, and the origin if
/// there is none.
pub open spec fn first_in_unit_sphere(candidates: Seq<Vec3>) -> Vec3 {
    first_accepted(candidates, 0, false)
}

/// The first candidate whose length is at most one, and the origin if there
/// is none.
pub open spec fn first_in_unit_disk(candidates: Seq<Vec3>) -> Vec3 {
    first_accepted(candidates, 0, true)
}

/// Every candidate is a point of the cube `[-1, 1)^3`.
pub open spec fn candidates_in_cube(candidates: Seq<Vec3>) -> bool {
    forall|j: int|
        0 <= j < candidates.len() ==> in_box(
            #[trigger] candidates[j],
            fx(-ONE_RAW),
            fx(ONE_RAW as int),
        )
}

/// Every candidate is a point of the square `[-1, 1)^2` in the plane
/// `z = 0`.
pub open spec fn candidates_in_square(candidates: Seq<Vec3>) -> bool {
    forall|j: int|
        0 <= j < candidates.len() ==> {
            &&& -ONE_RAW <= (#[trigger] candidates[j]).0@ < ONE_RAW
            &&& -ONE_RAW <= candidates[j].1@ < ONE_RAW
            &&& candidates[j].2@ == 0
        }
}

/// Candidates that fail the test are passed over: where the first `n`
/// candidates all fail, the choice among all is the choice from the `n`-th
/// on.
pub proof fn lemma_first_after_rejections(candidates: Seq<Vec3>, n: int, disk: bool)
    requires
        0 <= n <= candidates.len(),
        forall|j: int| 0 <= j < n ==> !accepted(#[trigger] candidates[j], disk),
    ensures
        first_accepted(candidates, 0, disk) == first_accepted(candidates, n, disk),
    decreases n,
{
    if n > 0 {
        lemma_first_after_rejections(candidates, n - 1, disk);
    }
}

/// Number of candidates a rejection sampler draws before it settles for the
/// origin.  A candidate is rejected with probability below one half, so the
/// origin comes out with probability below `2^-256`.
pub const SAMPLE_ATTEMPTS: u32 = 256;

impl Vec3 {
    /// A vector with each component drawn from `[0, 1)`.
    pub fn random() -> (r: Vec3)
        ensures
            in_box(r, fx(0), fx(ONE_RAW as int)),
    {
        Vec3::random_with_limits(Fixed::zero(), Fixed::one())
    }

    /// A vector with each component drawn from `[min, max)`.
    pub fn random_with_limits(min: Fixed, max: Fixed) -> (r: Vec3)
        requires
            min@ < max@,
        ensures
            in_box(r, min, max),
    {
        let x = uniform(min, max);
        let y = uniform(min, max);
        let z = uniform(min, max);
        Vec3(x, y, z)
    }

    /// A point inside the unit sphere, by rejection from the cube
    /// `[-1, 1)^3`: the first of up to `SAMPLE_ATTEMPTS` drawn candidates
    /// whose squared length is below one, and the origin if there is none.
    pub fn random_in_unit_sphere() -> (r: Point3)
        ensures
            in_unit_sphere(r),
            exists|candidates: Seq<Vec3>|
                candidates.len() <= SAMPLE_ATTEMPTS && candidates_in_cube(candidates) && r
                    == #[trigger] first_in_unit_sphere(candidates),
    {
        let ghost mut drawn: Seq<Vec3> = Seq::empty();
        let mut attempts: u32 = 0;
        while attempts < SAMPLE_ATTEMPTS
            invariant
                attempts <= SAMPLE_ATTEMPTS,
                drawn.len() == attempts,
                candidates_in_cube(drawn),
                forall|j: int| 0 <= j < drawn.len() ==> !accepted(#[trigger] drawn[j], false),
            decreases SAMPLE_ATTEMPTS - attempts,
        {
            let p = Vec3::random_with_limits(Fixed::one().neg(), Fixed::one());
            let ghost before = drawn;
            proof {
                drawn = before.push(p);
                assert(forall|j: int| 0 <= j < before.len() ==> drawn[j] == before[j]);
                assert(drawn[before.len() as int] == p);
                assert(candidates_in_cube(drawn));
            }
            if p.length_squared().raw < ONE_RAW {
                proof {
                    lemma_first_after_rejections(drawn, before.len() as int, false);
                    assert(first_in_unit_sphere(drawn) == p);
                }
                return p;
            }
            attempts = attempts + 1;
        }
        proof {
            lemma_first_after_rejections(drawn, drawn.len() as int, false);
            lemma_origin_has_no_length();
            assert(first_in_unit_sphere(drawn) == Vec3(fx(0), fx(0), fx(0)));
        }
        Vec3(Fixed::zero(), Fixed::zero(), Fixed::zero())
    }

    /// The normalisation of a point drawn inside the unit sphere.
    pub fn random_unit_vector() -> (r: Vec3)
        ensures
            exists|candidates: Seq<Vec3>|
                candidates.len() <= SAMPLE_ATTEMPTS && candidates_in_cube(candidates) && r
                    == unit_spec(#[trigger] first_in_unit_sphere(candidates)),
    {
        let p = Vec3::random_in_unit_sphere();
        p.unit_vector()
    }

    /// A point of the unit disk in the plane `z = 0`, by rejection from the
    /// square `[-1, 1)^2`: the first of up to `SAMPLE_ATTEMPTS` drawn
    /// candidates whose length is at most one, and the origin if there is
    /// none.
    pub fn random_in_unit_disk() -> (r: Point3)
        ensures
            in_unit_disk(r),
            exists|candidates: Seq<Vec3>|
                candidates.len() <= SAMPLE_ATTEMPTS && candidates_in_square(candidates) && r
                    == #[trigger] first_in_unit_disk(candidates),
    {
        let ghost mut drawn: Seq<Vec3> = Seq::empty();
        let mut attempts: u32 = 0;
        while attempts < SAMPLE_ATTEMPTS
            invariant
                attempts <= SAMPLE_ATTEMPTS,
                drawn.len() == attempts,
                candidates_in_square(drawn),
                forall|j: int| 0 <= j < drawn.len() ==> !accepted(#[trigger] drawn[j], true),
            decreases SAMPLE_ATTEMPTS - attempts,
        {
            let x = uniform(Fixed::one().neg(), Fixed::one());
            let y = uniform(Fixed::one().neg(), Fixed::one());
            let p = Vec3(x, y, Fixed::zero());
            let ghost before = drawn;
            proof {
                drawn = before.push(p);
                assert(forall|j: int| 0 <= j < before.len() ==> drawn[j] == before[j]);
                assert(drawn[before.len() as int] == p);
                assert(candidates_in_square(drawn));
            }
            if p.length().raw <= ONE_RAW {
                proof {
                    lemma_first_after_rejections(drawn, before.len() as int, true);
                    assert(first_in_unit_disk(drawn) == p);
                }
                return p;
            }
            attempts = attempts + 1;
        }
        proof {
            lemma_first_after_rejections(drawn, drawn.len() as int, true);
            lemma_origin_has_no_length();
            assert(first_in_unit_disk(drawn) == Vec3(fx(0), fx(0), fx(0)));
        }
        Vec3(Fixed::zero(), Fixed::zero(), Fixed::zero())
    }

    /// The first component.
    pub fn x(&self) -> (r: Fixed)
        ensures
            r == self.0,
    {
        self.0
    }

    /// The second component.
    pub fn y(&self) -> (r: Fixed)
        ensures
            r == self.1,
    {
        self.1
    }

    /// The third component.
    pub fn z(&self) -> (r: Fixed)
        ensures
            r == self.2,
    {
        self.2
    }

    /// The length of the vector.
    pub fn length(&self) -> (r: Fixed)
        ensures
            r == length_spec(*self),
    {
        let x: u128 = magnitude(self.0.raw);
        let y: u128 = magnitude(self.1.raw);
        let z: u128 = magnitude(self.2.raw);
        assert(x * x <= 0x4000_0000_0000_0000_0000_0000_0000_0000 && y * y
            <= 0x4000_0000_0000_0000_0000_0000_0000_0000 && z * z
            <= 0x4000_0000_0000_0000_0000_0000_0000_0000) by (nonlinear_arith)
            requires
                x <= 0x8000_0000_0000_0000,
                y <= 0x8000_0000_0000_0000,
                z <= 0x8000_0000_0000_0000,
        ;
        assert(x * x == self.0@ * self.0@ && y * y == self.1@ * self.1@ && z * z == self.2@
            * self.2@) by (nonlinear_arith)
            requires
                x == self.0@ || x == -self.0@,
                y == self.1@ || y == -self.1@,
                z == self.2@ || z == -self.2@,
        ;
        let root: u64 = isqrt_u128(x * x + y * y + z * z);
        if root > 0x7fff_ffff_ffff_ffff {
            Fixed { raw: 0x7fff_ffff_ffff_ffff }
        } else {
            Fixed { raw: root as i64 }
        }
    }

    /// The squared length of the vector.
    pub fn length_squared(&self) -> (r: Fixed)
        ensures
            r == length_squared_spec(*self),
    {
        self.0 * self.0 + self.1 * self.1 + self.2 * self.2
    }

    /// Whether every component is below `1e-8` in magnitude.
    pub fn near_zero(&self) -> (r: bool)
        ensures
            r == near_zero_spec(*self),
    {
        self.0.raw == 0 && self.1.raw == 0 && self.2.raw == 0
    }

    /// The dot product with `v`.
    pub fn dot(&self, v: Vec3) -> (r: Fixed)
        ensures
            r == dot_spec(*self, v),
    {
        self.0 * v.0 + self.1 * v.1 + self.2 * v.2
    }

    /// The cross product with `v`.
    pub fn cross(&self, v: Vec3) -> (r: Vec3)
        ensures
            r == cross_spec(*self, v),
    {
        Vec3(
            self.1 * v.2 - self.2 * v.1,
            self.2 * v.0 - self.0 * v.2,
            self.0 * v.1 - self.1 * v.0,
        )
    }

    /// The vector scaled to unit length; the zero vector stays as it is.
    pub fn unit_vector(self) -> (r: Vec3)
        ensures
            r == unit_spec(self),
    {
        let x: u128 = magnitude(self.0.raw);
        let y: u128 = magnitude(self.1.raw);
        let z: u128 = magnitude(self.2.raw);
        assert(x * x <= 0x4000_0000_0000_0000_0000_0000_0000_0000 && y * y
            <= 0x4000_0000_0000_0000_0000_0000_0000_0000 && z * z
            <= 0x4000_0000_0000_0000_0000_0000_0000_0000) by (nonlinear_arith)
            requires
                x <= 0x8000_0000_0000_0000,
                y <= 0x8000_0000_0000_0000,
                z <= 0x8000_0000_0000_0000,
        ;
        assert(x * x == self.0@ * self.0@ && y * y == self.1@ * self.1@ && z * z == self.2@
            * self.2@) by (nonlinear_arith)
            requires
                x == self.0@ || x == -self.0@,
                y == self.1@ || y == -self.1@,
                z == self.2@ || z == -self.2@,
        ;
        let total: u128 = x * x + y * y + z * z;
        if total == 0 {
            return Vec3(Fixed::zero(), Fixed::zero(), Fixed::zero());
        }
        let refined = wide_mul(total, 0x1_0000_0000_0000_0000);
        assert(refined.hi < 0x1_0000_0000_0000_0000) by (nonlinear_arith)
            requires
                refined.hi * 0x1_0000_0000_0000_0000_0000_0000_0000_0000 + refined.lo == total
                    * 0x1_0000_0000_0000_0000,
                total < 0x1_0000_0000_0000_0000_0000_0000_0000_0000,
                refined.lo >= 0,
        ;
        let l = wide_isqrt(&refined);
        proof {
            assert(fine() * fine() == 0x1_0000_0000_0000_0000);
            lemma_isqrt_exists(refined@);
            lemma_isqrt_unique(refined@, l as int, isqrt(refined@));
            assert(l >= 1) by (nonlinear_arith)
                requires
                    refined@ < (l + 1) * (l + 1),
                    refined@ >= 1,
                    l >= 0,
            ;
        }
        Vec3(unit_part(self.0, l), unit_part(self.1, l), unit_part(self.2, l))
    }
}

/// The mirror image of `v` about a surface with normal `n`.
pub fn reflect(v: Vec3, n: Vec3) -> (r: Vec3)
    ensures
        r == reflect_spec(v, n),
{
    v - n * (Fixed::from_int(2) * dot(v, n))
}

/// The refraction of the unit vector `uv` at a surface with unit normal `n`,
/// for the ratio `etai_over_etat` of the refractive indices.
pub fn refract(uv: Vec3, n: Vec3, etai_over_etat: Fixed) -> (r: Vec3)
    ensures
        r == refract_spec(uv, n, etai_over_etat),
{
    let cos_theta = dot(uv.neg(), n).min(Fixed::one());
    let r_out_perp = (uv + n * cos_theta) * etai_over_etat;
    let under_root = Fixed::zero().max(Fixed::one() - r_out_perp.length_squared());
    let r_out_parallel = n * under_root.sqrt().neg();
    r_out_perp + r_out_parallel
}

/// One component of a normalised vector.
fn unit_part(x: Fixed, l: u128) -> (r: Fixed)
    requires
        l >= 1,
    ensures
        r == unit_component(x, l as int),
{
    let m = magnitude(x.raw);
    let scaled: u128 = m * 0x100_0000_0000_0000;
    let q: u128 = scaled / l;
    proof {
        assert(ONE_RAW * fine() == 0x100_0000_0000_0000);
        assert(x@ * (ONE_RAW * fine()) == scaled || x@ * (ONE_RAW * fine()) == -scaled)
            by (nonlinear_arith)
            requires
                m == x@ || m == -x@,
                scaled == m * 0x100_0000_0000_0000,
                ONE_RAW * fine() == 0x100_0000_0000_0000,
        ;
        assert(x@ >= 0 ==> x@ * (ONE_RAW * fine()) >= 0) by (nonlinear_arith)
            requires
                ONE_RAW * fine() == 0x100_0000_0000_0000,
        ;
        assert(x@ < 0 ==> x@ * (ONE_RAW * fine()) < 0) by (nonlinear_arith)
            requires
                ONE_RAW * fine() == 0x100_0000_0000_0000,
        ;
        vstd::arithmetic::div_mod::lemma_div_pos_is_pos(scaled as int, l as int);
    }
    let held: i64 = if q > 0x7fff_ffff_ffff_ffff {
        0x7fff_ffff_ffff_ffff
    } else {
        q as i64
    };
    if x.raw < 0 {
        Fixed { raw: -held }
    } else {
        Fixed { raw: held }
    }
}

/// The magnitude of a raw value.
fn magnitude(raw: i64) -> (m: u128)
    ensures
        m == raw || m == -raw,
        0 <= m <= 0x8000_0000_0000_0000,
{
    if raw < 0 {
        (-(raw as i128)) as u128
    } else {
        raw as u128
    }
}

/// The first of the candidates that passes the test, and the origin if none
/// does.
fn pick(candidates: &Vec<Vec3>, disk: bool) -> (r: Vec3)
    ensures
        r == first_accepted(candidates@, 0, disk),
{
    let mut i: usize = 0;
    while i < candidates.len()
        invariant
            i <= candidates.len(),
            forall|j: int| 0 <= j < i ==> !accepted(#[trigger] candidates@[j], disk),
        decreases candidates.len() - i,
    {
        let p = candidates[i];
        let passes = if disk {
            p.length().raw <= ONE_RAW
        } else {
            p.length_squared().raw < ONE_RAW
        };
        if passes {
            proof {
                lemma_first_after_rejections(candidates@, i as int, disk);
            }
            return p;
        }
        i = i + 1;
    }
    proof {
        lemma_first_after_rejections(candidates@, candidates@.len() as int, disk);
    }
    Vec3(Fixed::zero(), Fixed::zero(), Fixed::zero())
}

/// The point that rejection sampling in the unit sphere settles for when
/// the candidates drawn are those given, in order.
pub fn pick_in_unit_sphere(candidates: &Vec<Vec3>) -> (r: Vec3)
    ensures
        r == first_in_unit_sphere(candidates@),
{
    pick(candidates, false)
}

/// The point that rejection sampling in the unit disk settles for when the
/// candidates drawn are those given, in order.
pub fn pick_in_unit_disk(candidates: &Vec<Vec3>) -> (r: Vec3)
    ensures
        r == first_in_unit_disk(candidates@),
{
    pick(candidates, true)
}

/// The origin has squared length and length zero.
pub proof fn lemma_origin_has_no_length()
    ensures
        length_squared_spec(Vec3(fx(0), fx(0), fx(0)))@ == 0,
        length_spec(Vec3(fx(0), fx(0), fx(0)))@ == 0,
{
    let z = fx(0);
    assert(z@ == 0);
    assert(z@ * z@ == 0);
    assert(fx_mul(z, z) == z);
    assert(fx_add(z, z) == z);
    assert(dot_spec(Vec3(z, z, z), Vec3(z, z, z)) == z);
    assert(raw_sum_sq(Vec3(z, z, z)) == 0);
    lemma_isqrt_exists(0);
    assert(is_isqrt(0, 0));
    lemma_isqrt_unique(0, isqrt(0), 0);
}

/// `n` is one of the six unit vectors along an axis.
pub open spec fn is_axis(n: Vec3) -> bool {
    ||| (n.0@ == ONE_RAW || n.0@ == -ONE_RAW) && n.1@ == 0 && n.2@ == 0
    ||| n.0@ == 0 && (n.1@ == ONE_RAW || n.1@ == -ONE_RAW) && n.2@ == 0
    ||| n.0@ == 0 && n.1@ == 0 && (n.2@ == ONE_RAW || n.2@ == -ONE_RAW)
}

/// Every component of `v` can be doubled without saturating.
pub open spec fn within_half_range(v: Vec3) -> bool {
    &&& -LIMIT_RAW <= 2 * v.0@ <= LIMIT_RAW
    &&& -LIMIT_RAW <= 2 * v.1@ <= LIMIT_RAW
    &&& -LIMIT_RAW <= 2 * v.2@ <= LIMIT_RAW
}

/// Reflection about a normal along an axis is exact: it changes the sign of
/// the component along that axis, and so keeps the squared length.
pub proof fn lemma_reflect_about_axis(v: Vec3, n: Vec3)
    requires
        is_axis(n),
        within_half_range(v),
    ensures
        reflect_spec(v, n) == Vec3(
            if n.0@ != 0 {
                fx_neg(v.0)
            } else {
                v.0
            },
            if n.1@ != 0 {
                fx_neg(v.1)
            } else {
                v.1
            },
            if n.2@ != 0 {
                fx_neg(v.2)
            } else {
                v.2
            },
        ),
        length_squared_spec(reflect_spec(v, n)) == length_squared_spec(v),
{
    let one = fx(ONE_RAW as int);
    let k = fx_mul(fx(2 * ONE_RAW), dot_spec(v, n));
    lemma_mul_zero(v.0);
    lemma_mul_zero(v.1);
    lemma_mul_zero(v.2);
    lemma_mul_zero(k);
    lemma_mul_one(v.0);
    lemma_mul_one(v.1);
    lemma_mul_one(v.2);
    lemma_mul_one(k);
    lemma_mul_neg(v.0, one);
    lemma_mul_neg(v.1, one);
    lemma_mul_neg(v.2, one);
    lemma_mul_neg(k, one);
    lemma_mul_commutes(k, n.0);
    lemma_mul_commutes(k, n.1);
    lemma_mul_commutes(k, n.2);
    let d = dot_spec(v, n);
    assert((2 * ONE_RAW) * d@ == (2 * d@) * ONE_RAW) by (nonlinear_arith);
    assert(k == fx(2 * d@));
    lemma_square_of_neg(v.0);
    lemma_square_of_neg(v.1);
    lemma_square_of_neg(v.2);
}

/// A squared length is not negative.
pub proof fn lemma_length_squared_nonneg(v: Vec3)
    ensures
        length_squared_spec(v)@ >= 0,
{
    lemma_square_nonneg(v.0);
    lemma_square_nonneg(v.1);
    lemma_square_nonneg(v.2);
}

/// The dot product of `u` and `v`.
pub fn dot(u: Vec3, v: Vec3) -> (r: Fixed)
    ensures
        r == dot_spec(u, v),
{
    u.0 * v.0 + u.1 * v.1 + u.2 * v.2
}

/// The cross product of `u` and `v`.
pub fn cross(u: Vec3, v: Vec3) -> (r: Vec3)
    ensures
        r == cross_spec(u, v),
{
    Vec3(u.1 * v.2 - u.2 * v.1, u.2 * v.0 - u.0 * v.2, u.0 * v.1 - u.1 * v.0)
}

/// `v.neg()` is `v_neg(v)`.
impl core::ops::Neg for Vec3 {
    type Output = Vec3;

    fn neg(self) -> (r: Vec3) {
        Vec3(self.0.neg(), self.1.neg(), self.2.neg())
    }
}

impl vstd::std_specs::ops::NegSpecImpl for Vec3 {
    open spec fn obeys_neg_spec() -> bool {
        true
    }

    open spec fn neg_req(self) -> bool {
        true
    }

    open spec fn neg_spec(self) -> Vec3 {
        v_neg(self)
    }
}

/// `u + v` is `v_add(u, v)`.
impl core::ops::Add<Vec3> for Vec3 {
    type Output = Vec3;

    fn add(self, rhs: Vec3) -> (r: Vec3) {
        Vec3(self.0 + rhs.0, self.1 + rhs.1, self.2 + rhs.2)
    }
}

impl vstd::std_specs::ops::AddSpecImpl<Vec3> for Vec3 {
    open spec fn obeys_add_spec() -> bool {
        true
    }

    open spec fn add_req(self, rhs: Vec3) -> bool {
        true
    }

    open spec fn add_spec(self, rhs: Vec3) -> Vec3 {
        v_add(self, rhs)
    }
}

/// `u - v` is `v_sub(u, v)`.
impl core::ops::Sub<Vec3> for Vec3 {
    type Output = Vec3;

    fn sub(self, rhs: Vec3) -> (r: Vec3) {
        Vec3(self.0 - rhs.0, self.1 - rhs.1, self.2 - rhs.2)
    }
}

impl vstd::std_specs::ops::SubSpecImpl<Vec3> for Vec3 {
    open spec fn obeys_sub_spec() -> bool {
        true
    }

    open spec fn sub_req(self, rhs: Vec3) -> bool {
        true
    }

    open spec fn sub_spec(self, rhs: Vec3) -> Vec3 {
        v_sub(self, rhs)
    }
}

/// `u * v` is the componentwise product `v_mul(u, v)`.
impl core::ops::Mul<Vec3> for Vec3 {
    type Output = Vec3;

    fn mul(self, rhs: Vec3) -> (r: Vec3) {
        Vec3(self.0 * rhs.0, self.1 * rhs.1, self.2 * rhs.2)
    }
}

impl vstd::std_specs::ops::MulSpecImpl<Vec3> for Vec3 {
    open spec fn obeys_mul_spec() -> bool {
        true
    }

    open spec fn mul_req(self, rhs: Vec3) -> bool {
        true
    }

    open spec fn mul_spec(self, rhs: Vec3) -> Vec3 {
        v_mul(self, rhs)
    }
}

/// `u / v` is the componentwise quotient `v_div(u, v)`.
impl core::ops::Div<Vec3> for Vec3 {
    type Output = Vec3;

    fn div(self, rhs: Vec3) -> (r: Vec3) {
        Vec3(self.0 / rhs.0, self.1 / rhs.1, self.2 / rhs.2)
    }
}

impl vstd::std_specs::ops::DivSpecImpl<Vec3> for Vec3 {
    open spec fn obeys_div_spec() -> bool {
        true
    }

    open spec fn div_req(self, rhs: Vec3) -> bool {
        true
    }

    open spec fn div_spec(self, rhs: Vec3) -> Vec3 {
        v_div(self, rhs)
    }
}

/// `v * k` is `v_scale(v, k)`.
impl core::ops::Mul<Fixed> for Vec3 {
    type Output = Vec3;

    fn mul(self, rhs: Fixed) -> (r: Vec3) {
        Vec3(self.0 * rhs, self.1 * rhs, self.2 * rhs)
    }
}

impl vstd::std_specs::ops::MulSpecImpl<Fixed> for Vec3 {
    open spec fn obeys_mul_spec() -> bool {
        true
    }

    open spec fn mul_req(self, rhs: Fixed) -> bool {
        true
    }

    open spec fn mul_spec(self, rhs: Fixed) -> Vec3 {
        v_scale(self, rhs)
    }
}

/// `k * v` is `v_scale(v, k)`.
impl core::ops::Mul<Vec3> for Fixed {
    type Output = Vec3;

    fn mul(self, rhs: Vec3) -> (r: Vec3) {
        Vec3(rhs.0 * self, rhs.1 * self, rhs.2 * self)
    }
}

impl vstd::std_specs::ops::MulSpecImpl<Vec3> for Fixed {
    open spec fn obeys_mul_spec() -> bool {
        true
    }

    open spec fn mul_req(self, rhs: Vec3) -> bool {
        true
    }

    open spec fn mul_spec(self, rhs: Vec3) -> Vec3 {
        v_scale(rhs, self)
    }
}

/// `v / k` is `v_shrink(v, k)`.
impl core::ops::Div<Fixed> for Vec3 {
    type Output = Vec3;

    fn div(self, rhs: Fixed) -> (r: Vec3) {
        Vec3(self.0 / rhs, self.1 / rhs, self.2 / rhs)
    }
}

impl vstd::std_specs::ops::DivSpecImpl<Fixed> for Vec3 {
    open spec fn obeys_div_spec() -> bool {
        true
    }

    open spec fn div_req(self, rhs: Fixed) -> bool {
        true
    }

    open spec fn div_spec(self, rhs: Fixed) -> Vec3 {
        v_shrink(self, rhs)
    }
}

/// `v + k` is `v_offset(v, k)`.
impl core::ops::Add<Fixed> for Vec3 {
    type Output = Vec3;

    fn add(self, rhs: Fixed) -> (r: Vec3) {
        Vec3(self.0 + rhs, self.1 + rhs, self.2 + rhs)
    }
}

impl vstd::std_specs::ops::AddSpecImpl<Fixed> for Vec3 {
    open spec fn obeys_add_spec() -> bool {
        true
    }

    open spec fn add_req(self, rhs: Fixed) -> bool {
        true
    }

    open spec fn add_spec(self, rhs: Fixed) -> Vec3 {
        v_offset(self, rhs)
    }
}

/// `u += v` adds componentwise.
impl core::ops::AddAssign<Vec3> for Vec3 {
    fn add_assign(&mut self, rhs: Vec3)
        ensures
            *final(self) == v_add(*old(self), rhs),
    {
        self.0 = self.0 + rhs.0;
        self.1 = self.1 + rhs.1;
        self.2 = self.2 + rhs.2;
    }
}

/// `v *= k` multiplies every component by `k`.
impl core::ops::MulAssign<Fixed> for Vec3 {
    fn mul_assign(&mut self, rhs: Fixed)
        ensures
            *final(self) == v_scale(*old(self), rhs),
    {
        self.0 = self.0 * rhs;
        self.1 = self.1 * rhs;
        self.2 = self.2 * rhs;
    }
}

/// `v /= k` divides every component by `k`.
impl core::ops::DivAssign<Fixed> for Vec3 {
    fn div_assign(&mut self, rhs: Fixed)
        ensures
            *final(self) == v_shrink(*old(self), rhs),
    {
        self.0 = self.0 / rhs;
        self.1 = self.1 / rhs;
        self.2 = self.2 / rhs;
    }
}

} // verus!
