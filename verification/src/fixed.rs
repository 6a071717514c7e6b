//! Saturating signed fixed-point numbers with 24 fractional bits.
//!
//! A [`Fixed`] stands for the real number `raw / 2^24`.  Every operation is
//! total: results are rounded towards zero and clamped into the symmetric
//! range `[-LIMIT_RAW, LIMIT_RAW]`, division by zero gives zero, and the
//! square root of a negative number is zero.

use core::ops::Neg;
use vstd::arithmetic::div_mod::{lemma_div_is_ordered, lemma_div_pos_is_pos};
use vstd::prelude::*;

verus! {

/// Raw representation of the number one.
pub const ONE_RAW: i64 = 0x100_0000;

/// Largest magnitude a result can take; arithmetic saturates at `±LIMIT_RAW`.
pub const LIMIT_RAW: i64 = 0x7fff_ffff_ffff_ffff;

/// Clamps an integer into the symmetric range `[-LIMIT_RAW, LIMIT_RAW]`.
pub open spec fn saturate(v: int) -> int {
    if v > LIMIT_RAW {
        LIMIT_RAW as int
    } else if v < -LIMIT_RAW {
        -LIMIT_RAW
    } else {
        v
    }
}

/// Quotient of `n` by a non-zero `d`, rounded towards zero.
pub open spec fn trunc_div(n: int, d: int) -> int {
    if d > 0 {
        if n >= 0 {
            n / d
        } else {
            -((-n) / d)
        }
    } else {
        if n >= 0 {
            -(n / (-d))
        } else {
            (-n) / (-d)
        }
    }
}

/// `r` is the integer square root of `n`: the largest `r` with `r * r <= n`.
pub open spec fn is_isqrt(n: int, r: int) -> bool {
    0 <= r && r * r <= n < (r + 1) * (r + 1)
}

/// Integer square root of a non-negative `n`.
pub open spec fn isqrt(n: int) -> int {
    choose|r: int| is_isqrt(n, r)
}

/// A non-negative integer has exactly one integer square root.
pub proof fn lemma_isqrt_unique(n: int, r: int, s: int)
    requires
        is_isqrt(n, r),
        is_isqrt(n, s),
    ensures
        r == s,
{
    assert(r == s) by (nonlinear_arith)
        requires
            0 <= r,
            r * r <= n,
            n < (r + 1) * (r + 1),
            0 <= s,
            s * s <= n,
            n < (s + 1) * (s + 1),
    {
        if r < s {
            assert((r + 1) * (r + 1) <= s * s);
        }
        if s < r {
            assert((s + 1) * (s + 1) <= r * r);
        }
    }
}

/// Every non-negative integer has an integer square root, and `isqrt` is it.
pub proof fn lemma_isqrt_exists(n: int)
    requires
        n >= 0,
    ensures
        is_isqrt(n, isqrt(n)),
    decreases n,
{
    if n == 0 {
        assert(is_isqrt(0, 0));
    } else {
        lemma_isqrt_exists(n - 1);
        let r = isqrt(n - 1);
        if n < (r + 1) * (r + 1) {
            assert(is_isqrt(n, r));
        } else {
            assert((r + 2) * (r + 2) == (r + 1) * (r + 1) + 2 * r + 3) by (nonlinear_arith);
            assert(is_isqrt(n, r + 1));
        }
    }
}

/// Rounding towards zero keeps the order of two numerators over one positive
/// denominator.
pub proof fn lemma_trunc_div_monotone(n1: int, n2: int, d: int)
    requires
        n1 <= n2,
        d > 0,
    ensures
        trunc_div(n1, d) <= trunc_div(n2, d),
{
    if n1 >= 0 {
        lemma_div_is_ordered(n1, n2, d);
    } else if n2 >= 0 {
        lemma_div_pos_is_pos(-n1, d);
        lemma_div_pos_is_pos(n2, d);
    } else {
        lemma_div_is_ordered(-n2, -n1, d);
    }
}

/// A real number `raw / 2^24`.
#[derive(Clone, Copy, Debug, PartialEq, Eq, Structural)]
pub struct Fixed {
    pub raw: i64,
}

impl View for Fixed {
    type V = int;

    open spec fn view(&self) -> int {
        self.raw as int
    }
}

/// The number whose raw representation is `saturate(v)`.
pub open spec fn fx(v: int) -> Fixed {
    Fixed { raw: saturate(v) as i64 }
}

/// The number `num / den`, rounded towards zero; zero when `den` is zero.
pub open spec fn fx_ratio(num: int, den: int) -> Fixed {
    if den == 0 {
        fx(0)
    } else {
        fx(trunc_div(num * ONE_RAW, den))
    }
}

/// The negative, saturated.
pub open spec fn fx_neg(a: Fixed) -> Fixed {
    fx(-a@)
}

/// The sum, saturated.
pub open spec fn fx_add(a: Fixed, b: Fixed) -> Fixed {
    fx(a@ + b@)
}

/// The difference, saturated.
pub open spec fn fx_sub(a: Fixed, b: Fixed) -> Fixed {
    fx(a@ - b@)
}

/// The product, rounded towards zero and saturated.
pub open spec fn fx_mul(a: Fixed, b: Fixed) -> Fixed {
    fx(trunc_div(a@ * b@, ONE_RAW as int))
}

/// Quotient, with `a / 0 == 0`.
pub open spec fn fx_div(a: Fixed, b: Fixed) -> Fixed {
    fx_ratio(a@, b@)
}

/// Square root rounded down, with the root of a negative number taken as zero.
pub open spec fn fx_sqrt(a: Fixed) -> Fixed {
    if a@ <= 0 {
        fx(0)
    } else {
        fx(isqrt(a@ * ONE_RAW))
    }
}

/// The smaller of two numbers.
pub open spec fn fx_min(a: Fixed, b: Fixed) -> Fixed {
    if a@ <= b@ {
        a
    } else {
        b
    }
}

/// The larger of two numbers.
pub open spec fn fx_max(a: Fixed, b: Fixed) -> Fixed {
    if a@ >= b@ {
        a
    } else {
        b
    }
}

/// `a` held within `[lo, hi]`.
pub open spec fn fx_clamp(a: Fixed, lo: Fixed, hi: Fixed) -> Fixed {
    if a@ < lo@ {
        lo
    } else if a@ > hi@ {
        hi
    } else {
        a
    }
}

/// The whole part of `raw / 2^24`: the number rounded towards zero.
pub open spec fn fx_whole(a: Fixed) -> int {
    trunc_div(a@, ONE_RAW as int)
}

/// A square is not negative.
pub proof fn lemma_square_nonneg(a: Fixed)
    ensures
        fx_mul(a, a)@ >= 0,
{
    assert(a@ * a@ >= 0) by (nonlinear_arith);
    lemma_div_pos_is_pos(a@ * a@, ONE_RAW as int);
}

/// A square root is not negative.
pub proof fn lemma_sqrt_nonneg(a: Fixed)
    ensures
        fx_sqrt(a)@ >= 0,
{
    if a@ > 0 {
        lemma_isqrt_exists(a@ * ONE_RAW);
    }
}

/// A product changes sign with one of its factors, unless that factor is the
/// one raw value below the symmetric range.
pub proof fn lemma_mul_neg(a: Fixed, b: Fixed)
    requires
        b@ >= -LIMIT_RAW,
    ensures
        fx_mul(a, fx_neg(b)) == fx_neg(fx_mul(a, b)),
{
    assert(a@ * (-b@) == -(a@ * b@)) by (nonlinear_arith);
}

/// The order of the factors does not matter.
pub proof fn lemma_mul_commutes(a: Fixed, b: Fixed)
    ensures
        fx_mul(a, b) == fx_mul(b, a),
{
    assert(a@ * b@ == b@ * a@) by (nonlinear_arith);
}

/// A number and its negative have the same square.
pub proof fn lemma_square_of_neg(a: Fixed)
    ensures
        fx_mul(fx_neg(a), fx_neg(a)) == fx_mul(fx(a@), fx(a@)),
{
    let x = fx(a@)@;
    assert(fx_neg(a)@ == -x);
    assert((-x) * (-x) == x * x) by (nonlinear_arith);
}

/// Multiplying by one changes nothing but the one raw value below the
/// symmetric range, which is clamped.
pub proof fn lemma_mul_one(a: Fixed)
    ensures
        fx_mul(a, fx(ONE_RAW as int)) == fx(a@),
        fx_mul(fx(ONE_RAW as int), a) == fx(a@),
{
    assert(a@ * ONE_RAW == ONE_RAW * a@) by (nonlinear_arith);
}

/// Multiplying by zero gives zero.
pub proof fn lemma_mul_zero(a: Fixed)
    ensures
        fx_mul(a, fx(0)) == fx(0),
        fx_mul(fx(0), a) == fx(0),
{
    assert(a@ * 0 == 0 && 0 * a@ == 0) by (nonlinear_arith);
}

/// The square root of a number that is at most one is at most one.
pub proof fn lemma_sqrt_at_most_one(a: Fixed)
    requires
        a@ <= ONE_RAW,
    ensures
        fx_sqrt(a)@ <= ONE_RAW,
{
    if a@ > 0 {
        lemma_isqrt_exists(a@ * ONE_RAW);
        let r = isqrt(a@ * ONE_RAW);
        assert(r <= ONE_RAW) by (nonlinear_arith)
            requires
                0 <= r,
                r * r <= a@ * ONE_RAW,
                a@ <= ONE_RAW,
                ONE_RAW == 0x100_0000,
        ;
    }
}

/// Division by one non-negative number keeps the order of two numbers.
pub proof fn lemma_div_monotone(p: Fixed, q: Fixed, a: Fixed)
    requires
        p@ <= q@,
        a@ >= 0,
    ensures
        fx_div(p, a)@ <= fx_div(q, a)@,
{
    if a@ > 0 {
        lemma_trunc_div_monotone(p@ * ONE_RAW, q@ * ONE_RAW, a@);
    }
}

/// `v * 2^24`, which always fits.
fn scale_up(v: i64) -> (r: i128)
    ensures
        r == v * ONE_RAW,
{
    (v as i128) * 0x100_0000
}

/// The value clamped into the symmetric range of results.
fn clamp_i128(v: i128) -> (r: i64)
    ensures
        r == saturate(v as int),
{
    if v > LIMIT_RAW as i128 {
        LIMIT_RAW
    } else if v < -(LIMIT_RAW as i128) {
        -LIMIT_RAW
    } else {
        v as i64
    }
}

/// The integer square root: the largest `r` with `r * r <= n`, found by
/// bisection.
pub fn isqrt_u128(n: u128) -> (r: u64)
    ensures
        is_isqrt(n as int, r as int),
        r == isqrt(n as int),
{
    let mut lo: u128 = 0;
    let mut hi: u128 = 0x1_0000_0000_0000_0000;
    assert(hi * hi == 0x1_0000_0000_0000_0000_0000_0000_0000_0000int) by (nonlinear_arith)
        requires
            hi == 0x1_0000_0000_0000_0000,
    ;
    while hi - lo > 1
        invariant
            lo < hi <= 0x1_0000_0000_0000_0000,
            lo * lo <= n < hi * hi,
        decreases hi - lo,
    {
        let mid: u128 = lo + (hi - lo) / 2;
        assert(mid * mid < 0x1_0000_0000_0000_0000_0000_0000_0000_0000int) by (nonlinear_arith)
            requires
                0 <= mid < 0x1_0000_0000_0000_0000,
        ;
        if mid * mid <= n {
            lo = mid;
        } else {
            hi = mid;
        }
    }
    proof {
        assert(hi == lo + 1);
        assert(is_isqrt(n as int, lo as int));
        lemma_isqrt_unique(n as int, lo as int, isqrt(n as int));
    }
    lo as u64
}

impl Fixed {
    /// The number with the given raw representation, clamped into the
    /// symmetric range of results.
    pub fn from_raw(raw: i64) -> (r: Fixed)
        ensures
            r == fx(raw as int),
    {
        Fixed { raw: clamp_i128(raw as i128) }
    }

    /// The integer `n`, saturated.
    pub fn from_int(n: i64) -> (r: Fixed)
        ensures
            r == fx(n * ONE_RAW),
    {
        let p: i128 = scale_up(n);
        Fixed { raw: clamp_i128(p) }
    }

    /// The quotient `num / den` rounded towards zero; zero when `den` is zero.
    pub fn from_ratio(num: i64, den: i64) -> (r: Fixed)
        ensures
            r == fx_ratio(num as int, den as int),
    {
        if den == 0 {
            Fixed { raw: 0 }
        } else {
            let n: i128 = scale_up(num);
            let d: i128 = den as i128;
            let q: i128 = if d > 0 {
                n / d
            } else {
                (-n) / (-d)
            };
            Fixed { raw: clamp_i128(q) }
        }
    }

    /// The number zero.
    pub fn zero() -> (r: Fixed)
        ensures
            r@ == 0,
    {
        Fixed { raw: 0 }
    }

    /// The number one.
    pub fn one() -> (r: Fixed)
        ensures
            r@ == ONE_RAW,
    {
        Fixed { raw: ONE_RAW }
    }

    /// The largest representable number, used as an unbounded upper limit.
    pub fn max_value() -> (r: Fixed)
        ensures
            r@ == LIMIT_RAW,
    {
        Fixed { raw: LIMIT_RAW }
    }

    /// The square root rounded down; zero for a negative number.
    pub fn sqrt(self) -> (r: Fixed)
        ensures
            r == fx_sqrt(self),
            self@ <= 0 ==> r@ == 0,
            self@ > 0 ==> is_isqrt(self@ * ONE_RAW, r@),
    {
        if self.raw <= 0 {
            Fixed { raw: 0 }
        } else {
            let n: u128 = self.raw as u128 * 0x100_0000;
            let root: u64 = isqrt_u128(n);
            assert(root < 0x1000_0000_0000) by (nonlinear_arith)
                requires
                    0 <= root,
                    root * root <= n,
                    n < 0x100_0000_0000_0000_0000_0000int,
            ;
            Fixed { raw: root as i64 }
        }
    }

    /// The smaller of this number and `other`.
    pub fn min(self, other: Fixed) -> (r: Fixed)
        ensures
            r == fx_min(self, other),
    {
        if self.raw <= other.raw {
            self
        } else {
            other
        }
    }

    /// The larger of this number and `other`.
    pub fn max(self, other: Fixed) -> (r: Fixed)
        ensures
            r == fx_max(self, other),
    {
        if self.raw >= other.raw {
            self
        } else {
            other
        }
    }

    /// This number held within `[lo, hi]`.
    pub fn clamp(self, lo: Fixed, hi: Fixed) -> (r: Fixed)
        ensures
            r == fx_clamp(self, lo, hi),
    {
        if self.raw < lo.raw {
            lo
        } else if self.raw > hi.raw {
            hi
        } else {
            self
        }
    }

    /// The whole part of the number: the number rounded towards zero.
    pub fn whole(self) -> (r: i64)
        ensures
            r == fx_whole(self),
    {
        self.raw / 0x100_0000
    }
}

/// `a.neg()` is `fx_neg(a)`.
impl core::ops::Neg for Fixed {
    type Output = Fixed;

    fn neg(self) -> (r: Fixed) {
        Fixed { raw: clamp_i128(-(self.raw as i128)) }
    }
}

impl vstd::std_specs::ops::NegSpecImpl for Fixed {
    open spec fn obeys_neg_spec() -> bool {
        true
    }

    open spec fn neg_req(self) -> bool {
        true
    }

    open spec fn neg_spec(self) -> Fixed {
        fx_neg(self)
    }
}

/// `a + b` is `fx_add(a, b)`.
impl core::ops::Add for Fixed {
    type Output = Fixed;

    fn add(self, rhs: Fixed) -> (r: Fixed) {
        Fixed { raw: clamp_i128(self.raw as i128 + rhs.raw as i128) }
    }
}

impl vstd::std_specs::ops::AddSpecImpl for Fixed {
    open spec fn obeys_add_spec() -> bool {
        true
    }

    open spec fn add_req(self, rhs: Fixed) -> bool {
        true
    }

    open spec fn add_spec(self, rhs: Fixed) -> Fixed {
        fx_add(self, rhs)
    }
}

/// `a - b` is `fx_sub(a, b)`.
impl core::ops::Sub for Fixed {
    type Output = Fixed;

    fn sub(self, rhs: Fixed) -> (r: Fixed) {
        Fixed { raw: clamp_i128(self.raw as i128 - rhs.raw as i128) }
    }
}

impl vstd::std_specs::ops::SubSpecImpl for Fixed {
    open spec fn obeys_sub_spec() -> bool {
        true
    }

    open spec fn sub_req(self, rhs: Fixed) -> bool {
        true
    }

    open spec fn sub_spec(self, rhs: Fixed) -> Fixed {
        fx_sub(self, rhs)
    }
}

/// `a * b` is `fx_mul(a, b)`.
impl core::ops::Mul for Fixed {
    type Output = Fixed;

    fn mul(self, rhs: Fixed) -> (r: Fixed) {
        let a: i128 = self.raw as i128;
        let b: i128 = rhs.raw as i128;
        assert(-0x4000_0000_0000_0000_0000_0000_0000_0000 <= a * b
            <= 0x4000_0000_0000_0000_0000_0000_0000_0000) by (nonlinear_arith)
            requires
                -0x8000_0000_0000_0000 <= a <= 0x7fff_ffff_ffff_ffff,
                -0x8000_0000_0000_0000 <= b <= 0x7fff_ffff_ffff_ffff,
        ;
        Fixed { raw: clamp_i128((a * b) / 0x100_0000) }
    }
}

impl vstd::std_specs::ops::MulSpecImpl for Fixed {
    open spec fn obeys_mul_spec() -> bool {
        true
    }

    open spec fn mul_req(self, rhs: Fixed) -> bool {
        true
    }

    open spec fn mul_spec(self, rhs: Fixed) -> Fixed {
        fx_mul(self, rhs)
    }
}

/// `a / b` is `fx_div(a, b)`.
impl core::ops::Div for Fixed {
    type Output = Fixed;

    fn div(self, rhs: Fixed) -> (r: Fixed) {
        Fixed::from_ratio(self.raw, rhs.raw)
    }
}

impl vstd::std_specs::ops::DivSpecImpl for Fixed {
    open spec fn obeys_div_spec() -> bool {
        true
    }

    open spec fn div_req(self, rhs: Fixed) -> bool {
        true
    }

    open spec fn div_spec(self, rhs: Fixed) -> Fixed {
        fx_div(self, rhs)
    }
}

} // verus!
