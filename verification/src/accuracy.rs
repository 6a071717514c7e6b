//! How far rounding lets computed lengths drift from their exact values.

use crate::fixed::{
    fx, fx_max, fx_min, fx_mul, fx_neg, fx_sqrt, fx_sub, is_isqrt, isqrt,
    lemma_isqrt_exists, lemma_mul_commutes, lemma_mul_neg, lemma_mul_one, trunc_div, Fixed,
    ONE_RAW,
};
use crate::vec3::{
    fine, fine_length_spec, unit_component, dot_spec, length_spec, length_squared_spec, raw_sum_sq, reflect_spec, refract_spec, unit_spec,
    v_add, v_neg, v_scale, v_sub, Vec3,
};
use vstd::arithmetic::div_mod::{lemma_fundamental_div_mod, lemma_mod_bound};
use vstd::prelude::*;

verus! {

/// The sum of three squares.
pub open spec fn sum_sq(x: int, y: int, z: int) -> int {
    x * x + y * y + z * z
}

/// `q` is `x * s / l` rounded down, for non-negative `x`.
pub open spec fn is_scaled(x: int, q: int, s: int, l: int) -> bool {
    0 <= x && 0 <= q && q * l <= x * s < q * l + l
}

/// Squaring keeps the order of non-negative numbers.
pub proof fn lemma_square_le(a: int, b: int)
    requires
        0 <= a <= b,
    ensures
        a * a <= b * b,
{
    assert(a * a <= b * b) by (nonlinear_arith)
        requires
            0 <= a <= b,
    ;
}

/// Squaring keeps the strict order of non-negative numbers.
pub proof fn lemma_square_lt(a: int, b: int)
    requires
        0 <= a < b,
    ensures
        a * a < b * b,
{
    assert(a * a < b * b) by (nonlinear_arith)
        requires
            0 <= a < b,
    ;
}

/// Between the exact quotient and the quotient rounded towards zero lies
/// less than one divisor.
pub proof fn lemma_trunc_div_bounds(n: int, d: int)
    requires
        d > 0,
    ensures
        n >= 0 ==> 0 <= trunc_div(n, d) && trunc_div(n, d) * d <= n < trunc_div(n, d) * d + d,
        n <= 0 ==> trunc_div(n, d) <= 0 && trunc_div(n, d) * d - d < n <= trunc_div(n, d) * d,
{
    if n >= 0 {
        lemma_fundamental_div_mod(n, d);
        lemma_mod_bound(n, d);
        assert(d * (n / d) == (n / d) * d) by (nonlinear_arith);
        assert(n / d >= 0) by (nonlinear_arith)
            requires
                (n / d) * d + d > 0,
                d > 0,
        ;
    } else {
        lemma_fundamental_div_mod(-n, d);
        lemma_mod_bound(-n, d);
        assert(d * ((-n) / d) == ((-n) / d) * d) by (nonlinear_arith);
        assert((-n) / d >= 0) by (nonlinear_arith)
            requires
                ((-n) / d) * d + d > 0,
                d > 0,
        ;
        assert((-((-n) / d)) * d == -(((-n) / d) * d)) by (nonlinear_arith);
    }
}

/// The largest magnitude of a raw component for which the bounds of this
/// module are stated: `2^40`, that is `65536`.
pub open spec fn working_limit() -> int {
    0x100_0000_0000
}

/// Every component of `v` is at most `65536` in magnitude.
pub open spec fn within_working_range(v: Vec3) -> bool {
    &&& -working_limit() <= v.0@ <= working_limit()
    &&& -working_limit() <= v.1@ <= working_limit()
    &&& -working_limit() <= v.2@ <= working_limit()
}

/// The magnitude of `x`.
pub open spec fn abs(x: int) -> int {
    if x < 0 {
        -x
    } else {
        x
    }
}

/// The computed square of a number within the working range is the exact
/// square rounded down.
pub proof fn lemma_square_rounds_down(a: Fixed)
    requires
        -working_limit() <= a@ <= working_limit(),
    ensures
        0 <= fx_mul(a, a)@ <= 0x100_0000_0000_0000,
        fx_mul(a, a)@ * ONE_RAW <= a@ * a@ < fx_mul(a, a)@ * ONE_RAW + ONE_RAW,
{
    let x = a@;
    assert(0 <= x * x <= 0x1_0000_0000_0000_0000_0000) by (nonlinear_arith)
        requires
            -0x100_0000_0000 <= x <= 0x100_0000_0000,
    ;
    lemma_trunc_div_bounds(x * x, ONE_RAW as int);
}

/// The sums of squares of a vector and of its components scaled by `s / l`:
/// with `(p, q, r)` the components of `(x, y, z)` scaled and rounded down,
/// the sum of squares of the former, times `l^2`, lies at or just below the
/// sum of squares of the latter, times `s^2`.
proof fn lemma_scaled_squares(x: int, y: int, z: int, p: int, q: int, r: int, s: int, l: int)
    requires
        1 <= s,
        1 <= l,
        is_scaled(x, p, s, l),
        is_scaled(y, q, s, l),
        is_scaled(z, r, s, l),
    ensures
        sum_sq(p, q, r) * (l * l) <= (s * s) * sum_sq(x, y, z),
        (s * s) * sum_sq(x, y, z) < (sum_sq(p, q, r) + 2 * (p + q + r) + 3) * (l * l),
{
    lemma_square_le(p * l, x * s);
    lemma_square_le(q * l, y * s);
    lemma_square_le(r * l, z * s);
    lemma_square_lt(x * s, p * l + l);
    lemma_square_lt(y * s, q * l + l);
    lemma_square_lt(z * s, r * l + l);
    let ll = l * l;
    let ss = s * s;
    assert((p * l) * (p * l) == (p * p) * ll && (x * s) * (x * s) == ss * (x * x) && (p * l + l)
        * (p * l + l) == (p * p + 2 * p + 1) * ll) by (nonlinear_arith)
        requires
            ll == l * l,
            ss == s * s,
    ;
    assert((q * l) * (q * l) == (q * q) * ll && (y * s) * (y * s) == ss * (y * y) && (q * l + l)
        * (q * l + l) == (q * q + 2 * q + 1) * ll) by (nonlinear_arith)
        requires
            ll == l * l,
            ss == s * s,
    ;
    assert((r * l) * (r * l) == (r * r) * ll && (z * s) * (z * s) == ss * (z * z) && (r * l + l)
        * (r * l + l) == (r * r + 2 * r + 1) * ll) by (nonlinear_arith)
        requires
            ll == l * l,
            ss == s * s,
    ;
    assert(sum_sq(p, q, r) * ll == (p * p) * ll + (q * q) * ll + (r * r) * ll)
        by (nonlinear_arith);
    assert(ss * sum_sq(x, y, z) == ss * (x * x) + ss * (y * y) + ss * (z * z))
        by (nonlinear_arith);
    assert((sum_sq(p, q, r) + 2 * (p + q + r) + 3) * ll == (p * p + 2 * p + 1) * ll + (q * q + 2
        * q + 1) * ll + (r * r + 2 * r + 1) * ll) by (nonlinear_arith);
}

/// The sum of squares of a normalised vector: with `l` the rounded length
/// of `(x, y, z)`, at least `s / k`, and `(p, q, r)` the components scaled
/// by `s / l`, no scaled component exceeds `s`, and the sum of their squares
/// lies between `(s - 4)^2` and `s^2 + 2 s k`.
proof fn lemma_normalised_sum(
    x: int,
    y: int,
    z: int,
    p: int,
    q: int,
    r: int,
    s: int,
    l: int,
    k: int,
)
    requires
        16 <= s,
        1 <= l,
        1 <= k,
        s <= k * l,
        is_scaled(x, p, s, l),
        is_scaled(y, q, s, l),
        is_scaled(z, r, s, l),
        l * l <= sum_sq(x, y, z) < (l + 1) * (l + 1),
    ensures
        p <= s,
        q <= s,
        r <= s,
        (s - 4) * (s - 4) <= sum_sq(p, q, r) <= s * s + 2 * (s * k),
        s * s - 6 * s - 2 <= sum_sq(p, q, r),
{
    let a = sum_sq(x, y, z);
    let u = sum_sq(p, q, r);
    let ll = l * l;
    let ss = s * s;
    assert(ll >= 1 && ss >= 1) by (nonlinear_arith)
        requires
            ll == l * l,
            ss == s * s,
            l >= 1,
            s >= 1,
    ;
    assert(x * x >= 0 && y * y >= 0 && z * z >= 0) by (nonlinear_arith);
    // no component is longer than the vector
    if x >= l + 1 {
        lemma_square_le(l + 1, x);
    }
    if y >= l + 1 {
        lemma_square_le(l + 1, y);
    }
    if z >= l + 1 {
        lemma_square_le(l + 1, z);
    }
    assert(p <= s && q <= s && r <= s) by (nonlinear_arith)
        requires
            p * l <= x * s,
            q * l <= y * s,
            r * l <= z * s,
            0 <= x <= l,
            0 <= y <= l,
            0 <= z <= l,
            1 <= s,
            1 <= l,
    ;
    lemma_scaled_squares(x, y, z, p, q, r, s, l);
    // from above
    assert((l + 1) * (l + 1) == ll + 2 * l + 1) by (nonlinear_arith)
        requires
            ll == l * l,
    ;
    assert(ss * a <= ss * (ll + 2 * l)) by (nonlinear_arith)
        requires
            a <= ll + 2 * l,
            ss >= 0,
    ;
    assert(ss * (ll + 2 * l) == ss * ll + 2 * (ss * l)) by (nonlinear_arith);
    assert(ss * l <= (s * k) * ll) by (nonlinear_arith)
        requires
            ss == s * s,
            ll == l * l,
            s <= k * l,
            1 <= s,
            1 <= l,
    ;
    assert((ss + 2 * (s * k)) * ll == ss * ll + 2 * ((s * k) * ll)) by (nonlinear_arith);
    assert(u <= ss + 2 * (s * k)) by (nonlinear_arith)
        requires
            u * ll <= (ss + 2 * (s * k)) * ll,
            ll >= 1,
    ;
    // from below
    assert(ss * ll <= ss * a) by (nonlinear_arith)
        requires
            ll <= a,
            ss >= 0,
    ;
    let bound = u + 2 * (p + q + r) + 3;
    assert(ss < bound) by (nonlinear_arith)
        requires
            ss * ll < bound * ll,
            ll >= 1,
    ;
    assert((s - 4) * (s - 4) == ss - 8 * s + 16) by (nonlinear_arith)
        requires
            ss == s * s,
    ;
}

/// The largest magnitude of a raw component for which the length of a
/// vector is not saturated: `2^61`.
pub open spec fn reach_limit() -> int {
    0x2000_0000_0000_0000
}

/// No component of `v` is so large that the length of `v` saturates.
pub open spec fn within_reach(v: Vec3) -> bool {
    &&& -reach_limit() <= v.0@ <= reach_limit()
    &&& -reach_limit() <= v.1@ <= reach_limit()
    &&& -reach_limit() <= v.2@ <= reach_limit()
}

/// The length of a vector within reach is the exact root of the sum of its
/// squares, rounded down, and no component is longer than the vector.
pub proof fn lemma_length_is_exact_root(v: Vec3)
    requires
        within_reach(v),
    ensures
        is_isqrt(raw_sum_sq(v), length_spec(v)@),
        abs(v.0@) <= length_spec(v)@,
        abs(v.1@) <= length_spec(v)@,
        abs(v.2@) <= length_spec(v)@,
        raw_sum_sq(v) > 0 ==> length_spec(v)@ >= 1,
{
    let a = raw_sum_sq(v);
    let (x, y, z) = (abs(v.0@), abs(v.1@), abs(v.2@));
    assert(x * x == v.0@ * v.0@ && y * y == v.1@ * v.1@ && z * z == v.2@ * v.2@)
        by (nonlinear_arith)
        requires
            x == abs(v.0@),
            y == abs(v.1@),
            z == abs(v.2@),
    ;
    assert(0 <= x * x <= 0x400_0000_0000_0000_0000_0000_0000_0000 && 0 <= y * y
        <= 0x400_0000_0000_0000_0000_0000_0000_0000 && 0 <= z * z
        <= 0x400_0000_0000_0000_0000_0000_0000_0000) by (nonlinear_arith)
        requires
            0 <= x <= 0x2000_0000_0000_0000,
            0 <= y <= 0x2000_0000_0000_0000,
            0 <= z <= 0x2000_0000_0000_0000,
    ;
    lemma_isqrt_exists(a);
    let l = isqrt(a);
    assert(l < 0x4000_0000_0000_0000) by (nonlinear_arith)
        requires
            0 <= l,
            l * l <= a,
            a <= 0xc00_0000_0000_0000_0000_0000_0000_0000,
    ;
    assert(length_spec(v)@ == l);
    if x >= l + 1 {
        lemma_square_le(l + 1, x);
    }
    if y >= l + 1 {
        lemma_square_le(l + 1, y);
    }
    if z >= l + 1 {
        lemma_square_le(l + 1, z);
    }
    if a > 0 && l == 0 {
        assert((l + 1) * (l + 1) == 1) by (nonlinear_arith)
            requires
                l == 0,
        ;
    }
}

/// Each component of `u` is that of `v` divided by the refined length of
/// `v` and rounded towards zero: it has the sign of the component of `v`,
/// and its magnitude times the length is at most that of `v` and less than
/// one length short of it.
pub open spec fn points_along(u: Vec3, v: Vec3) -> bool {
    let l = fine_length_spec(v);
    &&& is_scaled(abs(v.0@) * fine(), abs(u.0@), ONE_RAW as int, l)
    &&& is_scaled(abs(v.1@) * fine(), abs(u.1@), ONE_RAW as int, l)
    &&& is_scaled(abs(v.2@) * fine(), abs(u.2@), ONE_RAW as int, l)
    &&& (v.0@ >= 0 ==> u.0@ >= 0) && (v.0@ <= 0 ==> u.0@ <= 0)
    &&& (v.1@ >= 0 ==> u.1@ >= 0) && (v.1@ <= 0 ==> u.1@ <= 0)
    &&& (v.2@ >= 0 ==> u.2@ >= 0) && (v.2@ <= 0 ==> u.2@ <= 0)
}

/// One component of a normalised vector is the exact quotient by the
/// refined length, rounded towards zero, and at most one in magnitude.
proof fn lemma_unit_component(x: Fixed, l: int)
    requires
        l >= 1,
        abs(x@) * fine() <= l,
    ensures
        is_scaled(abs(x@) * fine(), abs(unit_component(x, l)@), ONE_RAW as int, l),
        abs(unit_component(x, l)@) <= ONE_RAW,
        x@ >= 0 ==> unit_component(x, l)@ >= 0,
        x@ <= 0 ==> unit_component(x, l)@ <= 0,
{
    let s = ONE_RAW as int;
    let f = fine();
    let n = x@ * (ONE_RAW * fine());
    let q = trunc_div(n, l);
    lemma_trunc_div_bounds(n, l);
    assert(n == (x@ * f) * s && (abs(x@) * f) * s == abs(n)) by (nonlinear_arith)
        requires
            n == x@ * (s * f),
            s >= 1,
            f >= 1,
    ;
    assert((-q) * l == -(q * l)) by (nonlinear_arith);
    assert(x@ >= 0 ==> n >= 0) by (nonlinear_arith)
        requires
            n == x@ * (s * f),
            s >= 1,
            f >= 1,
    ;
    assert(x@ <= 0 ==> n <= 0) by (nonlinear_arith)
        requires
            n == x@ * (s * f),
            s >= 1,
            f >= 1,
    ;
    assert(is_scaled(abs(x@) * f, abs(q), s, l));
    assert(abs(q) <= s) by (nonlinear_arith)
        requires
            abs(q) * l <= (abs(x@) * f) * s,
            0 <= abs(x@) * f <= l,
            s > 0,
            l > 0,
            abs(q) >= 0,
    ;
    assert(unit_component(x, l)@ == q);
}

/// Normalising gives a vector of length one, up to the rounding of its
/// components: for every vector but the zero vector, no component of the
/// normalised vector exceeds one in magnitude, its length lies between
/// `1 - 4 ulp` and `1 + 1 ulp`, and its computed squared length between
/// `1 - 9 ulp` and `1 + 2 ulp`, where one ulp is `2^-24`.  The normalised
/// vector points along the vector: component by component it is the
/// quotient by the refined length, rounded towards zero.
#[verifier::rlimit(60)]
pub proof fn lemma_unit_vector_has_unit_length(v: Vec3)
    requires
        raw_sum_sq(v) > 0,
    ensures
        within_working_range(unit_spec(v)),
        abs(unit_spec(v).0@) <= ONE_RAW,
        abs(unit_spec(v).1@) <= ONE_RAW,
        abs(unit_spec(v).2@) <= ONE_RAW,
        ONE_RAW - 4 <= length_spec(unit_spec(v))@ <= ONE_RAW + 1,
        ONE_RAW - 9 <= length_squared_spec(unit_spec(v))@ <= ONE_RAW + 2,
        nearly_unit(unit_spec(v)),
        points_along(unit_spec(v), v),
{
    let s = ONE_RAW as int;
    let f = fine();
    let ff = f * f;
    let total = raw_sum_sq(v);
    let refined = total * ff;
    assert(refined >= ff) by (nonlinear_arith)
        requires
            refined == total * ff,
            total >= 1,
            ff >= 0,
    ;
    lemma_isqrt_exists(refined);
    let l = fine_length_spec(v);
    assert(l >= f) by (nonlinear_arith)
        requires
            refined < (l + 1) * (l + 1),
            refined >= f * f,
            l >= 0,
            f >= 0,
    ;
    let (x, y, z) = (abs(v.0@) * f, abs(v.1@) * f, abs(v.2@) * f);
    assert(x * x == (v.0@ * v.0@) * ff && y * y == (v.1@ * v.1@) * ff && z * z == (v.2@ * v.2@)
        * ff) by (nonlinear_arith)
        requires
            x == abs(v.0@) * f,
            y == abs(v.1@) * f,
            z == abs(v.2@) * f,
            ff == f * f,
    ;
    assert(total * ff == (v.0@ * v.0@) * ff + (v.1@ * v.1@) * ff + (v.2@ * v.2@) * ff)
        by (nonlinear_arith)
        requires
            total == v.0@ * v.0@ + v.1@ * v.1@ + v.2@ * v.2@,
    ;
    assert(sum_sq(x, y, z) == refined);
    assert(x * x >= 0 && y * y >= 0 && z * z >= 0 && x >= 0 && y >= 0 && z >= 0)
        by (nonlinear_arith)
        requires
            x == abs(v.0@) * f,
            y == abs(v.1@) * f,
            z == abs(v.2@) * f,
            f >= 0,
    ;
    if x >= l + 1 {
        lemma_square_le(l + 1, x);
    }
    if y >= l + 1 {
        lemma_square_le(l + 1, y);
    }
    if z >= l + 1 {
        lemma_square_le(l + 1, z);
    }
    lemma_unit_component(v.0, l);
    lemma_unit_component(v.1, l);
    lemma_unit_component(v.2, l);
    let u = unit_spec(v);
    let (p, q, r) = (abs(u.0@), abs(u.1@), abs(u.2@));
    assert(p * p == u.0@ * u.0@ && q * q == u.1@ * u.1@ && r * r == u.2@ * u.2@)
        by (nonlinear_arith)
        requires
            p == abs(u.0@),
            q == abs(u.1@),
            r == abs(u.2@),
    ;
    lemma_normalised_sum(x, y, z, p, q, r, s, l, 1);
    let total_u = sum_sq(p, q, r);
    assert(raw_sum_sq(u) == total_u);
    // the length of the normalised vector
    lemma_length_is_exact_root(u);
    let m = length_spec(u)@;
    assert((s + 2) * (s + 2) == s * s + 4 * s + 4 && s * 1 == s) by (nonlinear_arith);
    if m >= s + 2 {
        lemma_square_le(s + 2, m);
    }
    if m + 1 <= s - 4 {
        lemma_square_le(m + 1, s - 4);
    }
    // its computed squared length
    lemma_square_rounds_down(u.0);
    lemma_square_rounds_down(u.1);
    lemma_square_rounds_down(u.2);
    let n = length_squared_spec(u)@;
    assert(n == fx_mul(u.0, u.0)@ + fx_mul(u.1, u.1)@ + fx_mul(u.2, u.2)@);
    assert(n <= s + 2) by (nonlinear_arith)
        requires
            n * s <= s * s + 2 * s,
            s >= 1,
    ;
    assert(n >= s - 9) by (nonlinear_arith)
        requires
            n * s + 3 * s > s * s - 6 * s - 2,
            s >= 16,
    ;
}

/// A product is bounded by the product of the bounds of its factors.
pub proof fn lemma_product_bound(a: int, b: int, ba: int, bb: int)
    requires
        -ba <= a <= ba,
        -bb <= b <= bb,
    ensures
        -(ba * bb) <= a * b <= ba * bb,
{
    assert(-(ba * bb) <= a * b <= ba * bb) by (nonlinear_arith)
        requires
            -ba <= a <= ba,
            -bb <= b <= bb,
    {
        assert((ba - a) * (bb - b) >= 0);
        assert((ba + a) * (bb + b) >= 0);
        assert((ba - a) * (bb + b) >= 0);
        assert((ba + a) * (bb - b) >= 0);
    }
}

/// Twice a product is at most the sum of the squares, in magnitude.
proof fn lemma_product_below_squares(a: int, b: int)
    ensures
        -(a * a + b * b) <= 2 * (a * b) <= a * a + b * b,
{
    assert(-(a * a + b * b) <= 2 * (a * b) <= a * a + b * b) by (nonlinear_arith) {
        assert((a - b) * (a - b) >= 0);
        assert((a + b) * (a + b) >= 0);
    }
}

/// A number whose square is at most `s^2 + 19 s` is at most `s + 9` in
/// magnitude.
proof fn lemma_root_bound(x: int, s: int)
    requires
        s >= 1,
        x * x <= s * s + 19 * s,
    ensures
        -(s + 9) <= x <= s + 9,
{
    assert((s + 10) * (s + 10) == s * s + 20 * s + 100) by (nonlinear_arith);
    if x >= s + 10 {
        lemma_square_le(s + 10, x);
    }
    if -x >= s + 10 {
        lemma_square_le(s + 10, -x);
        assert((-x) * (-x) == x * x) by (nonlinear_arith);
    }
}

/// One component of a vector moved along a normal, scaled by `s`: with `w`
/// the rounded `k n / s` and `r = v - w`, the square of `s r` exceeds that
/// of `s v` by `k^2 n^2 - 2 s k (v n) + 2 y e + e^2`, where `y = s v - k n`
/// is the exact scaled component and `e` the rounding error, and
/// `2 y e + e^2` is at most `9 s^3` in magnitude.
proof fn lemma_moved_component(v: int, n: int, k: int, w: int, s: int) -> (err: int)
    requires
        s >= 1024,
        -s < k * n - s * w < s,
        -(s + 9) <= v <= s + 9,
        -(s + 9) <= n <= s + 9,
        -(2 * s + 42) <= k <= 2 * s + 42,
    ensures
        s * s * ((v - w) * (v - w)) - s * s * (v * v) == (k * k) * (n * n) - 2 * ((s * k) * (v
            * n)) + err,
        -9 * (s * s * s) <= err <= 9 * (s * s * s),
{
    let a = s * v;
    let b = k * n;
    let e = b - s * w;
    let y = a - b;
    let r = v - w;
    assert(s * r == y + e) by (nonlinear_arith)
        requires
            r == v - w,
            e == b - s * w,
            y == s * v - b,
    ;
    assert(s * s * (r * r) == (s * r) * (s * r)) by (nonlinear_arith);
    assert((y + e) * (y + e) == y * y + 2 * (y * e) + e * e) by (nonlinear_arith);
    assert(y * y == a * a - 2 * (a * b) + b * b) by (nonlinear_arith)
        requires
            y == a - b,
    ;
    assert(a * a == s * s * (v * v)) by (nonlinear_arith)
        requires
            a == s * v,
    ;
    assert(a * b == (s * k) * (v * n)) by (nonlinear_arith)
        requires
            a == s * v,
            b == k * n,
    ;
    assert(b * b == (k * k) * (n * n)) by (nonlinear_arith)
        requires
            b == k * n,
    ;
    let err = 2 * (y * e) + e * e;
    // |y| <= s (s + 9) + (2 s + 42) (s + 9) <= 4 s^2
    lemma_product_bound(s, v, s, s + 9);
    lemma_product_bound(k, n, 2 * s + 42, s + 9);
    let bound_sv = s * (s + 9);
    let bound_kn = (2 * s + 42) * (s + 9);
    assert(bound_sv + bound_kn <= 4 * (s * s)) by (nonlinear_arith)
        requires
            bound_sv == s * (s + 9),
            bound_kn == (2 * s + 42) * (s + 9),
            s >= 1024,
    ;
    let lim = 4 * (s * s);
    assert(-lim <= y <= lim) by {
        assert(y == a - b);
        assert(-bound_sv <= a <= bound_sv);
        assert(-bound_kn <= b <= bound_kn);
    }
    lemma_product_bound(y, e, lim, s);
    lemma_product_bound(e, e, s, s);
    assert(lim * s == 4 * (s * s * s)) by (nonlinear_arith)
        requires
            lim == 4 * (s * s),
    ;
    assert(s * s <= s * s * s) by (nonlinear_arith)
        requires
            s >= 1,
    ;
    err
}

/// The rounded product `d` of two vectors of nearly unit length is at most
/// `s + 21` in magnitude.
proof fn lemma_dot_bound(
    v0: int,
    v1: int,
    v2: int,
    n0: int,
    n1: int,
    n2: int,
    m0: int,
    m1: int,
    m2: int,
    s: int,
)
    requires
        s >= 1,
        -s < v0 * n0 - s * m0 < s,
        -s < v1 * n1 - s * m1 < s,
        -s < v2 * n2 - s * m2 < s,
        sum_sq(v0, v1, v2) <= s * s + 19 * s,
        sum_sq(n0, n1, n2) <= s * s + 19 * s,
    ensures
        -(s + 21) <= m0 + m1 + m2 <= s + 21,
        -3 * s < v0 * n0 + v1 * n1 + v2 * n2 - s * (m0 + m1 + m2) < 3 * s,
{
    let d = m0 + m1 + m2;
    let t = v0 * n0 + v1 * n1 + v2 * n2;
    assert(s * d == s * m0 + s * m1 + s * m2) by (nonlinear_arith)
        requires
            d == m0 + m1 + m2,
    ;
    lemma_product_below_squares(v0, n0);
    lemma_product_below_squares(v1, n1);
    lemma_product_below_squares(v2, n2);
    assert(-(s * s + 19 * s) <= t <= s * s + 19 * s);
    assert(-(s + 21) <= d <= s + 21) by (nonlinear_arith)
        requires
            -(s * s + 22 * s) < s * d < s * s + 22 * s,
            s >= 1,
    ;
}

/// Reflection about a unit normal keeps the sum of squares, up to rounding:
/// with `d` the rounded product `v . n / s`, `w` the rounded `2 d n / s` and
/// `r = v - w`, the sums of squares of `r` and of `v` differ by at most
/// `123 s`.
proof fn lemma_reflected_sum(
    v0: int,
    v1: int,
    v2: int,
    n0: int,
    n1: int,
    n2: int,
    m0: int,
    m1: int,
    m2: int,
    w0: int,
    w1: int,
    w2: int,
    s: int,
)
    requires
        s >= 1024,
        -s < v0 * n0 - s * m0 < s,
        -s < v1 * n1 - s * m1 < s,
        -s < v2 * n2 - s * m2 < s,
        -s < (2 * (m0 + m1 + m2)) * n0 - s * w0 < s,
        -s < (2 * (m0 + m1 + m2)) * n1 - s * w1 < s,
        -s < (2 * (m0 + m1 + m2)) * n2 - s * w2 < s,
        sum_sq(v0, v1, v2) <= s * s + 19 * s,
        s * s - 19 * s <= sum_sq(n0, n1, n2) <= s * s + 19 * s,
    ensures
        -123 * s <= sum_sq(v0 - w0, v1 - w1, v2 - w2) - sum_sq(v0, v1, v2) <= 123 * s,
{
    let d = m0 + m1 + m2;
    let t = v0 * n0 + v1 * n1 + v2 * n2;
    let rho = t - s * d;
    let eta = sum_sq(n0, n1, n2) - s * s;
    lemma_dot_bound(v0, v1, v2, n0, n1, n2, m0, m1, m2, s);
    assert(-3 * s < rho < 3 * s);
    assert(v0 * v0 >= 0 && v1 * v1 >= 0 && v2 * v2 >= 0 && n0 * n0 >= 0 && n1 * n1 >= 0 && n2 * n2
        >= 0) by (nonlinear_arith);
    lemma_root_bound(v0, s);
    lemma_root_bound(v1, s);
    lemma_root_bound(v2, s);
    lemma_root_bound(n0, s);
    lemma_root_bound(n1, s);
    lemma_root_bound(n2, s);
    let k = 2 * d;
    let err0 = lemma_moved_component(v0, n0, k, w0, s);
    let err1 = lemma_moved_component(v1, n1, k, w1, s);
    let err2 = lemma_moved_component(v2, n2, k, w2, s);
    let sd = s * d;
    let dd = d * d;
    let sk = s * k;
    let kk = k * k;
    let s3 = s * s * s;
    let delta = sum_sq(v0 - w0, v1 - w1, v2 - w2) - sum_sq(v0, v1, v2);
    assert(s * s * delta == s * s * ((v0 - w0) * (v0 - w0)) - s * s * (v0 * v0) + (s * s * ((v1
        - w1) * (v1 - w1)) - s * s * (v1 * v1)) + (s * s * ((v2 - w2) * (v2 - w2)) - s * s * (v2
        * v2))) by (nonlinear_arith)
        requires
            delta == (v0 - w0) * (v0 - w0) + (v1 - w1) * (v1 - w1) + (v2 - w2) * (v2 - w2) - (v0
                * v0 + v1 * v1 + v2 * v2),
    ;
    assert(sk * (v0 * n0) + sk * (v1 * n1) + sk * (v2 * n2) == sk * t) by (nonlinear_arith)
        requires
            t == v0 * n0 + v1 * n1 + v2 * n2,
    ;
    assert(kk * (n0 * n0) + kk * (n1 * n1) + kk * (n2 * n2) == kk * (s * s + eta))
        by (nonlinear_arith)
        requires
            s * s + eta == n0 * n0 + n1 * n1 + n2 * n2,
    ;
    assert(sk == 2 * sd && kk == 4 * dd) by (nonlinear_arith)
        requires
            k == 2 * d,
            sk == s * k,
            kk == k * k,
            sd == s * d,
            dd == d * d,
    ;
    assert(sd * t == dd * (s * s) + sd * rho) by (nonlinear_arith)
        requires
            t == s * d + rho,
            sd == s * d,
            dd == d * d,
    ;
    assert(dd * (s * s + eta) == dd * (s * s) + dd * eta) by (nonlinear_arith);
    assert(sk * t == 2 * (sd * t) && kk * (s * s + eta) == 4 * (dd * (s * s + eta)))
        by (nonlinear_arith)
        requires
            sk == 2 * sd,
            kk == 4 * dd,
    ;
    assert(s * s * delta == -4 * (sd * rho) + 4 * (dd * eta) + err0 + err1 + err2);
    // bounds on the two remaining terms
    lemma_product_bound(s, d, s, s + 21);
    lemma_product_bound(sd, rho, s * (s + 21), 3 * s);
    lemma_product_bound(d, d, s + 21, s + 21);
    lemma_product_bound(dd, eta, (s + 21) * (s + 21), 19 * s);
    assert((s * (s + 21)) * (3 * s) <= 4 * s3 && ((s + 21) * (s + 21)) * (19 * s) <= 20 * s3)
        by (nonlinear_arith)
        requires
            s3 == s * s * s,
            s >= 1024,
    ;
    // 4 * 4 + 4 * 20 + 3 * 9 = 123
    assert(-123 * s3 <= s * s * delta <= 123 * s3);
    assert(-123 * s <= delta <= 123 * s) by (nonlinear_arith)
        requires
            -123 * s3 <= s * s * delta <= 123 * s3,
            s3 == s * s * s,
            s >= 1,
    ;
}

/// The computed product of two numbers within the working range differs
/// from the exact product by less than one unit of the last place.
pub proof fn lemma_product_rounds_to_zero(a: Fixed, b: Fixed)
    requires
        -working_limit() <= a@ <= working_limit(),
        -working_limit() <= b@ <= working_limit(),
    ensures
        -ONE_RAW < a@ * b@ - ONE_RAW * fx_mul(a, b)@ < ONE_RAW,
        -0x100_0000_0000_0000 <= fx_mul(a, b)@ <= 0x100_0000_0000_0000,
{
    let s = ONE_RAW as int;
    let n = a@ * b@;
    lemma_product_bound(a@, b@, working_limit(), working_limit());
    lemma_trunc_div_bounds(n, s);
    let q = trunc_div(n, s);
    assert(s * q == q * s) by (nonlinear_arith);
    assert(-0x100_0000_0000_0000 <= q <= 0x100_0000_0000_0000) by (nonlinear_arith)
        requires
            -s < n - q * s < s,
            -0x1_0000_0000_0000_0000_0000 <= n <= 0x1_0000_0000_0000_0000_0000,
            s == 0x100_0000,
    ;
}

/// The vector is of length one within sixteen units of the last place, as
/// the normalisation of every vector at least an eighth long is.
pub open spec fn nearly_unit(v: Vec3) -> bool {
    &&& within_working_range(v)
    &&& ONE_RAW - 16 <= length_squared_spec(v)@ <= ONE_RAW + 16
}

/// The sum of the exact squares of the components of a vector of nearly
/// unit length.
proof fn lemma_nearly_unit_sum(v: Vec3)
    requires
        nearly_unit(v),
    ensures
        ONE_RAW * ONE_RAW - 19 * ONE_RAW <= sum_sq(v.0@, v.1@, v.2@) <= ONE_RAW * ONE_RAW + 19
            * ONE_RAW,
        length_squared_spec(v)@ * ONE_RAW <= sum_sq(v.0@, v.1@, v.2@) < length_squared_spec(v)@
            * ONE_RAW + 3 * ONE_RAW,
{
    lemma_square_rounds_down(v.0);
    lemma_square_rounds_down(v.1);
    lemma_square_rounds_down(v.2);
    let n = length_squared_spec(v)@;
    assert(n == fx_mul(v.0, v.0)@ + fx_mul(v.1, v.1)@ + fx_mul(v.2, v.2)@);
}

/// Reflection preserves length, up to rounding: about a normal of nearly
/// unit length, the computed squared length of the mirror image of a vector
/// of nearly unit length differs from that of the vector by at most 128
/// units of the last place, that is by less than `0.00001`.
#[verifier::rlimit(60)]
pub proof fn lemma_reflect_keeps_length(v: Vec3, n: Vec3)
    requires
        nearly_unit(v),
        nearly_unit(n),
    ensures
        -128 <= length_squared_spec(reflect_spec(v, n))@ - length_squared_spec(v)@ <= 128,
{
    let s = ONE_RAW as int;
    lemma_nearly_unit_sum(v);
    lemma_nearly_unit_sum(n);
    lemma_product_rounds_to_zero(v.0, n.0);
    lemma_product_rounds_to_zero(v.1, n.1);
    lemma_product_rounds_to_zero(v.2, n.2);
    let m0 = fx_mul(v.0, n.0)@;
    let m1 = fx_mul(v.1, n.1)@;
    let m2 = fx_mul(v.2, n.2)@;
    let dot = dot_spec(v, n);
    let d = m0 + m1 + m2;
    lemma_dot_bound(v.0@, v.1@, v.2@, n.0@, n.1@, n.2@, m0, m1, m2, s);
    assert(dot@ == d);
    // twice the product is exact
    let two = fx(2 * ONE_RAW);
    let k = fx_mul(two, dot);
    lemma_product_rounds_to_zero(two, dot);
    assert(k@ == 2 * d) by (nonlinear_arith)
        requires
            -s < (2 * s) * d - s * k@ < s,
            s > 0,
    ;
    lemma_product_rounds_to_zero(n.0, k);
    lemma_product_rounds_to_zero(n.1, k);
    lemma_product_rounds_to_zero(n.2, k);
    let w = v_scale(n, k);
    assert(n.0@ * k@ == (2 * d) * n.0@ && n.1@ * k@ == (2 * d) * n.1@ && n.2@ * k@ == (2 * d)
        * n.2@) by (nonlinear_arith)
        requires
            k@ == 2 * d,
    ;
    lemma_reflected_sum(
        v.0@,
        v.1@,
        v.2@,
        n.0@,
        n.1@,
        n.2@,
        m0,
        m1,
        m2,
        w.0@,
        w.1@,
        w.2@,
        s,
    );
    // the components stay small
    assert(n.0@ * n.0@ >= 0 && n.1@ * n.1@ >= 0 && n.2@ * n.2@ >= 0) by (nonlinear_arith);
    assert(v.0@ * v.0@ >= 0 && v.1@ * v.1@ >= 0 && v.2@ * v.2@ >= 0) by (nonlinear_arith);
    lemma_root_bound(n.0@, s);
    lemma_root_bound(n.1@, s);
    lemma_root_bound(n.2@, s);
    lemma_root_bound(v.0@, s);
    lemma_root_bound(v.1@, s);
    lemma_root_bound(v.2@, s);
    lemma_product_bound(n.0@, k@, s + 9, 2 * s + 42);
    lemma_product_bound(n.1@, k@, s + 9, 2 * s + 42);
    lemma_product_bound(n.2@, k@, s + 9, 2 * s + 42);
    assert((s + 9) * (2 * s + 42) <= 3 * (s * s)) by (nonlinear_arith)
        requires
            s >= 1024,
    ;
    assert(-4 * s <= w.0@ <= 4 * s && -4 * s <= w.1@ <= 4 * s && -4 * s <= w.2@ <= 4 * s)
        by (nonlinear_arith)
        requires
            -s < n.0@ * k@ - s * w.0@ < s,
            -s < n.1@ * k@ - s * w.1@ < s,
            -s < n.2@ * k@ - s * w.2@ < s,
            -(3 * (s * s)) <= n.0@ * k@ <= 3 * (s * s),
            -(3 * (s * s)) <= n.1@ * k@ <= 3 * (s * s),
            -(3 * (s * s)) <= n.2@ * k@ <= 3 * (s * s),
            s >= 1,
    ;
    let r = reflect_spec(v, n);
    assert(r == v_sub(v, w));
    assert(r.0@ == v.0@ - w.0@ && r.1@ == v.1@ - w.1@ && r.2@ == v.2@ - w.2@);
    lemma_square_rounds_down(r.0);
    lemma_square_rounds_down(r.1);
    lemma_square_rounds_down(r.2);
    let after = length_squared_spec(r)@;
    assert(after == fx_mul(r.0, r.0)@ + fx_mul(r.1, r.1)@ + fx_mul(r.2, r.2)@);
    let before = length_squared_spec(v)@;
    assert(after * s <= sum_sq(r.0@, r.1@, r.2@) < after * s + 3 * s);
    assert(-126 * s < after * s - before * s < 126 * s);
    assert(-126 < after - before < 126) by (nonlinear_arith)
        requires
            -126 * s < after * s - before * s < 126 * s,
            s > 0,
    ;
}

/// The part of a refracted vector across the normal: for vectors `u` and
/// `n` of nearly unit length whose rounded product is `-c0`, with `c` the
/// smaller of `c0` and `s` and `g` the rounded `c n / s`, the sum of squares
/// of `u + g` lies close to `s^2 - c^2`.
proof fn lemma_perpendicular_sum(
    u0: int,
    u1: int,
    u2: int,
    n0: int,
    n1: int,
    n2: int,
    m0: int,
    m1: int,
    m2: int,
    g0: int,
    g1: int,
    g2: int,
    c: int,
    s: int,
)
    requires
        s >= 1024,
        -s < u0 * n0 - s * m0 < s,
        -s < u1 * n1 - s * m1 < s,
        -s < u2 * n2 - s * m2 < s,
        0 <= c <= s,
        c == -(m0 + m1 + m2) || (c == s && s <= -(m0 + m1 + m2)),
        -s < c * n0 - s * g0 < s,
        -s < c * n1 - s * g1 < s,
        -s < c * n2 - s * g2 < s,
        s * s - 19 * s <= sum_sq(u0, u1, u2) <= s * s + 19 * s,
        s * s - 19 * s <= sum_sq(n0, n1, n2) <= s * s + 19 * s,
    ensures
        s * s - c * c - 113 * s <= sum_sq(u0 + g0, u1 + g1, u2 + g2) <= s * s - c * c + 71 * s,
{
    let d = m0 + m1 + m2;
    let c0 = -d;
    let t = u0 * n0 + u1 * n1 + u2 * n2;
    let rho = t - s * d;
    let eta = sum_sq(n0, n1, n2) - s * s;
    lemma_dot_bound(u0, u1, u2, n0, n1, n2, m0, m1, m2, s);
    assert(u0 * u0 >= 0 && u1 * u1 >= 0 && u2 * u2 >= 0 && n0 * n0 >= 0 && n1 * n1 >= 0 && n2 * n2
        >= 0) by (nonlinear_arith);
    lemma_root_bound(u0, s);
    lemma_root_bound(u1, s);
    lemma_root_bound(u2, s);
    lemma_root_bound(n0, s);
    lemma_root_bound(n1, s);
    lemma_root_bound(n2, s);
    let k = -c;
    assert(k * n0 - s * (-g0) == -(c * n0 - s * g0) && k * n1 - s * (-g1) == -(c * n1 - s * g1)
        && k * n2 - s * (-g2) == -(c * n2 - s * g2)) by (nonlinear_arith)
        requires
            k == -c,
    ;
    let err0 = lemma_moved_component(u0, n0, k, -g0, s);
    let err1 = lemma_moved_component(u1, n1, k, -g1, s);
    let err2 = lemma_moved_component(u2, n2, k, -g2, s);
    let sc = s * c;
    let cc = c * c;
    let ss = s * s;
    let s3 = s * s * s;
    let sk = s * k;
    let kk = k * k;
    let after = sum_sq(u0 + g0, u1 + g1, u2 + g2);
    let before = sum_sq(u0, u1, u2);
    assert(u0 - (-g0) == u0 + g0 && u1 - (-g1) == u1 + g1 && u2 - (-g2) == u2 + g2);
    assert(ss * (after - before) == s * s * ((u0 + g0) * (u0 + g0)) - s * s * (u0 * u0) + (s * s
        * ((u1 + g1) * (u1 + g1)) - s * s * (u1 * u1)) + (s * s * ((u2 + g2) * (u2 + g2)) - s
        * s * (u2 * u2))) by (nonlinear_arith)
        requires
            ss == s * s,
            after == (u0 + g0) * (u0 + g0) + (u1 + g1) * (u1 + g1) + (u2 + g2) * (u2 + g2),
            before == u0 * u0 + u1 * u1 + u2 * u2,
    ;
    assert(sk * (u0 * n0) + sk * (u1 * n1) + sk * (u2 * n2) == sk * t) by (nonlinear_arith)
        requires
            t == u0 * n0 + u1 * n1 + u2 * n2,
    ;
    assert(kk * (n0 * n0) + kk * (n1 * n1) + kk * (n2 * n2) == kk * (ss + eta))
        by (nonlinear_arith)
        requires
            ss + eta == n0 * n0 + n1 * n1 + n2 * n2,
    ;
    assert(ss * (after - before) == kk * (ss + eta) - 2 * (sk * t) + err0 + err1 + err2);
    assert(kk == cc && sk == -sc) by (nonlinear_arith)
        requires
            k == -c,
            kk == k * k,
            sk == s * k,
            cc == c * c,
            sc == s * c,
    ;
    assert(cc * (ss + eta) == ss * cc + cc * eta) by (nonlinear_arith);
    assert(sc * t == sc * rho - ss * (c * c0)) by (nonlinear_arith)
        requires
            t == s * d + rho,
            sc == s * c,
            ss == s * s,
            c0 == -d,
    ;
    let excess = 2 * (c * c0) - cc;
    assert(sk * t == -(sc * t)) by (nonlinear_arith)
        requires
            sk == -sc,
    ;
    assert(ss * excess == 2 * (ss * (c * c0)) - ss * cc) by (nonlinear_arith)
        requires
            excess == 2 * (c * c0) - cc,
    ;
    assert(ss * (after - before + excess) == ss * (after - before) + ss * excess)
        by (nonlinear_arith);
    assert(ss * (after - before + excess) == cc * eta + 2 * (sc * rho) + err0 + err1 + err2);
    lemma_product_bound(c, c, s, s);
    lemma_product_bound(cc, eta, ss, 19 * s);
    lemma_product_bound(s, c, s, s);
    lemma_product_bound(sc, rho, ss, 3 * s);
    assert(ss * (19 * s) == 19 * s3 && ss * (3 * s) == 3 * s3) by (nonlinear_arith)
        requires
            ss == s * s,
            s3 == s * s * s,
    ;
    // 19 + 2 * 3 + 3 * 9 = 52
    let rest = after - before + excess;
    assert(-52 * s3 <= ss * rest <= 52 * s3);
    assert(-52 * s <= rest <= 52 * s) by (nonlinear_arith)
        requires
            -52 * s3 <= ss * rest <= 52 * s3,
            ss == s * s,
            s3 == s * s * s,
            s >= 1,
    ;
    // the excess is c^2 where the product is not capped, and little more where it is
    if c == c0 {
        assert(excess == cc);
    } else {
        assert(c * c0 == s * c0 && cc == s * s);
        assert(s * s <= s * c0 <= s * s + 21 * s) by (nonlinear_arith)
            requires
                s <= c0 <= s + 21,
                s >= 1,
        ;
    }
    assert(cc <= excess <= cc + 42 * s);
}

/// A root found for a number close to `c^2` is close to `c`.
proof fn lemma_root_near(c: int, q: int, x: int, lo: int, hi: int, b: int)
    requires
        0 <= c,
        0 <= q,
        q * q <= x < (q + 1) * (q + 1),
        c * c - lo <= x < c * c + hi,
        0 <= b,
        lo <= b * b,
        hi <= b * b,
    ensures
        -b <= c - q <= b,
{
    if q >= c + b + 1 {
        assert(q * q >= c * c + b * b) by (nonlinear_arith)
            requires
                q >= c + b + 1,
                c >= 0,
                b >= 0,
        ;
    }
    if c >= q + b + 1 {
        assert(c * c >= (q + 1) * (q + 1) + b * b) by (nonlinear_arith)
            requires
                c >= q + 1 + b,
                q >= 0,
                b >= 0,
        ;
    }
}

/// Two rounded multiples `g` and `h` of one component `n`, by factors `c`
/// and `q` that differ by at most `b`, differ by at most `b + 3`.
proof fn lemma_close_multiples(n: int, c: int, q: int, g: int, h: int, s: int, b: int)
    requires
        s >= 1,
        -s < c * n - s * g < s,
        -s < q * n - s * h < s,
        -(s + 9) <= n <= s + 9,
        -b <= c - q <= b,
        0 <= 9 * b <= s,
    ensures
        -(b + 3) <= g - h <= b + 3,
{
    assert(c * n - q * n == (c - q) * n) by (nonlinear_arith);
    lemma_product_bound(c - q, n, b, s + 9);
    assert(b * (s + 9) == b * s + 9 * b) by (nonlinear_arith);
    assert(s * (g - h) == s * g - s * h) by (nonlinear_arith);
    assert(-(b + 3) <= g - h <= b + 3) by (nonlinear_arith)
        requires
            -(b * s + 3 * s) < s * (g - h) < b * s + 3 * s,
            s >= 1,
    ;
}

/// The largest difference, in units of the last place, between a component
/// of a unit vector and the same component after refraction between equal
/// media: `11 * 2^12 + 3`, that is less than `0.0027`.
pub open spec fn straight_tolerance() -> int {
    45059
}

/// Every component of `r` is within the tolerance of that of `u`.
pub open spec fn nearly_equal(r: Vec3, u: Vec3) -> bool {
    &&& -straight_tolerance() <= r.0@ - u.0@ <= straight_tolerance()
    &&& -straight_tolerance() <= r.1@ - u.1@ <= straight_tolerance()
    &&& -straight_tolerance() <= r.2@ - u.2@ <= straight_tolerance()
}

/// Refraction between media of equal refractive index leaves the direction
/// as it is, up to rounding: for a direction and a normal of nearly unit
/// length, the normal not pointing along the direction, each component of
/// the refracted direction is within the tolerance of that of the incoming
/// one.  The tolerance is the root of the rounding error of the squared
/// length, which the square root under the parallel part brings out.
#[verifier::rlimit(60)]
pub proof fn lemma_refraction_at_equal_indices(u: Vec3, n: Vec3)
    requires
        nearly_unit(u),
        nearly_unit(n),
        dot_spec(v_neg(u), n)@ >= 0,
    ensures
        nearly_equal(refract_spec(u, n, fx(ONE_RAW as int)), u),
{
    let s = ONE_RAW as int;
    let one = fx(ONE_RAW as int);
    lemma_nearly_unit_sum(u);
    lemma_nearly_unit_sum(n);
    assert(u.0@ * u.0@ >= 0 && u.1@ * u.1@ >= 0 && u.2@ * u.2@ >= 0 && n.0@ * n.0@ >= 0 && n.1@
        * n.1@ >= 0 && n.2@ * n.2@ >= 0) by (nonlinear_arith);
    lemma_root_bound(u.0@, s);
    lemma_root_bound(u.1@, s);
    lemma_root_bound(u.2@, s);
    lemma_root_bound(n.0@, s);
    lemma_root_bound(n.1@, s);
    lemma_root_bound(n.2@, s);
    // the cosine: the negative of the product of direction and normal
    lemma_product_rounds_to_zero(u.0, n.0);
    lemma_product_rounds_to_zero(u.1, n.1);
    lemma_product_rounds_to_zero(u.2, n.2);
    let m0 = fx_mul(u.0, n.0)@;
    let m1 = fx_mul(u.1, n.1)@;
    let m2 = fx_mul(u.2, n.2)@;
    lemma_dot_bound(u.0@, u.1@, u.2@, n.0@, n.1@, n.2@, m0, m1, m2, s);
    let nu = v_neg(u);
    lemma_mul_commutes(nu.0, n.0);
    lemma_mul_commutes(nu.1, n.1);
    lemma_mul_commutes(nu.2, n.2);
    lemma_mul_neg(n.0, u.0);
    lemma_mul_neg(n.1, u.1);
    lemma_mul_neg(n.2, u.2);
    lemma_mul_commutes(n.0, u.0);
    lemma_mul_commutes(n.1, u.1);
    lemma_mul_commutes(n.2, u.2);
    let c0 = dot_spec(nu, n);
    assert(c0@ == -(m0 + m1 + m2));
    let c = fx_min(c0, one);
    assert(0 <= c@ <= s);
    // the part across the normal
    lemma_product_rounds_to_zero(n.0, c);
    lemma_product_rounds_to_zero(n.1, c);
    lemma_product_rounds_to_zero(n.2, c);
    let g = v_scale(n, c);
    assert(c@ * n.0@ == n.0@ * c@ && c@ * n.1@ == n.1@ * c@ && c@ * n.2@ == n.2@ * c@)
        by (nonlinear_arith);
    lemma_product_bound(n.0@, c@, s + 9, s);
    lemma_product_bound(n.1@, c@, s + 9, s);
    lemma_product_bound(n.2@, c@, s + 9, s);
    assert((s + 9) * s == s * s + 9 * s) by (nonlinear_arith);
    assert(-(s + 10) <= g.0@ <= s + 10 && -(s + 10) <= g.1@ <= s + 10 && -(s + 10) <= g.2@ <= s
        + 10) by (nonlinear_arith)
        requires
            -s < n.0@ * c@ - s * g.0@ < s,
            -s < n.1@ * c@ - s * g.1@ < s,
            -s < n.2@ * c@ - s * g.2@ < s,
            -(s * s + 9 * s) <= n.0@ * c@ <= s * s + 9 * s,
            -(s * s + 9 * s) <= n.1@ * c@ <= s * s + 9 * s,
            -(s * s + 9 * s) <= n.2@ * c@ <= s * s + 9 * s,
            s >= 1,
    ;
    let inner = v_add(u, g);
    assert(inner.0@ == u.0@ + g.0@ && inner.1@ == u.1@ + g.1@ && inner.2@ == u.2@ + g.2@);
    lemma_mul_one(inner.0);
    lemma_mul_one(inner.1);
    lemma_mul_one(inner.2);
    let perp = v_scale(inner, one);
    assert(perp == inner);
    lemma_perpendicular_sum(
        u.0@,
        u.1@,
        u.2@,
        n.0@,
        n.1@,
        n.2@,
        m0,
        m1,
        m2,
        g.0@,
        g.1@,
        g.2@,
        c@,
        s,
    );
    // the number under the root
    lemma_square_rounds_down(perp.0);
    lemma_square_rounds_down(perp.1);
    lemma_square_rounds_down(perp.2);
    let np = length_squared_spec(perp)@;
    assert(np == fx_mul(perp.0, perp.0)@ + fx_mul(perp.1, perp.1)@ + fx_mul(perp.2, perp.2)@);
    let under = fx_max(fx(0), fx_sub(one, length_squared_spec(perp)));
    assert(under@ == if s - np > 0 {
        s - np
    } else {
        0
    });
    let x = under@ * s;
    assert(s * (s - np) == s * s - np * s) by (nonlinear_arith);
    assert(x == if s - np > 0 {
        s * s - np * s
    } else {
        0
    }) by (nonlinear_arith)
        requires
            x == under@ * s,
            under@ == if s - np > 0 {
                s - np
            } else {
                0
            },
            s * (s - np) == s * s - np * s,
    ;
    assert(c@ * c@ >= 0) by (nonlinear_arith);
    assert(c@ * c@ - 71 * s <= x < c@ * c@ + 116 * s);
    // the root
    let q = fx_sqrt(under);
    if under@ > 0 {
        lemma_isqrt_exists(x);
        assert(isqrt(x) <= s) by (nonlinear_arith)
            requires
                is_isqrt(x, isqrt(x)),
                x <= s * s,
                s >= 1,
        ;
    }
    assert(0 <= q@ <= s && q@ * q@ <= x < (q@ + 1) * (q@ + 1)) by {
        if under@ > 0 {
            assert(x == under@ * ONE_RAW);
            assert(q@ == isqrt(x));
            assert(is_isqrt(x, q@));
        } else {
            assert(q@ == 0);
            assert(x == 0);
            assert(q@ * q@ == 0 && (q@ + 1) * (q@ + 1) == 1) by (nonlinear_arith)
                requires
                    q@ == 0,
            ;
        }
    }
    let b: int = 45056;
    lemma_root_near(c@, q@, x, 71 * s, 116 * s, b);
    // the part along the normal
    lemma_mul_neg(n.0, q);
    lemma_mul_neg(n.1, q);
    lemma_mul_neg(n.2, q);
    lemma_product_rounds_to_zero(n.0, q);
    lemma_product_rounds_to_zero(n.1, q);
    lemma_product_rounds_to_zero(n.2, q);
    let h0 = fx_mul(n.0, q)@;
    let h1 = fx_mul(n.1, q)@;
    let h2 = fx_mul(n.2, q)@;
    assert(q@ * n.0@ == n.0@ * q@ && q@ * n.1@ == n.1@ * q@ && q@ * n.2@ == n.2@ * q@)
        by (nonlinear_arith);
    lemma_close_multiples(n.0@, c@, q@, g.0@, h0, s, b);
    lemma_close_multiples(n.1@, c@, q@, g.1@, h1, s, b);
    lemma_close_multiples(n.2@, c@, q@, g.2@, h2, s, b);
    let parallel = v_scale(n, fx_neg(q));
    assert(parallel.0@ == -h0 && parallel.1@ == -h1 && parallel.2@ == -h2);
    let r = refract_spec(u, n, one);
    assert(r == v_add(perp, parallel));
    assert(r.0@ == u.0@ + g.0@ - h0 && r.1@ == u.1@ + g.1@ - h1 && r.2@ == u.2@ + g.2@ - h2);
}

/// The product of two vectors is at most the product of their lengths:
/// `(d . o)^2 <= |d|^2 |o|^2`.
pub proof fn lemma_product_below_lengths(d0: int, d1: int, d2: int, o0: int, o1: int, o2: int)
    ensures
        (d0 * o0 + d1 * o1 + d2 * o2) * (d0 * o0 + d1 * o1 + d2 * o2) <= sum_sq(d0, d1, d2)
            * sum_sq(o0, o1, o2),
{
    lemma_product_gap(d0, d1, d2, o0, o1, o2);
    assert((d0 * o1 - d1 * o0) * (d0 * o1 - d1 * o0) >= 0 && (d0 * o2 - d2 * o0) * (d0 * o2 - d2
        * o0) >= 0 && (d1 * o2 - d2 * o1) * (d1 * o2 - d2 * o1) >= 0) by (nonlinear_arith);
}

/// What the product of two vectors lacks to the product of their lengths:
/// `|d|^2 |o|^2 - (d . o)^2` is the squared length of their cross product.
pub proof fn lemma_product_gap(d0: int, d1: int, d2: int, o0: int, o1: int, o2: int)
    ensures
        sum_sq(d0, d1, d2) * sum_sq(o0, o1, o2) - (d0 * o0 + d1 * o1 + d2 * o2) * (d0 * o0 + d1
            * o1 + d2 * o2) == (d0 * o1 - d1 * o0) * (d0 * o1 - d1 * o0) + (d0 * o2 - d2 * o0) * (
            d0 * o2 - d2 * o0) + (d1 * o2 - d2 * o1) * (d1 * o2 - d2 * o1),
{
    let (m00, m01, m02) = (d0 * o0, d0 * o1, d0 * o2);
    let (m10, m11, m12) = (d1 * o0, d1 * o1, d1 * o2);
    let (m20, m21, m22) = (d2 * o0, d2 * o1, d2 * o2);
    let (a0, a1, a2) = (d0 * d0, d1 * d1, d2 * d2);
    let (b0, b1, b2) = (o0 * o0, o1 * o1, o2 * o2);
    assert(a0 * b0 == m00 * m00 && a0 * b1 == m01 * m01 && a0 * b2 == m02 * m02)
        by (nonlinear_arith)
        requires
            a0 == d0 * d0,
            b0 == o0 * o0,
            b1 == o1 * o1,
            b2 == o2 * o2,
            m00 == d0 * o0,
            m01 == d0 * o1,
            m02 == d0 * o2,
    ;
    assert(a1 * b0 == m10 * m10 && a1 * b1 == m11 * m11 && a1 * b2 == m12 * m12)
        by (nonlinear_arith)
        requires
            a1 == d1 * d1,
            b0 == o0 * o0,
            b1 == o1 * o1,
            b2 == o2 * o2,
            m10 == d1 * o0,
            m11 == d1 * o1,
            m12 == d1 * o2,
    ;
    assert(a2 * b0 == m20 * m20 && a2 * b1 == m21 * m21 && a2 * b2 == m22 * m22)
        by (nonlinear_arith)
        requires
            a2 == d2 * d2,
            b0 == o0 * o0,
            b1 == o1 * o1,
            b2 == o2 * o2,
            m20 == d2 * o0,
            m21 == d2 * o1,
            m22 == d2 * o2,
    ;
    assert(m01 * m10 == m00 * m11) by (nonlinear_arith)
        requires
            m00 == d0 * o0,
            m01 == d0 * o1,
            m10 == d1 * o0,
            m11 == d1 * o1,
    ;
    assert(m02 * m20 == m00 * m22) by (nonlinear_arith)
        requires
            m00 == d0 * o0,
            m02 == d0 * o2,
            m20 == d2 * o0,
            m22 == d2 * o2,
    ;
    assert(m12 * m21 == m11 * m22) by (nonlinear_arith)
        requires
            m11 == d1 * o1,
            m12 == d1 * o2,
            m21 == d2 * o1,
            m22 == d2 * o2,
    ;
    assert((a0 + a1 + a2) * (b0 + b1 + b2) == a0 * b0 + a0 * b1 + a0 * b2 + a1 * b0 + a1 * b1
        + a1 * b2 + a2 * b0 + a2 * b1 + a2 * b2) by (nonlinear_arith);
    assert((m00 + m11 + m22) * (m00 + m11 + m22) == m00 * m00 + m11 * m11 + m22 * m22 + 2 * (m00
        * m11) + 2 * (m00 * m22) + 2 * (m11 * m22)) by (nonlinear_arith);
    assert((m01 - m10) * (m01 - m10) == m01 * m01 + m10 * m10 - 2 * (m01 * m10))
        by (nonlinear_arith);
    assert((m02 - m20) * (m02 - m20) == m02 * m02 + m20 * m20 - 2 * (m02 * m20))
        by (nonlinear_arith);
    assert((m12 - m21) * (m12 - m21) == m12 * m12 + m21 * m21 - 2 * (m12 * m21))
        by (nonlinear_arith);
}

/// How well a rounded root solves its quadratic: with `e` the rounded root
/// of the discriminant `h^2 - a c`, `sigma` one of `e` and `-e`, and `t` the
/// rounded quotient `s (-h + sigma) / a`, where `a >= s^2 / jj`, the value
/// `q = a t^2 + 2 s h t + s^2 c` of the quadratic at `t / s`, scaled by
/// `s^2`, is at most `2 s e + a + jj (2 e + 1)` in magnitude.
pub proof fn lemma_root_residual(
    a: int,
    h: int,
    c: int,
    e: int,
    sigma: int,
    t: int,
    s: int,
    jj: int,
)
    requires
        1 <= s,
        1 <= jj,
        1 <= a,
        s * s <= a * jj,
        0 <= e,
        e * e <= h * h - a * c < (e + 1) * (e + 1),
        sigma == e || sigma == -e,
        -a < s * (-h + sigma) - a * t < a,
    ensures
        -(2 * (s * e) + a + jj * (2 * e + 1)) <= a * (t * t) + 2 * ((s * h) * t) + (s * s) * c <= 2
            * (s * e) + a + jj * (2 * e + 1),
{
    let q = a * (t * t) + 2 * ((s * h) * t) + (s * s) * c;
    let disc = h * h - a * c;
    let rho = s * (-h + sigma) - a * t;
    let w = a * t + s * h;
    let ss = s * s;
    let se = s * e;
    assert(ss >= 1) by (nonlinear_arith)
        requires
            ss == s * s,
            s >= 1,
    ;
    assert(w == s * sigma - rho) by (nonlinear_arith)
        requires
            rho == s * (-h + sigma) - a * t,
            w == a * t + s * h,
    ;
    // a q = w^2 - s^2 disc
    let at = a * t;
    let sh = s * h;
    assert(w * w == at * at + 2 * (at * sh) + sh * sh) by (nonlinear_arith)
        requires
            w == at + sh,
    ;
    assert(at * at == a * (a * (t * t))) by (nonlinear_arith)
        requires
            at == a * t,
    ;
    assert(at * sh == a * ((s * h) * t)) by (nonlinear_arith)
        requires
            at == a * t,
            sh == s * h,
    ;
    assert(sh * sh == ss * (h * h)) by (nonlinear_arith)
        requires
            sh == s * h,
            ss == s * s,
    ;
    assert(ss * disc == ss * (h * h) - ss * (a * c)) by (nonlinear_arith)
        requires
            disc == h * h - a * c,
    ;
    assert(ss * (a * c) == a * (ss * c)) by (nonlinear_arith);
    assert(a * q == a * (a * (t * t)) + 2 * (a * ((s * h) * t)) + a * (ss * c))
        by (nonlinear_arith)
        requires
            q == a * (t * t) + 2 * ((s * h) * t) + ss * c,
    ;
    assert(a * q == w * w - ss * disc);
    let ssig = s * sigma;
    assert(w * w == ssig * ssig - 2 * (ssig * rho) + rho * rho) by (nonlinear_arith)
        requires
            w == ssig - rho,
    ;
    assert(ssig * ssig == ss * (e * e)) by (nonlinear_arith)
        requires
            ssig == s * sigma,
            sigma == e || sigma == -e,
            ss == s * s,
    ;
    assert(-se <= ssig <= se) by (nonlinear_arith)
        requires
            ssig == s * sigma,
            se == s * e,
            sigma == e || sigma == -e,
            s >= 1,
            e >= 0,
    ;
    lemma_product_bound(ssig, rho, se, a);
    lemma_product_bound(rho, rho, a, a);
    assert(rho * rho >= 0) by (nonlinear_arith);
    let gap = disc - e * e;
    assert((e + 1) * (e + 1) == e * e + 2 * e + 1) by (nonlinear_arith);
    assert(0 <= gap <= 2 * e);
    assert(ss * disc == ss * (e * e) + ss * gap) by (nonlinear_arith)
        requires
            disc == e * e + gap,
    ;
    let widened = jj * (2 * e + 1);
    assert(0 <= ss * gap <= a * widened) by (nonlinear_arith)
        requires
            0 <= gap <= 2 * e,
            1 <= ss <= a * jj,
            widened == jj * (2 * e + 1),
            a >= 1,
            jj >= 1,
    ;
    // a q = - s^2 gap - 2 (s sigma) rho + rho^2
    assert(a * q == rho * rho - 2 * (ssig * rho) - ss * gap);
    let top = 2 * se + a + widened;
    assert(a * top == 2 * (se * a) + a * a + a * widened) by (nonlinear_arith)
        requires
            top == 2 * se + a + widened,
    ;
    assert(-(a * top) <= a * q <= a * top);
    assert(-top <= q <= top) by (nonlinear_arith)
        requires
            -(a * top) <= a * q <= a * top,
            a >= 1,
    ;
}

/// The largest magnitude of `s^2 (|x|^2 - r^2)` for a hit point `x` (seen
/// from the centre) found with a direction of raw length at most `b` and at
/// least `s / j`, where `jj = j^2`:
/// `2 s b r + 6 s^2 r + b^2 + jj (2 b r + 1) + 6 s b + (6 jj + 3) s^2`.
pub open spec fn point_slack(s: int, b: int, rr: int, jj: int) -> int {
    2 * (s * (b * rr)) + 6 * ((s * s) * rr) + b * b + jj * (2 * (b * rr) + 1) + 6 * (s * b) + (6
        * jj + 3) * (s * s)
}

/// One component of a point on a ray, scaled by `s`: with `g` the rounded
/// `d t / s` and `x = o + g`, the exact scaled component `s o + d t` differs
/// from `s x` by the rounding error.
pub proof fn lemma_point_component(o: int, d: int, g: int, t: int, s: int) -> (exact: int)
    requires
        -s < d * t - s * g < s,
    ensures
        exact == s * o + d * t,
        -s < exact - s * (o + g) < s,
        exact * exact == (s * s) * (o * o) + 2 * ((s * t) * (d * o)) + (t * t) * (d * d),
{
    let exact = s * o + d * t;
    assert(s * (o + g) == s * o + s * g) by (nonlinear_arith);
    let so = s * o;
    let dt = d * t;
    assert(exact * exact == so * so + 2 * (so * dt) + dt * dt) by (nonlinear_arith)
        requires
            exact == so + dt,
    ;
    assert(so * so == (s * s) * (o * o)) by (nonlinear_arith)
        requires
            so == s * o,
    ;
    assert(so * dt == (s * t) * (d * o)) by (nonlinear_arith)
        requires
            so == s * o,
            dt == d * t,
    ;
    assert(dt * dt == (t * t) * (d * d)) by (nonlinear_arith)
        requires
            dt == d * t,
    ;
    exact
}

/// The hit point lies on the sphere, up to rounding: for a root `t` whose
/// residual `q` in the quadratic is small, the point `x = o + d t / s`, seen
/// from the centre, has a squared length that differs from `r^2` by at most
/// `point_slack / s^2`.
pub proof fn lemma_point_near_sphere(
    o0: int,
    o1: int,
    o2: int,
    d0: int,
    d1: int,
    d2: int,
    g0: int,
    g1: int,
    g2: int,
    t: int,
    s: int,
    rr: int,
    b: int,
    jj: int,
)
    requires
        16 <= s <= b <= s * s,
        1 <= rr,
        1 <= jj,
        -s < d0 * t - s * g0 < s,
        -s < d1 * t - s * g1 < s,
        -s < d2 * t - s * g2 < s,
        -(2 * (s * (b * rr)) + b * b + jj * (2 * (b * rr) + 1)) <= sum_sq(d0, d1, d2) * (t * t) + 2
            * ((s * (d0 * o0 + d1 * o1 + d2 * o2)) * t) + (s * s) * (sum_sq(o0, o1, o2) - rr * rr)
            <= 2 * (s * (b * rr)) + b * b + jj * (2 * (b * rr) + 1),
    ensures
        -point_slack(s, b, rr, jj) <= (s * s) * (sum_sq(o0 + g0, o1 + g1, o2 + g2) - rr * rr)
            <= point_slack(s, b, rr, jj),
{
    let a = sum_sq(d0, d1, d2);
    let h = d0 * o0 + d1 * o1 + d2 * o2;
    let c = sum_sq(o0, o1, o2) - rr * rr;
    let ss = s * s;
    let tt = t * t;
    let st = s * t;
    let q = a * tt + 2 * ((s * h) * t) + ss * c;
    let e0 = lemma_point_component(o0, d0, g0, t, s);
    let e1 = lemma_point_component(o1, d1, g1, t, s);
    let e2 = lemma_point_component(o2, d2, g2, t, s);
    // the exact scaled point lies on the quadratic
    assert(ss * sum_sq(o0, o1, o2) == ss * (o0 * o0) + ss * (o1 * o1) + ss * (o2 * o2))
        by (nonlinear_arith);
    assert(st * h == st * (d0 * o0) + st * (d1 * o1) + st * (d2 * o2)) by (nonlinear_arith)
        requires
            h == d0 * o0 + d1 * o1 + d2 * o2,
    ;
    assert(tt * a == tt * (d0 * d0) + tt * (d1 * d1) + tt * (d2 * d2)) by (nonlinear_arith)
        requires
            a == d0 * d0 + d1 * d1 + d2 * d2,
    ;
    assert(st * h == (s * h) * t && tt * a == a * tt) by (nonlinear_arith)
        requires
            st == s * t,
    ;
    assert(ss * c == ss * sum_sq(o0, o1, o2) - ss * (rr * rr)) by (nonlinear_arith)
        requires
            c == sum_sq(o0, o1, o2) - rr * rr,
    ;
    let srr = s * rr;
    assert(ss * (rr * rr) == srr * srr) by (nonlinear_arith)
        requires
            ss == s * s,
            srr == s * rr,
    ;
    let exact_sum = e0 * e0 + e1 * e1 + e2 * e2;
    assert(exact_sum == srr * srr + q);
    // no exact component is longer than s r + b + jj s
    let sbr = s * (b * rr);
    let br = b * rr;
    let sb = s * b;
    let ssr = ss * rr;
    let js = jj * s;
    let reach = srr + b + js;
    assert(reach * reach == srr * srr + 2 * (srr * (b + js)) + (b + js) * (b + js))
        by (nonlinear_arith)
        requires
            reach == srr + (b + js),
    ;
    let jbr = jj * (2 * br + 1);
    assert(srr * (b + js) == sbr + jj * ssr && (b + js) * (b + js) == b * b + 2 * (jj * sb) + (jj
        * jj) * ss) by (nonlinear_arith)
        requires
            js == jj * s,
            srr == s * rr,
            sbr == s * (b * rr),
            ssr == (s * s) * rr,
            sb == s * b,
            ss == s * s,
    ;
    assert(br <= ssr && ss >= 1 && sb >= 1 && br >= 0 && ssr >= 0 && srr >= 1)
        by (nonlinear_arith)
        requires
            br == b * rr,
            ssr == ss * rr,
            srr == s * rr,
            sb == s * b,
            ss == s * s,
            1 <= s <= b <= ss,
            rr >= 1,
    ;
    assert(jbr == 2 * (jj * br) + jj && jj * br <= jj * ssr && jj <= jj * sb && (jj * jj) * ss
        >= 0 && js >= 1) by (nonlinear_arith)
        requires
            jbr == jj * (2 * br + 1),
            js == jj * s,
            br <= ssr,
            sb >= 1,
            ss >= 1,
            jj >= 1,
            s >= 1,
            br >= 0,
    ;
    assert(exact_sum <= reach * reach);
    assert(e0 * e0 >= 0 && e1 * e1 >= 0 && e2 * e2 >= 0) by (nonlinear_arith);
    lemma_magnitude_below(e0, reach);
    lemma_magnitude_below(e1, reach);
    lemma_magnitude_below(e2, reach);
    // the rounded point
    let (x0, x1, x2) = (o0 + g0, o1 + g1, o2 + g2);
    let f0 = e0 - s * x0;
    let f1 = e1 - s * x1;
    let f2 = e2 - s * x2;
    lemma_rounded_square(e0, f0, x0, s);
    lemma_rounded_square(e1, f1, x1, s);
    lemma_rounded_square(e2, f2, x2, s);
    lemma_product_bound(e0, f0, reach, s);
    lemma_product_bound(e1, f1, reach, s);
    lemma_product_bound(e2, f2, reach, s);
    lemma_product_bound(f0, f0, s, s);
    lemma_product_bound(f1, f1, s, s);
    lemma_product_bound(f2, f2, s, s);
    assert(reach * s == ssr + sb + jj * ss) by (nonlinear_arith)
        requires
            reach == srr + b + js,
            js == jj * s,
            srr == s * rr,
            ssr == (s * s) * rr,
            sb == s * b,
            ss == s * s,
    ;
    assert((6 * jj + 3) * ss == 6 * (jj * ss) + 3 * ss) by (nonlinear_arith);
    assert(ss * sum_sq(x0, x1, x2) == ss * (x0 * x0) + ss * (x1 * x1) + ss * (x2 * x2))
        by (nonlinear_arith);
    assert(ss * (sum_sq(x0, x1, x2) - rr * rr) == ss * sum_sq(x0, x1, x2) - srr * srr)
        by (nonlinear_arith)
        requires
            ss * (rr * rr) == srr * srr,
    ;
}

/// A number whose square is at most `bound^2` is at most `bound` in
/// magnitude.
pub proof fn lemma_magnitude_below(x: int, bound: int)
    requires
        0 <= bound,
        x * x <= bound * bound,
    ensures
        -bound <= x <= bound,
{
    if x > bound {
        lemma_square_lt(bound, x);
    }
    if -x > bound {
        lemma_square_lt(bound, -x);
        assert((-x) * (-x) == x * x) by (nonlinear_arith);
    }
}

/// The square of a rounded component: with `e` the exact scaled component
/// and `f = e - s x` the rounding error, `s^2 x^2 = e^2 - 2 e f + f^2`.
proof fn lemma_rounded_square(e: int, f: int, x: int, s: int)
    requires
        f == e - s * x,
    ensures
        (s * s) * (x * x) == e * e - 2 * (e * f) + f * f,
{
    let sx = s * x;
    assert(sx * sx == (s * s) * (x * x)) by (nonlinear_arith)
        requires
            sx == s * x,
    ;
    assert(sx * sx == e * e - 2 * (e * f) + f * f) by (nonlinear_arith)
        requires
            sx == e - f,
    ;
}

/// The length of a normal: for a point `x` close to a sphere of radius
/// `r`, the components `n` of `x` scaled by `s / r` form a vector whose
/// rounded length `m` satisfies `(m - s) r <= far` and
/// `(s - m) r <= far + 4 r`, for `far = b + (3 + jj) s`, provided the radius
/// is not tiny:
/// `far^2 + b^2 + jj (2 b r + 1) + 6 s b + (6 jj + 3) s^2 <= 2 jj s^2 r`.
pub proof fn lemma_normal_length(
    x0: int,
    x1: int,
    x2: int,
    n0: int,
    n1: int,
    n2: int,
    s: int,
    rr: int,
    b: int,
    jj: int,
    m: int,
)
    requires
        16 <= s <= b <= s * s,
        1 <= rr,
        1 <= jj,
        is_scaled(x0, n0, s, rr),
        is_scaled(x1, n1, s, rr),
        is_scaled(x2, n2, s, rr),
        -point_slack(s, b, rr, jj) <= (s * s) * (sum_sq(x0, x1, x2) - rr * rr) <= point_slack(
            s,
            b,
            rr,
            jj,
        ),
        (b + (3 + jj) * s) * (b + (3 + jj) * s) + b * b + jj * (2 * (b * rr) + 1) + 6 * (s * b) + (
        6 * jj + 3) * (s * s) <= 2 * (jj * ((s * s) * rr)),
        0 <= m,
        m * m <= sum_sq(n0, n1, n2) < (m + 1) * (m + 1),
    ensures
        (m - s) * rr <= b + (3 + jj) * s,
        (s - m) * rr <= b + (3 + jj) * s + 4 * rr,
{
    let ss = s * s;
    let srr = s * rr;
    let sbr = s * (b * rr);
    let br = b * rr;
    let sb = s * b;
    let ssr = ss * rr;
    let slack = point_slack(s, b, rr, jj);
    let total_x = sum_sq(x0, x1, x2);
    let total_n = sum_sq(n0, n1, n2);
    let rsq = rr * rr;
    lemma_scaled_squares(x0, x1, x2, n0, n1, n2, s, rr);
    assert(ss * (total_x - rsq) == ss * total_x - srr * srr) by (nonlinear_arith)
        requires
            ss == s * s,
            srr == s * rr,
            rsq == rr * rr,
    ;
    assert(br <= ssr && ss >= 1 && sb >= 0 && br >= 0 && ssr >= 0 && srr >= 1 && rsq >= 1)
        by (nonlinear_arith)
        requires
            br == b * rr,
            ssr == ss * rr,
            srr == s * rr,
            sb == s * b,
            ss == s * s,
            rsq == rr * rr,
            1 <= s <= b <= ss,
            rr >= 1,
    ;
    let far = b + (3 + jj) * s;
    let jbr = jj * (2 * br + 1);
    assert(far * far >= b * b + 6 * sb + (6 * jj + 3) * ss + jj) by (nonlinear_arith)
        requires
            far == b + (3 + jj) * s,
            sb == s * b,
            ss == s * s,
            jj >= 1,
            s >= 1,
            b >= 1,
    ;
    assert(srr * far == sbr + 3 * ssr + jj * ssr) by (nonlinear_arith)
        requires
            far == b + (3 + jj) * s,
            srr == s * rr,
            sbr == s * (b * rr),
            ssr == (s * s) * rr,
    ;
    assert(jbr == 2 * (jj * br) + jj && jj * br <= jj * ssr && far >= 0) by (nonlinear_arith)
        requires
            jbr == jj * (2 * br + 1),
            far == b + (3 + jj) * s,
            br <= ssr,
            br >= 0,
            jj >= 1,
            s >= 1,
            b >= 1,
    ;
    // from above: (m r)^2 <= (s r + b + 4 s)^2
    let above = srr + far;
    assert(above * above == srr * srr + 2 * (srr * far) + far * far) by (nonlinear_arith)
        requires
            above == srr + far,
    ;
    let mr = m * rr;
    assert(mr * mr == (m * m) * rsq) by (nonlinear_arith)
        requires
            mr == m * rr,
            rsq == rr * rr,
    ;
    assert((m * m) * rsq <= total_n * rsq) by (nonlinear_arith)
        requires
            m * m <= total_n,
            rsq >= 0,
    ;
    assert(mr * mr <= above * above);
    assert(mr >= 0 && above >= 0) by (nonlinear_arith)
        requires
            mr == m * rr,
            m >= 0,
            rr >= 1,
            above == srr + far,
            srr >= 1,
            far >= 0,
    ;
    lemma_magnitude_below(mr, above);
    assert((m - s) * rr == mr - srr) by (nonlinear_arith)
        requires
            mr == m * rr,
            srr == s * rr,
    ;
    // from below: ((m + 4) r)^2 > (s r - b - 4 s)^2
    assert(n0 * n0 >= 0 && n1 * n1 >= 0 && n2 * n2 >= 0) by (nonlinear_arith);
    if n0 >= m + 1 {
        lemma_square_le(m + 1, n0);
    }
    if n1 >= m + 1 {
        lemma_square_le(m + 1, n1);
    }
    if n2 >= m + 1 {
        lemma_square_le(m + 1, n2);
    }
    assert((m + 1) * (m + 1) == m * m + 2 * m + 1 && (m + 4) * (m + 4) == m * m + 8 * m + 16)
        by (nonlinear_arith);
    let grown = total_n + 2 * (n0 + n1 + n2) + 3;
    assert(grown <= (m + 4) * (m + 4));
    assert(grown * rsq <= ((m + 4) * (m + 4)) * rsq) by (nonlinear_arith)
        requires
            grown <= (m + 4) * (m + 4),
            rsq >= 0,
    ;
    let lifted = (m + 4) * rr;
    assert(lifted * lifted == ((m + 4) * (m + 4)) * rsq) by (nonlinear_arith)
        requires
            lifted == (m + 4) * rr,
            rsq == rr * rr,
    ;
    let below = srr - far;
    assert(below * below == srr * srr - 2 * (srr * far) + far * far) by (nonlinear_arith)
        requires
            below == srr - far,
    ;
    assert(below * below <= srr * srr - slack);
    assert(below * below < lifted * lifted);
    assert(lifted >= 0) by (nonlinear_arith)
        requires
            lifted == (m + 4) * rr,
            m >= 0,
            rr >= 1,
    ;
    if lifted < below {
        lemma_square_le(lifted, below);
    }
    assert((s - m) * rr == srr - lifted + 4 * rr) by (nonlinear_arith)
        requires
            lifted == (m + 4) * rr,
            srr == s * rr,
    ;
}

/// A point close to a sphere is not farther from the centre, in any
/// component, than the radius and a little more.
pub proof fn lemma_point_reach(x0: int, x1: int, x2: int, s: int, rr: int, b: int, jj: int)
    requires
        16 <= s <= b <= s * s,
        1 <= rr,
        1 <= jj,
        (s * s) * (sum_sq(x0, x1, x2) - rr * rr) <= point_slack(s, b, rr, jj),
    ensures
        -(s * rr + b + (3 + jj) * s) <= s * x0 <= s * rr + b + (3 + jj) * s,
        -(s * rr + b + (3 + jj) * s) <= s * x1 <= s * rr + b + (3 + jj) * s,
        -(s * rr + b + (3 + jj) * s) <= s * x2 <= s * rr + b + (3 + jj) * s,
{
    let ss = s * s;
    let srr = s * rr;
    let sbr = s * (b * rr);
    let br = b * rr;
    let sb = s * b;
    let ssr = ss * rr;
    let far = b + (3 + jj) * s;
    let above = srr + far;
    let jbr = jj * (2 * br + 1);
    assert(ss * (sum_sq(x0, x1, x2) - rr * rr) == ss * (x0 * x0) + ss * (x1 * x1) + ss * (x2 * x2)
        - srr * srr) by (nonlinear_arith)
        requires
            ss == s * s,
            srr == s * rr,
    ;
    assert(br <= ssr && ss >= 1 && sb >= 0 && br >= 0 && ssr >= 0 && srr >= 1)
        by (nonlinear_arith)
        requires
            br == b * rr,
            ssr == ss * rr,
            srr == s * rr,
            sb == s * b,
            ss == s * s,
            1 <= s <= b <= ss,
            rr >= 1,
    ;
    assert(far * far >= b * b + 6 * sb + (6 * jj + 3) * ss + jj) by (nonlinear_arith)
        requires
            far == b + (3 + jj) * s,
            sb == s * b,
            ss == s * s,
            jj >= 1,
            s >= 1,
            b >= 1,
    ;
    assert(srr * far == sbr + 3 * ssr + jj * ssr) by (nonlinear_arith)
        requires
            far == b + (3 + jj) * s,
            srr == s * rr,
            sbr == s * (b * rr),
            ssr == (s * s) * rr,
    ;
    assert(jbr == 2 * (jj * br) + jj && jj * br <= jj * ssr && far >= 0) by (nonlinear_arith)
        requires
            jbr == jj * (2 * br + 1),
            far == b + (3 + jj) * s,
            br <= ssr,
            br >= 0,
            jj >= 1,
            s >= 1,
            b >= 1,
    ;
    assert(above * above == srr * srr + 2 * (srr * far) + far * far) by (nonlinear_arith)
        requires
            above == srr + far,
    ;
    let (y0, y1, y2) = (s * x0, s * x1, s * x2);
    assert(y0 * y0 == ss * (x0 * x0) && y1 * y1 == ss * (x1 * x1) && y2 * y2 == ss * (x2 * x2))
        by (nonlinear_arith)
        requires
            y0 == s * x0,
            y1 == s * x1,
            y2 == s * x2,
            ss == s * s,
    ;
    assert(y0 * y0 >= 0 && y1 * y1 >= 0 && y2 * y2 >= 0) by (nonlinear_arith);
    lemma_magnitude_below(y0, above);
    lemma_magnitude_below(y1, above);
    lemma_magnitude_below(y2, above);
}

/// The part of a refracted vector across the normal is nearly at right
/// angles to the normal: for `u`, `n`, `c` and `g` as in
/// `lemma_perpendicular_sum`, the product of `u + g` and `n` is at most
/// `47 s` in magnitude.
proof fn lemma_across_meets_normal(
    u0: int,
    u1: int,
    u2: int,
    n0: int,
    n1: int,
    n2: int,
    m0: int,
    m1: int,
    m2: int,
    g0: int,
    g1: int,
    g2: int,
    c: int,
    s: int,
)
    requires
        s >= 1024,
        -s < u0 * n0 - s * m0 < s,
        -s < u1 * n1 - s * m1 < s,
        -s < u2 * n2 - s * m2 < s,
        0 <= c <= s,
        c == -(m0 + m1 + m2) || (c == s && s <= -(m0 + m1 + m2)),
        -s < c * n0 - s * g0 < s,
        -s < c * n1 - s * g1 < s,
        -s < c * n2 - s * g2 < s,
        sum_sq(u0, u1, u2) <= s * s + 19 * s,
        s * s - 19 * s <= sum_sq(n0, n1, n2) <= s * s + 19 * s,
    ensures
        -47 * s <= (u0 + g0) * n0 + (u1 + g1) * n1 + (u2 + g2) * n2 <= 47 * s,
{
    let d = m0 + m1 + m2;
    let t = u0 * n0 + u1 * n1 + u2 * n2;
    let rho = t - s * d;
    let eta = sum_sq(n0, n1, n2) - s * s;
    let ss = s * s;
    lemma_dot_bound(u0, u1, u2, n0, n1, n2, m0, m1, m2, s);
    assert(n0 * n0 >= 0 && n1 * n1 >= 0 && n2 * n2 >= 0) by (nonlinear_arith);
    lemma_root_bound(n0, s);
    lemma_root_bound(n1, s);
    lemma_root_bound(n2, s);
    let (e0, e1, e2) = (c * n0 - s * g0, c * n1 - s * g1, c * n2 - s * g2);
    // s g n = c n^2 - e n
    assert((s * g0) * n0 == c * (n0 * n0) - e0 * n0 && (s * g1) * n1 == c * (n1 * n1) - e1 * n1
        && (s * g2) * n2 == c * (n2 * n2) - e2 * n2) by (nonlinear_arith)
        requires
            e0 == c * n0 - s * g0,
            e1 == c * n1 - s * g1,
            e2 == c * n2 - s * g2,
    ;
    let total = (u0 + g0) * n0 + (u1 + g1) * n1 + (u2 + g2) * n2;
    let (b0, b1, b2) = (g0 * n0, g1 * n1, g2 * n2);
    assert((u0 + g0) * n0 == u0 * n0 + b0 && (u1 + g1) * n1 == u1 * n1 + b1 && (u2 + g2) * n2
        == u2 * n2 + b2) by (nonlinear_arith)
        requires
            b0 == g0 * n0,
            b1 == g1 * n1,
            b2 == g2 * n2,
    ;
    assert(s * b0 == (s * g0) * n0 && s * b1 == (s * g1) * n1 && s * b2 == (s * g2) * n2)
        by (nonlinear_arith)
        requires
            b0 == g0 * n0,
            b1 == g1 * n1,
            b2 == g2 * n2,
    ;
    assert(s * (t + b0 + b1 + b2) == s * t + s * b0 + s * b1 + s * b2) by (nonlinear_arith);
    assert(s * total == s * t + (s * g0) * n0 + (s * g1) * n1 + (s * g2) * n2);
    assert(c * (n0 * n0) + c * (n1 * n1) + c * (n2 * n2) == c * ss + c * eta)
        by (nonlinear_arith)
        requires
            ss + eta == n0 * n0 + n1 * n1 + n2 * n2,
    ;
    assert(s * t == ss * d + s * rho) by (nonlinear_arith)
        requires
            t == s * d + rho,
            ss == s * s,
    ;
    assert(c * ss + ss * d == ss * (c + d)) by (nonlinear_arith);
    lemma_product_bound(e0, n0, s, s + 9);
    lemma_product_bound(e1, n1, s, s + 9);
    lemma_product_bound(e2, n2, s, s + 9);
    lemma_product_bound(c, eta, s, 19 * s);
    lemma_product_bound(s, rho, s, 3 * s);
    assert(-21 <= c + d <= 0);
    assert(-21 * ss <= ss * (c + d) <= 0) by (nonlinear_arith)
        requires
            -21 <= c + d <= 0,
            ss >= 0,
    ;
    assert(s * (s + 9) == ss + 9 * s && s * (19 * s) == 19 * ss && s * (3 * s) == 3 * ss)
        by (nonlinear_arith)
        requires
            ss == s * s,
    ;
    assert(27 * s <= ss) by (nonlinear_arith)
        requires
            ss == s * s,
            s >= 1024,
    ;
    assert(-47 * ss <= s * total <= 47 * ss);
    assert(-47 * s <= total <= 47 * s) by (nonlinear_arith)
        requires
            -47 * ss <= s * total <= 47 * ss,
            ss == s * s,
            s >= 1,
    ;
}

/// A vector scaled by `eta / s`: with `p` the rounded components of `v eta
/// / s`, for `eta` up to `4 s` and components of `v` up to `2 s + 19`, the
/// sum of squares of `p`, times `s^2`, differs from that of `v`, times
/// `eta^2`, by at most `50 s^3`; the product of `p` with a vector `n` of
/// components up to `s + 9` is `eta / s` times that of `v`, up to `4 s`; and
/// no component of `p` exceeds `9 s`.
proof fn lemma_scaled_vector(
    v0: int,
    v1: int,
    v2: int,
    p0: int,
    p1: int,
    p2: int,
    n0: int,
    n1: int,
    n2: int,
    eta: int,
    s: int,
)
    requires
        s >= 1024,
        0 <= eta <= 4 * s,
        -s < v0 * eta - s * p0 < s,
        -s < v1 * eta - s * p1 < s,
        -s < v2 * eta - s * p2 < s,
        -(2 * s + 19) <= v0 <= 2 * s + 19,
        -(2 * s + 19) <= v1 <= 2 * s + 19,
        -(2 * s + 19) <= v2 <= 2 * s + 19,
        -(s + 9) <= n0 <= s + 9,
        -(s + 9) <= n1 <= s + 9,
        -(s + 9) <= n2 <= s + 9,
    ensures
        -50 * (s * s * s) <= (s * s) * sum_sq(p0, p1, p2) - (eta * eta) * sum_sq(v0, v1, v2) <= 50
            * (s * s * s),
        -4 * (s * s) <= s * (p0 * n0 + p1 * n1 + p2 * n2) - eta * (v0 * n0 + v1 * n1 + v2 * n2)
            <= 4 * (s * s),
        -9 * s <= p0 <= 9 * s,
        -9 * s <= p1 <= 9 * s,
        -9 * s <= p2 <= 9 * s,
{
    let ss = s * s;
    let s3 = s * s * s;
    let (w0, w1, w2) = (v0 * eta, v1 * eta, v2 * eta);
    let (f0, f1, f2) = (w0 - s * p0, w1 - s * p1, w2 - s * p2);
    lemma_rounded_square(w0, f0, p0, s);
    lemma_rounded_square(w1, f1, p1, s);
    lemma_rounded_square(w2, f2, p2, s);
    lemma_product_bound(v0, eta, 2 * s + 19, 4 * s);
    lemma_product_bound(v1, eta, 2 * s + 19, 4 * s);
    lemma_product_bound(v2, eta, 2 * s + 19, 4 * s);
    let reach = (2 * s + 19) * (4 * s);
    assert(reach == 8 * ss + 76 * s && reach <= 9 * ss - s) by (nonlinear_arith)
        requires
            reach == (2 * s + 19) * (4 * s),
            ss == s * s,
            s >= 1024,
    ;
    lemma_product_bound(w0, f0, reach, s);
    lemma_product_bound(w1, f1, reach, s);
    lemma_product_bound(w2, f2, reach, s);
    lemma_product_bound(f0, f0, s, s);
    lemma_product_bound(f1, f1, s, s);
    lemma_product_bound(f2, f2, s, s);
    assert(reach * s == 8 * s3 + 76 * ss && 459 * ss <= 2 * s3) by (nonlinear_arith)
        requires
            reach == 8 * ss + 76 * s,
            ss == s * s,
            s3 == s * s * s,
            s >= 1024,
    ;
    assert(w0 * w0 == (eta * eta) * (v0 * v0) && w1 * w1 == (eta * eta) * (v1 * v1) && w2 * w2
        == (eta * eta) * (v2 * v2)) by (nonlinear_arith)
        requires
            w0 == v0 * eta,
            w1 == v1 * eta,
            w2 == v2 * eta,
    ;
    assert(ss * sum_sq(p0, p1, p2) == ss * (p0 * p0) + ss * (p1 * p1) + ss * (p2 * p2))
        by (nonlinear_arith);
    assert((eta * eta) * sum_sq(v0, v1, v2) == (eta * eta) * (v0 * v0) + (eta * eta) * (v1 * v1)
        + (eta * eta) * (v2 * v2)) by (nonlinear_arith);
    // the product with n
    assert((s * p0) * n0 == w0 * n0 - f0 * n0 && (s * p1) * n1 == w1 * n1 - f1 * n1 && (s * p2)
        * n2 == w2 * n2 - f2 * n2) by (nonlinear_arith)
        requires
            f0 == w0 - s * p0,
            f1 == w1 - s * p1,
            f2 == w2 - s * p2,
    ;
    assert(w0 * n0 == eta * (v0 * n0) && w1 * n1 == eta * (v1 * n1) && w2 * n2 == eta * (v2 * n2))
        by (nonlinear_arith)
        requires
            w0 == v0 * eta,
            w1 == v1 * eta,
            w2 == v2 * eta,
    ;
    let (c0, c1, c2) = (p0 * n0, p1 * n1, p2 * n2);
    assert(s * c0 == (s * p0) * n0 && s * c1 == (s * p1) * n1 && s * c2 == (s * p2) * n2)
        by (nonlinear_arith)
        requires
            c0 == p0 * n0,
            c1 == p1 * n1,
            c2 == p2 * n2,
    ;
    assert(s * (c0 + c1 + c2) == s * c0 + s * c1 + s * c2) by (nonlinear_arith);
    assert(eta * (v0 * n0 + v1 * n1 + v2 * n2) == eta * (v0 * n0) + eta * (v1 * n1) + eta * (v2
        * n2)) by (nonlinear_arith);
    lemma_product_bound(f0, n0, s, s + 9);
    lemma_product_bound(f1, n1, s, s + 9);
    lemma_product_bound(f2, n2, s, s + 9);
    assert(s * (s + 9) == ss + 9 * s && 27 * s <= ss) by (nonlinear_arith)
        requires
            ss == s * s,
            s >= 1024,
    ;
    // the size of the components
    assert(-9 * s <= p0 <= 9 * s && -9 * s <= p1 <= 9 * s && -9 * s <= p2 <= 9 * s)
        by (nonlinear_arith)
        requires
            -s < w0 - s * p0 < s,
            -s < w1 - s * p1 < s,
            -s < w2 - s * p2 < s,
            -(9 * ss - s) <= w0 <= 9 * ss - s,
            -(9 * ss - s) <= w1 <= 9 * ss - s,
            -(9 * ss - s) <= w2 <= 9 * ss - s,
            ss == s * s,
            s >= 1,
    ;
}

/// Adding the part along the normal: with `h` the rounded `q n / s`, for a
/// normal `n` of nearly unit length and a vector `p` whose product with `n`
/// is small, the sum of squares of `p - h` is that of `p` plus `q^2`, up to
/// `464 s`.
proof fn lemma_refracted_sum(
    p0: int,
    p1: int,
    p2: int,
    n0: int,
    n1: int,
    n2: int,
    h0: int,
    h1: int,
    h2: int,
    q: int,
    s: int,
)
    requires
        s >= 1024,
        0 <= q <= s,
        -s < q * n0 - s * h0 < s,
        -s < q * n1 - s * h1 < s,
        -s < q * n2 - s * h2 < s,
        -9 * s <= p0 <= 9 * s,
        -9 * s <= p1 <= 9 * s,
        -9 * s <= p2 <= 9 * s,
        -(s + 9) <= n0 <= s + 9,
        -(s + 9) <= n1 <= s + 9,
        -(s + 9) <= n2 <= s + 9,
        s * s - 19 * s <= sum_sq(n0, n1, n2) <= s * s + 19 * s,
        -192 * s <= p0 * n0 + p1 * n1 + p2 * n2 <= 192 * s,
    ensures
        -464 * s <= sum_sq(p0 - h0, p1 - h1, p2 - h2) - (sum_sq(p0, p1, p2) + q * q) <= 464 * s,
{
    let ss = s * s;
    let s3 = s * s * s;
    let qq = q * q;
    let eta = sum_sq(n0, n1, n2) - ss;
    let (w0, w1, w2) = (q * n0, q * n1, q * n2);
    let (z0, z1, z2) = (w0 - s * h0, w1 - s * h1, w2 - s * h2);
    // the squares of h
    lemma_rounded_square(w0, z0, h0, s);
    lemma_rounded_square(w1, z1, h1, s);
    lemma_rounded_square(w2, z2, h2, s);
    assert(w0 * w0 == qq * (n0 * n0) && w1 * w1 == qq * (n1 * n1) && w2 * w2 == qq * (n2 * n2))
        by (nonlinear_arith)
        requires
            w0 == q * n0,
            w1 == q * n1,
            w2 == q * n2,
            qq == q * q,
    ;
    assert(qq * (n0 * n0) + qq * (n1 * n1) + qq * (n2 * n2) == qq * ss + qq * eta)
        by (nonlinear_arith)
        requires
            ss + eta == n0 * n0 + n1 * n1 + n2 * n2,
    ;
    lemma_product_bound(q, q, s, s);
    lemma_product_bound(qq, eta, ss, 19 * s);
    lemma_product_bound(q, n0, s, s + 9);
    lemma_product_bound(q, n1, s, s + 9);
    lemma_product_bound(q, n2, s, s + 9);
    let reach = s * (s + 9);
    lemma_product_bound(w0, z0, reach, s);
    lemma_product_bound(w1, z1, reach, s);
    lemma_product_bound(w2, z2, reach, s);
    lemma_product_bound(z0, z0, s, s);
    lemma_product_bound(z1, z1, s, s);
    lemma_product_bound(z2, z2, s, s);
    assert(ss * (19 * s) == 19 * s3 && reach * s == s3 + 9 * ss && 57 * ss <= s3)
        by (nonlinear_arith)
        requires
            ss == s * s,
            s3 == s * s * s,
            reach == s * (s + 9),
            s >= 1024,
    ;
    let total_h = sum_sq(h0, h1, h2);
    assert(ss * total_h == ss * (h0 * h0) + ss * (h1 * h1) + ss * (h2 * h2)) by (nonlinear_arith)
        requires
            total_h == h0 * h0 + h1 * h1 + h2 * h2,
    ;
    assert(ss * (total_h - qq) == ss * total_h - qq * ss) by (nonlinear_arith);
    assert(-26 * s3 <= ss * (total_h - qq) <= 26 * s3);
    assert(-26 * s <= total_h - qq <= 26 * s) by (nonlinear_arith)
        requires
            -26 * s3 <= ss * (total_h - qq) <= 26 * s3,
            ss == s * s,
            s3 == s * s * s,
            s >= 1,
    ;
    // the product of p and h
    let (c0, c1, c2) = (p0 * h0, p1 * h1, p2 * h2);
    let (b0, b1, b2) = (p0 * n0, p1 * n1, p2 * n2);
    assert(s * c0 == q * b0 - p0 * z0) by (nonlinear_arith)
        requires
            c0 == p0 * h0,
            b0 == p0 * n0,
            z0 == q * n0 - s * h0,
    ;
    assert(s * c1 == q * b1 - p1 * z1) by (nonlinear_arith)
        requires
            c1 == p1 * h1,
            b1 == p1 * n1,
            z1 == q * n1 - s * h1,
    ;
    assert(s * c2 == q * b2 - p2 * z2) by (nonlinear_arith)
        requires
            c2 == p2 * h2,
            b2 == p2 * n2,
            z2 == q * n2 - s * h2,
    ;
    let across = b0 + b1 + b2;
    assert(q * across == q * b0 + q * b1 + q * b2) by (nonlinear_arith)
        requires
            across == b0 + b1 + b2,
    ;
    lemma_product_bound(q, across, s, 192 * s);
    lemma_product_bound(p0, z0, 9 * s, s);
    lemma_product_bound(p1, z1, 9 * s, s);
    lemma_product_bound(p2, z2, 9 * s, s);
    assert(s * (192 * s) == 192 * ss && (9 * s) * s == 9 * ss) by (nonlinear_arith)
        requires
            ss == s * s,
    ;
    let together = c0 + c1 + c2;
    assert(s * together == s * c0 + s * c1 + s * c2) by (nonlinear_arith)
        requires
            together == c0 + c1 + c2,
    ;
    assert(-219 * ss <= s * together <= 219 * ss);
    assert(-219 * s <= together <= 219 * s) by (nonlinear_arith)
        requires
            -219 * ss <= s * together <= 219 * ss,
            ss == s * s,
            s >= 1,
    ;
    // the squares of p - h
    assert((p0 - h0) * (p0 - h0) == p0 * p0 - 2 * c0 + h0 * h0 && (p1 - h1) * (p1 - h1) == p1
        * p1 - 2 * c1 + h1 * h1 && (p2 - h2) * (p2 - h2) == p2 * p2 - 2 * c2 + h2 * h2)
        by (nonlinear_arith)
        requires
            c0 == p0 * h0,
            c1 == p1 * h1,
            c2 == p2 * h2,
    ;
}

/// The part across the normal where refraction is allowed: with `sn` the
/// rounded sine for the cosine `c` and `sn eta / s` at most `s`, the vector
/// `p`, which is the part across scaled by `eta / s`, has a sum of squares
/// of at most `s^2 + 1221 s`.
proof fn lemma_refraction_allowed(
    across: int,
    total_p: int,
    c: int,
    cc: int,
    sn: int,
    limit: int,
    eta: int,
    s: int,
)
    requires
        s >= 1024,
        0 <= eta <= 4 * s,
        0 <= c <= s,
        0 <= across <= s * s - c * c + 71 * s,
        (s * s) * total_p - (eta * eta) * across <= 50 * (s * s * s),
        0 <= cc,
        cc * s <= c * c,
        0 <= sn,
        (s - cc) * s < (sn + 1) * (sn + 1),
        sn * sn <= (s - cc) * s,
        limit * s <= sn * eta < limit * s + s,
        limit <= s,
    ensures
        total_p <= s * s + 1221 * s,
{
    let ss = s * s;
    let s3 = s * s * s;
    let s4 = ss * ss;
    let ee = eta * eta;
    let room = ss - c * c;
    assert(c * c >= 0 && c * c <= ss) by (nonlinear_arith)
        requires
            0 <= c <= s,
            ss == s * s,
    ;
    assert(cc * s >= 0 && ss >= 1) by (nonlinear_arith)
        requires
            cc >= 0,
            s >= 1,
            ss == s * s,
    ;
    // the sine is at most one, and its square is close to 1 - c^2
    assert((s - cc) * s == ss - cc * s) by (nonlinear_arith)
        requires
            ss == s * s,
    ;
    assert(sn <= s) by (nonlinear_arith)
        requires
            sn * sn <= ss,
            ss == s * s,
            sn >= 0,
            s >= 1,
    ;
    assert((sn + 1) * (sn + 1) == sn * sn + 2 * sn + 1) by (nonlinear_arith);
    assert(room <= sn * sn + 2 * s);
    // sn eta < s^2 + s
    let product = sn * eta;
    let cap = ss + s;
    assert(limit * s <= ss) by (nonlinear_arith)
        requires
            limit <= s,
            ss == s * s,
            s >= 1,
    ;
    assert(0 <= product <= cap) by (nonlinear_arith)
        requires
            product == sn * eta,
            sn >= 0,
            eta >= 0,
            product < limit * s + s,
            limit * s <= ss,
            cap == ss + s,
    ;
    lemma_square_le(product, cap);
    assert(product * product == ee * (sn * sn)) by (nonlinear_arith)
        requires
            product == sn * eta,
            ee == eta * eta,
    ;
    assert(cap * cap == s4 + 2 * s3 + ss) by (nonlinear_arith)
        requires
            cap == ss + s,
            ss == s * s,
            s3 == s * s * s,
            s4 == ss * ss,
    ;
    lemma_product_bound(eta, eta, 4 * s, 4 * s);
    assert((4 * s) * (4 * s) == 16 * ss) by (nonlinear_arith)
        requires
            ss == s * s,
    ;
    assert(ee >= 0) by (nonlinear_arith)
        requires
            ee == eta * eta,
    ;
    assert(ee * room <= ee * (sn * sn) + ee * (2 * s)) by (nonlinear_arith)
        requires
            room <= sn * sn + 2 * s,
            ee >= 0,
    ;
    assert(ee * (2 * s) <= 32 * s3 && ee * (71 * s) <= 1136 * s3) by (nonlinear_arith)
        requires
            0 <= ee <= 16 * ss,
            ss == s * s,
            s3 == s * s * s,
            s >= 1,
    ;
    assert(ee * across <= ee * room + ee * (71 * s)) by (nonlinear_arith)
        requires
            across <= room + 71 * s,
            ee >= 0,
    ;
    assert(ss * total_p <= s4 + 1220 * s3 + ss);
    assert(ss * (ss + 1221 * s) == s4 + 1221 * s3 && ss <= s3) by (nonlinear_arith)
        requires
            ss == s * s,
            s3 == s * s * s,
            s4 == ss * ss,
            s >= 1,
    ;
    assert(total_p <= ss + 1221 * s) by (nonlinear_arith)
        requires
            ss * total_p <= ss * (ss + 1221 * s),
            ss >= 1,
    ;
}

/// The sine that goes with the cosine `c`: the root of `1 - c^2`.
pub open spec fn sine_spec(cosine: Fixed) -> Fixed {
    fx_sqrt(fx_sub(fx(ONE_RAW as int), fx_mul(cosine, cosine)))
}

/// The cosine of the angle between the unit vector `u` and the normal `n`
/// that it meets, capped at one.
pub open spec fn cosine_spec(u: Vec3, n: Vec3) -> Fixed {
    fx_min(dot_spec(v_neg(u), n), fx(ONE_RAW as int))
}

/// A refracted ray leaves with unit length, up to rounding: for a direction
/// and a normal of nearly unit length, the normal not pointing along the
/// direction, and a ratio `eta` of refractive indices of at most four for
/// which refraction is possible (`eta sin <= 1`), the computed squared
/// length of the refracted direction lies between `1 - 512 ulp` and
/// `1 + 2048 ulp`, where one ulp is `2^-24`.
#[verifier::rlimit(60)]
pub proof fn lemma_refraction_has_unit_length(u: Vec3, n: Vec3, eta: Fixed)
    requires
        nearly_unit(u),
        nearly_unit(n),
        dot_spec(v_neg(u), n)@ >= 0,
        0 <= eta@ <= 4 * ONE_RAW,
        fx_mul(sine_spec(cosine_spec(u, n)), eta)@ <= ONE_RAW,
    ensures
        ONE_RAW - 512 <= length_squared_spec(refract_spec(u, n, eta))@ <= ONE_RAW + 2048,
{
    let s = ONE_RAW as int;
    let one = fx(ONE_RAW as int);
    lemma_nearly_unit_sum(u);
    lemma_nearly_unit_sum(n);
    assert(u.0@ * u.0@ >= 0 && u.1@ * u.1@ >= 0 && u.2@ * u.2@ >= 0 && n.0@ * n.0@ >= 0 && n.1@
        * n.1@ >= 0 && n.2@ * n.2@ >= 0) by (nonlinear_arith);
    lemma_root_bound(u.0@, s);
    lemma_root_bound(u.1@, s);
    lemma_root_bound(u.2@, s);
    lemma_root_bound(n.0@, s);
    lemma_root_bound(n.1@, s);
    lemma_root_bound(n.2@, s);
    // the cosine
    lemma_product_rounds_to_zero(u.0, n.0);
    lemma_product_rounds_to_zero(u.1, n.1);
    lemma_product_rounds_to_zero(u.2, n.2);
    let m0 = fx_mul(u.0, n.0)@;
    let m1 = fx_mul(u.1, n.1)@;
    let m2 = fx_mul(u.2, n.2)@;
    lemma_dot_bound(u.0@, u.1@, u.2@, n.0@, n.1@, n.2@, m0, m1, m2, s);
    let nu = v_neg(u);
    lemma_mul_commutes(nu.0, n.0);
    lemma_mul_commutes(nu.1, n.1);
    lemma_mul_commutes(nu.2, n.2);
    lemma_mul_neg(n.0, u.0);
    lemma_mul_neg(n.1, u.1);
    lemma_mul_neg(n.2, u.2);
    lemma_mul_commutes(n.0, u.0);
    lemma_mul_commutes(n.1, u.1);
    lemma_mul_commutes(n.2, u.2);
    let c0 = dot_spec(nu, n);
    assert(c0@ == -(m0 + m1 + m2));
    let c = cosine_spec(u, n);
    assert(0 <= c@ <= s);
    // the part across the normal
    lemma_product_rounds_to_zero(n.0, c);
    lemma_product_rounds_to_zero(n.1, c);
    lemma_product_rounds_to_zero(n.2, c);
    let g = v_scale(n, c);
    assert(c@ * n.0@ == n.0@ * c@ && c@ * n.1@ == n.1@ * c@ && c@ * n.2@ == n.2@ * c@)
        by (nonlinear_arith);
    lemma_product_bound(n.0@, c@, s + 9, s);
    lemma_product_bound(n.1@, c@, s + 9, s);
    lemma_product_bound(n.2@, c@, s + 9, s);
    assert((s + 9) * s == s * s + 9 * s) by (nonlinear_arith);
    assert(-(s + 10) <= g.0@ <= s + 10 && -(s + 10) <= g.1@ <= s + 10 && -(s + 10) <= g.2@ <= s
        + 10) by (nonlinear_arith)
        requires
            -s < n.0@ * c@ - s * g.0@ < s,
            -s < n.1@ * c@ - s * g.1@ < s,
            -s < n.2@ * c@ - s * g.2@ < s,
            -(s * s + 9 * s) <= n.0@ * c@ <= s * s + 9 * s,
            -(s * s + 9 * s) <= n.1@ * c@ <= s * s + 9 * s,
            -(s * s + 9 * s) <= n.2@ * c@ <= s * s + 9 * s,
            s >= 1,
    ;
    let inner = v_add(u, g);
    assert(inner.0@ == u.0@ + g.0@ && inner.1@ == u.1@ + g.1@ && inner.2@ == u.2@ + g.2@);
    lemma_perpendicular_sum(
        u.0@,
        u.1@,
        u.2@,
        n.0@,
        n.1@,
        n.2@,
        m0,
        m1,
        m2,
        g.0@,
        g.1@,
        g.2@,
        c@,
        s,
    );
    lemma_across_meets_normal(
        u.0@,
        u.1@,
        u.2@,
        n.0@,
        n.1@,
        n.2@,
        m0,
        m1,
        m2,
        g.0@,
        g.1@,
        g.2@,
        c@,
        s,
    );
    // scaled by the ratio
    lemma_product_rounds_to_zero(inner.0, eta);
    lemma_product_rounds_to_zero(inner.1, eta);
    lemma_product_rounds_to_zero(inner.2, eta);
    let perp = v_scale(inner, eta);
    lemma_scaled_vector(
        inner.0@,
        inner.1@,
        inner.2@,
        perp.0@,
        perp.1@,
        perp.2@,
        n.0@,
        n.1@,
        n.2@,
        eta@,
        s,
    );
    let across = sum_sq(inner.0@, inner.1@, inner.2@);
    let total_p = sum_sq(perp.0@, perp.1@, perp.2@);
    let inner_n = inner.0@ * n.0@ + inner.1@ * n.1@ + inner.2@ * n.2@;
    let perp_n = perp.0@ * n.0@ + perp.1@ * n.1@ + perp.2@ * n.2@;
    lemma_product_bound(eta@, inner_n, 4 * s, 47 * s);
    assert((4 * s) * (47 * s) == 188 * (s * s)) by (nonlinear_arith);
    assert(-192 * s <= perp_n <= 192 * s) by (nonlinear_arith)
        requires
            -192 * (s * s) <= s * perp_n <= 192 * (s * s),
            s >= 1,
    ;
    // the number under the root
    lemma_square_rounds_down(perp.0);
    lemma_square_rounds_down(perp.1);
    lemma_square_rounds_down(perp.2);
    let np = length_squared_spec(perp)@;
    assert(np == fx_mul(perp.0, perp.0)@ + fx_mul(perp.1, perp.1)@ + fx_mul(perp.2, perp.2)@);
    let under = fx_max(fx(0), fx_sub(one, length_squared_spec(perp)));
    assert(under@ == if s - np > 0 {
        s - np
    } else {
        0
    });
    let x = under@ * s;
    let q = fx_sqrt(under);
    if under@ > 0 {
        lemma_isqrt_exists(x);
        assert(isqrt(x) <= s) by (nonlinear_arith)
            requires
                is_isqrt(x, isqrt(x)),
                x == under@ * s,
                under@ <= s,
                s >= 1,
        ;
    }
    assert(0 <= q@ <= s && q@ * q@ <= x < (q@ + 1) * (q@ + 1)) by {
        if under@ > 0 {
            assert(x == under@ * ONE_RAW);
            assert(q@ == isqrt(x));
            assert(is_isqrt(x, q@));
        } else {
            assert(q@ == 0);
            assert(x == 0);
            assert(q@ * q@ == 0 && (q@ + 1) * (q@ + 1) == 1) by (nonlinear_arith)
                requires
                    q@ == 0,
            ;
        }
    }
    // where refraction is allowed the part across is at most one long
    let cc = fx_mul(c, c);
    lemma_square_rounds_down(c);
    assert(c@ * c@ >= 0 && c@ * c@ <= s * s) by (nonlinear_arith)
        requires
            0 <= c@ <= s,
    ;
    assert(cc@ <= s) by (nonlinear_arith)
        requires
            cc@ * s <= c@ * c@,
            c@ * c@ <= s * s,
            s >= 1,
    ;
    assert(inner.0@ * inner.0@ >= 0 && inner.1@ * inner.1@ >= 0 && inner.2@ * inner.2@ >= 0)
        by (nonlinear_arith);
    let sn = sine_spec(c);
    let room = fx_sub(one, cc);
    assert(room@ == s - cc@);
    if room@ > 0 {
        lemma_isqrt_exists(room@ * s);
        assert(isqrt(room@ * s) <= s) by (nonlinear_arith)
            requires
                is_isqrt(room@ * s, isqrt(room@ * s)),
                room@ <= s,
                s >= 1,
        ;
        assert(sn@ == isqrt(room@ * ONE_RAW));
    } else {
        assert(sn@ == 0);
        assert(room@ * s == 0) by (nonlinear_arith)
            requires
                room@ == 0,
        ;
    }
    assert(0 <= sn@ <= s && sn@ * sn@ <= room@ * s < (sn@ + 1) * (sn@ + 1)) by {
        if room@ <= 0 {
            assert(sn@ * sn@ == 0 && (sn@ + 1) * (sn@ + 1) == 1) by (nonlinear_arith)
                requires
                    sn@ == 0,
            ;
        }
    }
    let limit = fx_mul(sn, eta);
    assert(sn@ * eta@ >= 0 && sn@ * eta@ <= 4 * (s * s)) by (nonlinear_arith)
        requires
            0 <= sn@ <= s,
            0 <= eta@ <= 4 * s,
    ;
    lemma_trunc_div_bounds(sn@ * eta@, s);
    assert(limit@ == trunc_div(sn@ * eta@, s));
    lemma_refraction_allowed(across, total_p, c@, cc@, sn@, limit@, eta@, s);
    // the part along the normal
    lemma_mul_neg(n.0, q);
    lemma_mul_neg(n.1, q);
    lemma_mul_neg(n.2, q);
    lemma_product_rounds_to_zero(n.0, q);
    lemma_product_rounds_to_zero(n.1, q);
    lemma_product_rounds_to_zero(n.2, q);
    let h0 = fx_mul(n.0, q)@;
    let h1 = fx_mul(n.1, q)@;
    let h2 = fx_mul(n.2, q)@;
    assert(q@ * n.0@ == n.0@ * q@ && q@ * n.1@ == n.1@ * q@ && q@ * n.2@ == n.2@ * q@)
        by (nonlinear_arith);
    lemma_refracted_sum(
        perp.0@,
        perp.1@,
        perp.2@,
        n.0@,
        n.1@,
        n.2@,
        h0,
        h1,
        h2,
        q@,
        s,
    );
    lemma_product_bound(n.0@, q@, s + 9, s);
    lemma_product_bound(n.1@, q@, s + 9, s);
    lemma_product_bound(n.2@, q@, s + 9, s);
    assert(-(s + 10) <= h0 <= s + 10 && -(s + 10) <= h1 <= s + 10 && -(s + 10) <= h2 <= s + 10)
        by (nonlinear_arith)
        requires
            -s < n.0@ * q@ - s * h0 < s,
            -s < n.1@ * q@ - s * h1 < s,
            -s < n.2@ * q@ - s * h2 < s,
            -(s * s + 9 * s) <= n.0@ * q@ <= s * s + 9 * s,
            -(s * s + 9 * s) <= n.1@ * q@ <= s * s + 9 * s,
            -(s * s + 9 * s) <= n.2@ * q@ <= s * s + 9 * s,
            s >= 1,
    ;
    let parallel = v_scale(n, fx_neg(q));
    assert(parallel.0@ == -h0 && parallel.1@ == -h1 && parallel.2@ == -h2);
    let r = refract_spec(u, n, eta);
    assert(r == v_add(perp, parallel));
    assert(r.0@ == perp.0@ - h0 && r.1@ == perp.1@ - h1 && r.2@ == perp.2@ - h2);
    let total_r = sum_sq(r.0@, r.1@, r.2@);
    // the sum of squares of the part across and of the root
    let qq = q@ * q@;
    assert(np * s <= total_p < np * s + 3 * s);
    assert((s - np) * s == s * s - np * s) by (nonlinear_arith);
    assert(s * s - 2 * s - 1 < total_p + qq <= s * s + 1221 * s + 3 * s) by {
        assert((q@ + 1) * (q@ + 1) == qq + 2 * q@ + 1) by (nonlinear_arith)
            requires
                qq == q@ * q@,
        ;
        if s - np > 0 {
            assert(x == s * s - np * s);
        } else {
            assert(qq == 0) by (nonlinear_arith)
                requires
                    qq == q@ * q@,
                    q@ * q@ <= 0,
            ;
            assert(np * s >= s * s) by (nonlinear_arith)
                requires
                    np >= s,
                    s >= 1,
            ;
        }
    }
    // the computed squared length
    lemma_square_rounds_down(r.0);
    lemma_square_rounds_down(r.1);
    lemma_square_rounds_down(r.2);
    let nr = length_squared_spec(r)@;
    assert(nr == fx_mul(r.0, r.0)@ + fx_mul(r.1, r.1)@ + fx_mul(r.2, r.2)@);
    assert(nr * s <= total_r < nr * s + 3 * s);
    assert(s - 512 <= nr <= s + 2048) by (nonlinear_arith)
        requires
            nr * s <= total_r < nr * s + 3 * s,
            s * s - 2 * s - 1 - 464 * s < total_r <= s * s + 1224 * s + 464 * s,
            s >= 1024,
    ;
}

/// The rounded product `d` of a vector of length at most `w` and a vector
/// of nearly unit length is at most `w (s + 13)` in magnitude, and no
/// component of the former exceeds `w s`.
proof fn lemma_long_dot_bound(
    v0: int,
    v1: int,
    v2: int,
    n0: int,
    n1: int,
    n2: int,
    m0: int,
    m1: int,
    m2: int,
    s: int,
    w: int,
)
    requires
        s >= 1024,
        w >= 1,
        -s < v0 * n0 - s * m0 < s,
        -s < v1 * n1 - s * m1 < s,
        -s < v2 * n2 - s * m2 < s,
        sum_sq(v0, v1, v2) <= (w * s) * (w * s),
        sum_sq(n0, n1, n2) <= s * s + 19 * s,
    ensures
        -(w * (s + 13)) <= m0 + m1 + m2 <= w * (s + 13),
        -3 * s < v0 * n0 + v1 * n1 + v2 * n2 - s * (m0 + m1 + m2) < 3 * s,
        -(w * s) <= v0 <= w * s,
        -(w * s) <= v1 <= w * s,
        -(w * s) <= v2 <= w * s,
{
    let l = w * s;
    let d = m0 + m1 + m2;
    let t = v0 * n0 + v1 * n1 + v2 * n2;
    let ss = s * s;
    let ll = l * l;
    let sl = s * l;
    assert(l >= s && ll >= 1 && sl >= 1) by (nonlinear_arith)
        requires
            l == w * s,
            ll == l * l,
            sl == s * l,
            w >= 1,
            s >= 1,
    ;
    assert(s * d == s * m0 + s * m1 + s * m2) by (nonlinear_arith)
        requires
            d == m0 + m1 + m2,
    ;
    assert(v0 * v0 >= 0 && v1 * v1 >= 0 && v2 * v2 >= 0) by (nonlinear_arith);
    lemma_magnitude_below(v0, l);
    lemma_magnitude_below(v1, l);
    lemma_magnitude_below(v2, l);
    let (a0, a1, a2) = (s * v0, s * v1, s * v2);
    let (b0, b1, b2) = (l * n0, l * n1, l * n2);
    lemma_product_below_squares(a0, b0);
    lemma_product_below_squares(a1, b1);
    lemma_product_below_squares(a2, b2);
    assert(a0 * b0 == sl * (v0 * n0) && a1 * b1 == sl * (v1 * n1) && a2 * b2 == sl * (v2 * n2))
        by (nonlinear_arith)
        requires
            a0 == s * v0,
            a1 == s * v1,
            a2 == s * v2,
            b0 == l * n0,
            b1 == l * n1,
            b2 == l * n2,
            sl == s * l,
    ;
    assert(a0 * a0 == ss * (v0 * v0) && a1 * a1 == ss * (v1 * v1) && a2 * a2 == ss * (v2 * v2))
        by (nonlinear_arith)
        requires
            a0 == s * v0,
            a1 == s * v1,
            a2 == s * v2,
            ss == s * s,
    ;
    assert(b0 * b0 == ll * (n0 * n0) && b1 * b1 == ll * (n1 * n1) && b2 * b2 == ll * (n2 * n2))
        by (nonlinear_arith)
        requires
            b0 == l * n0,
            b1 == l * n1,
            b2 == l * n2,
            ll == l * l,
    ;
    assert(sl * t == sl * (v0 * n0) + sl * (v1 * n1) + sl * (v2 * n2)) by (nonlinear_arith)
        requires
            t == v0 * n0 + v1 * n1 + v2 * n2,
    ;
    let total_v = sum_sq(v0, v1, v2);
    let total_n = sum_sq(n0, n1, n2);
    assert(ss * total_v == ss * (v0 * v0) + ss * (v1 * v1) + ss * (v2 * v2)) by (nonlinear_arith)
        requires
            total_v == v0 * v0 + v1 * v1 + v2 * v2,
    ;
    assert(ll * total_n == ll * (n0 * n0) + ll * (n1 * n1) + ll * (n2 * n2)) by (nonlinear_arith)
        requires
            total_n == n0 * n0 + n1 * n1 + n2 * n2,
    ;
    assert(ss * total_v <= ss * ll && ll * total_n <= ll * (ss + 19 * s)) by (nonlinear_arith)
        requires
            total_v <= ll,
            total_n <= ss + 19 * s,
            ss >= 0,
            ll >= 0,
    ;
    let most = ss * ll + ll * (ss + 19 * s);
    assert(-most <= 2 * (sl * t) <= most);
    let cap = l * (s + 10);
    assert(2 * (sl * cap) > most) by (nonlinear_arith)
        requires
            cap == l * (s + 10),
            sl == s * l,
            most == ss * ll + ll * (ss + 19 * s),
            ss == s * s,
            ll == l * l,
            l >= 1,
            s >= 1,
    ;
    assert(-cap <= t <= cap) by (nonlinear_arith)
        requires
            -most <= 2 * (sl * t) <= most,
            2 * (sl * cap) > most,
            sl >= 1,
    ;
    assert(cap + 3 * s <= s * (w * (s + 13))) by (nonlinear_arith)
        requires
            cap == l * (s + 10),
            l == w * s,
            w >= 1,
            s >= 1,
    ;
    assert(-(w * (s + 13)) <= d <= w * (s + 13)) by (nonlinear_arith)
        requires
            -(s * (w * (s + 13))) < s * d < s * (w * (s + 13)),
            s >= 1,
    ;
}

/// One component of a long vector moved along a normal: as
/// `lemma_moved_component`, for a component of up to `w s` and a factor `k`
/// of up to `2 w (s + 13)`, with a rounding term of at most `9 w s^3`.
proof fn lemma_long_component(v: int, n: int, k: int, g: int, s: int, w: int) -> (err: int)
    requires
        s >= 1024,
        w >= 1,
        -s < k * n - s * g < s,
        -(w * s) <= v <= w * s,
        -(s + 9) <= n <= s + 9,
        -(2 * (w * (s + 13))) <= k <= 2 * (w * (s + 13)),
    ensures
        s * s * ((v - g) * (v - g)) - s * s * (v * v) == (k * k) * (n * n) - 2 * ((s * k) * (v
            * n)) + err,
        -9 * (w * (s * s * s)) <= err <= 9 * (w * (s * s * s)),
{
    let a = s * v;
    let b = k * n;
    let e = b - s * g;
    let y = a - b;
    let r = v - g;
    let ss = s * s;
    let s3 = s * s * s;
    assert(s * r == y + e) by (nonlinear_arith)
        requires
            r == v - g,
            e == b - s * g,
            y == s * v - b,
    ;
    assert(s * s * (r * r) == (s * r) * (s * r)) by (nonlinear_arith);
    assert((y + e) * (y + e) == y * y + 2 * (y * e) + e * e) by (nonlinear_arith);
    assert(y * y == a * a - 2 * (a * b) + b * b) by (nonlinear_arith)
        requires
            y == a - b,
    ;
    assert(a * a == s * s * (v * v)) by (nonlinear_arith)
        requires
            a == s * v,
    ;
    assert(a * b == (s * k) * (v * n)) by (nonlinear_arith)
        requires
            a == s * v,
            b == k * n,
    ;
    assert(b * b == (k * k) * (n * n)) by (nonlinear_arith)
        requires
            b == k * n,
    ;
    let err = 2 * (y * e) + e * e;
    lemma_product_bound(s, v, s, w * s);
    lemma_product_bound(k, n, 2 * (w * (s + 13)), s + 9);
    let bound_sv = s * (w * s);
    let bound_kn = (2 * (w * (s + 13))) * (s + 9);
    let lim = 4 * (w * ss);
    assert(bound_sv + bound_kn <= lim) by (nonlinear_arith)
        requires
            bound_sv == s * (w * s),
            bound_kn == (2 * (w * (s + 13))) * (s + 9),
            lim == 4 * (w * ss),
            ss == s * s,
            s >= 1024,
            w >= 1,
    ;
    assert(-lim <= y <= lim) by {
        assert(y == a - b);
        assert(-bound_sv <= a <= bound_sv);
        assert(-bound_kn <= b <= bound_kn);
    }
    lemma_product_bound(y, e, lim, s);
    lemma_product_bound(e, e, s, s);
    assert(lim * s == 4 * (w * s3) && ss <= w * s3) by (nonlinear_arith)
        requires
            lim == 4 * (w * ss),
            ss == s * s,
            s3 == s * s * s,
            w >= 1,
            s >= 1,
    ;
    err
}

/// Reflection of a long vector about a unit normal keeps the sum of
/// squares, up to rounding: as `lemma_reflected_sum`, for a vector of length
/// at most `w`, with a difference of at most `(80 w^2 + 43 w) s`.
proof fn lemma_long_reflected_sum(
    v0: int,
    v1: int,
    v2: int,
    n0: int,
    n1: int,
    n2: int,
    m0: int,
    m1: int,
    m2: int,
    g0: int,
    g1: int,
    g2: int,
    s: int,
    w: int,
)
    requires
        s >= 1024,
        w >= 1,
        -s < v0 * n0 - s * m0 < s,
        -s < v1 * n1 - s * m1 < s,
        -s < v2 * n2 - s * m2 < s,
        -s < (2 * (m0 + m1 + m2)) * n0 - s * g0 < s,
        -s < (2 * (m0 + m1 + m2)) * n1 - s * g1 < s,
        -s < (2 * (m0 + m1 + m2)) * n2 - s * g2 < s,
        sum_sq(v0, v1, v2) <= (w * s) * (w * s),
        s * s - 19 * s <= sum_sq(n0, n1, n2) <= s * s + 19 * s,
    ensures
        -((80 * (w * w) + 43 * w) * s) <= sum_sq(v0 - g0, v1 - g1, v2 - g2) - sum_sq(v0, v1, v2)
            <= (80 * (w * w) + 43 * w) * s,
{
    let d = m0 + m1 + m2;
    let t = v0 * n0 + v1 * n1 + v2 * n2;
    let rho = t - s * d;
    let ss = s * s;
    let s3 = s * s * s;
    let eta = sum_sq(n0, n1, n2) - ss;
    lemma_long_dot_bound(v0, v1, v2, n0, n1, n2, m0, m1, m2, s, w);
    assert(n0 * n0 >= 0 && n1 * n1 >= 0 && n2 * n2 >= 0) by (nonlinear_arith);
    lemma_root_bound(n0, s);
    lemma_root_bound(n1, s);
    lemma_root_bound(n2, s);
    let k = 2 * d;
    let err0 = lemma_long_component(v0, n0, k, g0, s, w);
    let err1 = lemma_long_component(v1, n1, k, g1, s, w);
    let err2 = lemma_long_component(v2, n2, k, g2, s, w);
    let sd = s * d;
    let dd = d * d;
    let sk = s * k;
    let kk = k * k;
    let delta = sum_sq(v0 - g0, v1 - g1, v2 - g2) - sum_sq(v0, v1, v2);
    assert(ss * delta == s * s * ((v0 - g0) * (v0 - g0)) - s * s * (v0 * v0) + (s * s * ((v1
        - g1) * (v1 - g1)) - s * s * (v1 * v1)) + (s * s * ((v2 - g2) * (v2 - g2)) - s * s * (v2
        * v2))) by (nonlinear_arith)
        requires
            ss == s * s,
            delta == (v0 - g0) * (v0 - g0) + (v1 - g1) * (v1 - g1) + (v2 - g2) * (v2 - g2) - (v0
                * v0 + v1 * v1 + v2 * v2),
    ;
    assert(sk * (v0 * n0) + sk * (v1 * n1) + sk * (v2 * n2) == sk * t) by (nonlinear_arith)
        requires
            t == v0 * n0 + v1 * n1 + v2 * n2,
    ;
    assert(kk * (n0 * n0) + kk * (n1 * n1) + kk * (n2 * n2) == kk * (ss + eta))
        by (nonlinear_arith)
        requires
            ss + eta == n0 * n0 + n1 * n1 + n2 * n2,
    ;
    assert(sk == 2 * sd && kk == 4 * dd) by (nonlinear_arith)
        requires
            k == 2 * d,
            sk == s * k,
            kk == k * k,
            sd == s * d,
            dd == d * d,
    ;
    assert(sd * t == dd * ss + sd * rho) by (nonlinear_arith)
        requires
            t == s * d + rho,
            sd == s * d,
            dd == d * d,
            ss == s * s,
    ;
    assert(dd * (ss + eta) == dd * ss + dd * eta) by (nonlinear_arith);
    assert(sk * t == 2 * (sd * t) && kk * (ss + eta) == 4 * (dd * (ss + eta)))
        by (nonlinear_arith)
        requires
            sk == 2 * sd,
            kk == 4 * dd,
    ;
    assert(ss * delta == -4 * (sd * rho) + 4 * (dd * eta) + err0 + err1 + err2);
    // bounds on the two remaining terms
    let most = w * (s + 13);
    lemma_product_bound(s, d, s, most);
    lemma_product_bound(sd, rho, s * most, 3 * s);
    lemma_product_bound(d, d, most, most);
    lemma_product_bound(dd, eta, most * most, 19 * s);
    let ww = w * w;
    assert((s * most) * (3 * s) <= 4 * (w * s3) && (most * most) * (19 * s) <= 20 * (ww * s3))
        by (nonlinear_arith)
        requires
            most == w * (s + 13),
            ww == w * w,
            s3 == s * s * s,
            s >= 1024,
            w >= 1,
    ;
    assert(w * s3 >= 0 && ww * s3 >= 0) by (nonlinear_arith)
        requires
            s3 == s * s * s,
            ww == w * w,
            s >= 1,
            w >= 1,
    ;
    // 4 * 4 + 3 * 9 = 43 and 4 * 20 = 80
    let bound = 80 * ww + 43 * w;
    assert(bound * s3 == 80 * (ww * s3) + 43 * (w * s3)) by (nonlinear_arith)
        requires
            bound == 80 * ww + 43 * w,
    ;
    assert(-(bound * s3) <= ss * delta <= bound * s3);
    assert(-(bound * s) <= delta <= bound * s) by (nonlinear_arith)
        requires
            -(bound * s3) <= ss * delta <= bound * s3,
            ss == s * s,
            s3 == s * s * s,
            s >= 1,
            bound >= 0,
    ;
}

/// Reflection preserves the length of any vector, up to rounding: about a
/// normal of nearly unit length, the computed squared length of the mirror
/// image of a vector of length at most `w`, for some `w` from 1 to 8192,
/// differs from that of the vector by at most `80 w^2 + 43 w + 3` units of
/// the last place: a share of about `80 * 2^-24` of the largest squared
/// length admitted.
#[verifier::rlimit(60)]
pub proof fn lemma_reflect_keeps_any_length(v: Vec3, n: Vec3, w: int)
    requires
        1 <= w <= 8192,
        raw_sum_sq(v) <= (w * ONE_RAW) * (w * ONE_RAW),
        nearly_unit(n),
    ensures
        -(80 * (w * w) + 43 * w + 3) <= length_squared_spec(reflect_spec(v, n))@
            - length_squared_spec(v)@ <= 80 * (w * w) + 43 * w + 3,
{
    let s = ONE_RAW as int;
    lemma_nearly_unit_sum(n);
    assert(n.0@ * n.0@ >= 0 && n.1@ * n.1@ >= 0 && n.2@ * n.2@ >= 0) by (nonlinear_arith);
    assert(v.0@ * v.0@ >= 0 && v.1@ * v.1@ >= 0 && v.2@ * v.2@ >= 0) by (nonlinear_arith);
    lemma_root_bound(n.0@, s);
    lemma_root_bound(n.1@, s);
    lemma_root_bound(n.2@, s);
    let l = w * s;
    assert(0 <= l <= 0x20_0000_0000) by (nonlinear_arith)
        requires
            l == w * s,
            1 <= w <= 8192,
            s == 0x100_0000,
    ;
    lemma_magnitude_below(v.0@, l);
    lemma_magnitude_below(v.1@, l);
    lemma_magnitude_below(v.2@, l);
    lemma_product_rounds_to_zero(v.0, n.0);
    lemma_product_rounds_to_zero(v.1, n.1);
    lemma_product_rounds_to_zero(v.2, n.2);
    let m0 = fx_mul(v.0, n.0)@;
    let m1 = fx_mul(v.1, n.1)@;
    let m2 = fx_mul(v.2, n.2)@;
    let dot = dot_spec(v, n);
    let d = m0 + m1 + m2;
    lemma_long_dot_bound(v.0@, v.1@, v.2@, n.0@, n.1@, n.2@, m0, m1, m2, s, w);
    assert(dot@ == d);
    let most = w * (s + 13);
    assert(0 <= most <= 0x20_0002_0000) by (nonlinear_arith)
        requires
            most == w * (s + 13),
            1 <= w <= 8192,
            s == 0x100_0000,
    ;
    // twice the product is exact
    let two = fx(2 * ONE_RAW);
    let k = fx_mul(two, dot);
    lemma_product_rounds_to_zero(two, dot);
    assert(k@ == 2 * d) by (nonlinear_arith)
        requires
            -s < (2 * s) * d - s * k@ < s,
            s > 0,
    ;
    lemma_product_rounds_to_zero(n.0, k);
    lemma_product_rounds_to_zero(n.1, k);
    lemma_product_rounds_to_zero(n.2, k);
    let g = v_scale(n, k);
    assert(n.0@ * k@ == (2 * d) * n.0@ && n.1@ * k@ == (2 * d) * n.1@ && n.2@ * k@ == (2 * d)
        * n.2@) by (nonlinear_arith)
        requires
            k@ == 2 * d,
    ;
    lemma_long_reflected_sum(
        v.0@,
        v.1@,
        v.2@,
        n.0@,
        n.1@,
        n.2@,
        m0,
        m1,
        m2,
        g.0@,
        g.1@,
        g.2@,
        s,
        w,
    );
    // the components stay small
    lemma_product_bound(n.0@, k@, s + 9, 2 * most);
    lemma_product_bound(n.1@, k@, s + 9, 2 * most);
    lemma_product_bound(n.2@, k@, s + 9, 2 * most);
    assert((s + 9) * (2 * most) <= 3 * (l * s)) by (nonlinear_arith)
        requires
            most == w * (s + 13),
            l == w * s,
            s >= 1024,
            w >= 1,
    ;
    assert(-(3 * l + 1) <= g.0@ <= 3 * l + 1 && -(3 * l + 1) <= g.1@ <= 3 * l + 1 && -(3 * l + 1)
        <= g.2@ <= 3 * l + 1) by (nonlinear_arith)
        requires
            -s < n.0@ * k@ - s * g.0@ < s,
            -s < n.1@ * k@ - s * g.1@ < s,
            -s < n.2@ * k@ - s * g.2@ < s,
            -(3 * (l * s)) <= n.0@ * k@ <= 3 * (l * s),
            -(3 * (l * s)) <= n.1@ * k@ <= 3 * (l * s),
            -(3 * (l * s)) <= n.2@ * k@ <= 3 * (l * s),
            s >= 1,
    ;
    let r = reflect_spec(v, n);
    assert(r == v_sub(v, g));
    assert(r.0@ == v.0@ - g.0@ && r.1@ == v.1@ - g.1@ && r.2@ == v.2@ - g.2@);
    lemma_square_rounds_down(r.0);
    lemma_square_rounds_down(r.1);
    lemma_square_rounds_down(r.2);
    lemma_square_rounds_down(v.0);
    lemma_square_rounds_down(v.1);
    lemma_square_rounds_down(v.2);
    let after = length_squared_spec(r)@;
    assert(after == fx_mul(r.0, r.0)@ + fx_mul(r.1, r.1)@ + fx_mul(r.2, r.2)@);
    let before = length_squared_spec(v)@;
    assert(before == fx_mul(v.0, v.0)@ + fx_mul(v.1, v.1)@ + fx_mul(v.2, v.2)@);
    let bound = 80 * (w * w) + 43 * w;
    assert(after * s <= sum_sq(r.0@, r.1@, r.2@) < after * s + 3 * s);
    assert(before * s <= sum_sq(v.0@, v.1@, v.2@) < before * s + 3 * s);
    assert((bound + 3) * s == bound * s + 3 * s) by (nonlinear_arith);
    assert(-((bound + 3) * s) < after * s - before * s < (bound + 3) * s);
    assert(-(bound + 3) < after - before < bound + 3) by (nonlinear_arith)
        requires
            -((bound + 3) * s) < after * s - before * s < (bound + 3) * s,
            s > 0,
    ;
}

/// Two vectors are parallel: their cross product is zero.
pub open spec fn parallel(d0: int, d1: int, d2: int, o0: int, o1: int, o2: int) -> bool {
    &&& d0 * o1 == d1 * o0
    &&& d0 * o2 == d2 * o0
    &&& d1 * o2 == d2 * o1
}

/// Parallel vectors whose product is not positive point against each other
/// in every component.
pub proof fn lemma_aimed_signs(d0: int, d1: int, d2: int, o0: int, o1: int, o2: int)
    requires
        parallel(d0, d1, d2, o0, o1, o2),
        d0 * o0 + d1 * o1 + d2 * o2 <= 0,
    ensures
        d0 * o0 <= 0,
        d1 * o1 <= 0,
        d2 * o2 <= 0,
{
    let (a, b, c) = (d0 * o0, d1 * o1, d2 * o2);
    assert(a * b == (d0 * o1) * (d1 * o0) && a * c == (d0 * o2) * (d2 * o0) && b * c == (d1 * o2)
        * (d2 * o1)) by (nonlinear_arith)
        requires
            a == d0 * o0,
            b == d1 * o1,
            c == d2 * o2,
    ;
    assert((d0 * o1) * (d0 * o1) >= 0 && (d0 * o2) * (d0 * o2) >= 0 && (d1 * o2) * (d1 * o2)
        >= 0) by (nonlinear_arith);
    assert(a * b >= 0 && a * c >= 0 && b * c >= 0);
    assert(a <= 0 && b <= 0 && c <= 0) by (nonlinear_arith)
        requires
            a * b >= 0,
            a * c >= 0,
            b * c >= 0,
            a + b + c <= 0,
    ;
}

/// Along a ray aimed at a point, no component runs past the point before
/// the ray has reached it: for parallel `d` and `o`, with `a = |d|^2`,
/// `h = d . o <= 0` and `0 <= t a <= -h s`, every `(d t)^2` is at most
/// `(o s)^2`.
pub proof fn lemma_aimed_steps(
    d0: int,
    d1: int,
    d2: int,
    o0: int,
    o1: int,
    o2: int,
    t: int,
    s: int,
)
    requires
        parallel(d0, d1, d2, o0, o1, o2),
        s >= 1,
        t >= 0,
        sum_sq(d0, d1, d2) >= 1,
        t * sum_sq(d0, d1, d2) <= -((d0 * o0 + d1 * o1 + d2 * o2) * s),
    ensures
        (d0 * t) * (d0 * t) <= (o0 * s) * (o0 * s),
        (d1 * t) * (d1 * t) <= (o1 * s) * (o1 * s),
        (d2 * t) * (d2 * t) <= (o2 * s) * (o2 * s),
{
    let a = sum_sq(d0, d1, d2);
    let h = d0 * o0 + d1 * o1 + d2 * o2;
    // d_i h = a o_i
    lemma_parallel_row(d0, d1, d2, o0, o1, o2);
    lemma_parallel_row(d1, d0, d2, o1, o0, o2);
    lemma_parallel_row(d2, d0, d1, o2, o0, o1);
    let ta = t * a;
    let hs = -(h * s);
    assert(ta >= 0) by (nonlinear_arith)
        requires
            ta == t * a,
            t >= 0,
            a >= 1,
    ;
    lemma_square_le(ta, hs);
    lemma_aimed_step(d0, o0, t, s, a, h, ta, hs);
    lemma_aimed_step(d1, o1, t, s, a, h, ta, hs);
    lemma_aimed_step(d2, o2, t, s, a, h, ta, hs);
}

/// For parallel `(d, e, f)` and `(o, p, q)`, the product of the vectors
/// times `d` is the squared length of the first times `o`.
proof fn lemma_parallel_row(d: int, e: int, f: int, o: int, p: int, q: int)
    requires
        d * p == e * o,
        d * q == f * o,
    ensures
        d * (d * o + e * p + f * q) == (d * d + e * e + f * f) * o,
{
    let (x, y, z) = (d * o, e * p, f * q);
    assert(d * (x + y + z) == d * x + d * y + d * z) by (nonlinear_arith);
    assert(d * x == (d * d) * o) by (nonlinear_arith)
        requires
            x == d * o,
    ;
    assert(d * y == e * (d * p)) by (nonlinear_arith)
        requires
            y == e * p,
    ;
    assert(e * (e * o) == (e * e) * o) by (nonlinear_arith);
    assert(d * z == f * (d * q)) by (nonlinear_arith)
        requires
            z == f * q,
    ;
    assert(f * (f * o) == (f * f) * o) by (nonlinear_arith);
    assert((d * d + e * e + f * f) * o == (d * d) * o + (e * e) * o + (f * f) * o)
        by (nonlinear_arith);
}

/// One component of `lemma_aimed_steps`.
proof fn lemma_aimed_step(d: int, o: int, t: int, s: int, a: int, h: int, ta: int, hs: int)
    requires
        a >= 1,
        d * h == a * o,
        ta == t * a,
        hs == -(h * s),
        ta * ta <= hs * hs,
    ensures
        (d * t) * (d * t) <= (o * s) * (o * s),
{
    let dt = d * t;
    let os = o * s;
    let dd = d * d;
    let aa = a * a;
    assert(dd >= 0 && aa >= 1) by (nonlinear_arith)
        requires
            dd == d * d,
            aa == a * a,
            a >= 1,
    ;
    assert(dd * (ta * ta) <= dd * (hs * hs)) by (nonlinear_arith)
        requires
            ta * ta <= hs * hs,
            dd >= 0,
    ;
    assert(dd * (ta * ta) == aa * (dt * dt)) by (nonlinear_arith)
        requires
            dd == d * d,
            ta == t * a,
            aa == a * a,
            dt == d * t,
    ;
    let dh = d * h;
    assert(dd * (hs * hs) == (dh * s) * (dh * s)) by (nonlinear_arith)
        requires
            dd == d * d,
            hs == -(h * s),
            dh == d * h,
    ;
    assert((dh * s) * (dh * s) == aa * (os * os)) by (nonlinear_arith)
        requires
            dh == a * o,
            os == o * s,
            aa == a * a,
    ;
    assert(dt * dt <= os * os) by (nonlinear_arith)
        requires
            aa * (dt * dt) <= aa * (os * os),
            aa >= 1,
    ;
}

/// One component of a point on a ray aimed at the centre, seen from the
/// centre: with `g` the rounded `d t / s` and `x = o + g`, the component
/// lies between zero and `o`, so that it does not point along `d`.
pub proof fn lemma_aimed_component(d: int, o: int, g: int, t: int, s: int)
    requires
        s >= 1,
        t >= 0,
        d * o <= 0,
        (d * t) * (d * t) <= (o * s) * (o * s),
        d * t >= 0 ==> 0 <= g && g * s <= d * t,
        d * t <= 0 ==> g <= 0 && d * t <= g * s,
    ensures
        o >= 0 ==> 0 <= o + g <= o,
        o <= 0 ==> o <= o + g <= 0,
        d * (o + g) <= 0,
{
    let dt = d * t;
    let os = o * s;
    if o > 0 {
        assert(d <= 0) by (nonlinear_arith)
            requires
                d * o <= 0,
                o > 0,
        ;
        assert(dt <= 0 && os > 0) by (nonlinear_arith)
            requires
                dt == d * t,
                os == o * s,
                d <= 0,
                t >= 0,
                o > 0,
                s >= 1,
        ;
        if -dt > os {
            lemma_square_lt(os, -dt);
            assert((-dt) * (-dt) == dt * dt) by (nonlinear_arith);
        }
        assert(g >= -o) by (nonlinear_arith)
            requires
                g * s >= dt,
                dt >= -os,
                os == o * s,
                s >= 1,
        ;
        assert(d * (o + g) <= 0) by (nonlinear_arith)
            requires
                d <= 0,
                o + g >= 0,
        ;
    } else if o < 0 {
        assert(d >= 0) by (nonlinear_arith)
            requires
                d * o <= 0,
                o < 0,
        ;
        assert(dt >= 0 && os < 0) by (nonlinear_arith)
            requires
                dt == d * t,
                os == o * s,
                d >= 0,
                t >= 0,
                o < 0,
                s >= 1,
        ;
        if dt > -os {
            lemma_square_lt(-os, dt);
            assert((-os) * (-os) == os * os) by (nonlinear_arith);
        }
        assert(g <= -o) by (nonlinear_arith)
            requires
                g * s <= dt,
                dt <= -os,
                os == o * s,
                s >= 1,
        ;
        assert(d * (o + g) <= 0) by (nonlinear_arith)
            requires
                d >= 0,
                o + g <= 0,
        ;
    } else {
        assert(os == 0) by (nonlinear_arith)
            requires
                os == o * s,
                o == 0,
        ;
        assert(dt == 0) by (nonlinear_arith)
            requires
                dt * dt <= os * os,
                os == 0,
        ;
        assert(g == 0) by (nonlinear_arith)
            requires
                0 <= g && g * s <= 0 || g <= 0 && 0 <= g * s,
                s >= 1,
        ;
        assert(d * (o + g) == 0) by (nonlinear_arith)
            requires
                o + g == 0,
        ;
    }
}

/// A component of the direction that meets a large component of the normal:
/// where the component `n` of the outward normal is at least a quarter long
/// and the direction, of length at least one, is parallel to the line from
/// the centre to the hit point, the product `d n` is at most `-s`.
pub proof fn lemma_aimed_strict(
    d: int,
    x: int,
    exact: int,
    n: int,
    a: int,
    total: int,
    s: int,
    rr: int,
)
    requires
        s >= 1024,
        rr >= 16,
        a >= s * s,
        d * n <= 0,
        4 * abs(n) >= s,
        abs(n) * rr <= abs(x) * s,
        -s < exact - s * x < s,
        (d * d) * total == (exact * exact) * a,
        0 <= total <= 12 * ((s * rr) * (s * rr)),
    ensures
        d * n <= -s,
{
    let srr = s * rr;
    let big_x = abs(exact);
    assert(srr >= 16 * s) by (nonlinear_arith)
        requires
            srr == s * rr,
            rr >= 16,
            s >= 1,
    ;
    // the point is at least a quarter of the radius from the centre in this component
    assert(4 * (abs(x) * s) >= srr) by (nonlinear_arith)
        requires
            abs(n) * rr <= abs(x) * s,
            4 * abs(n) >= s,
            srr == s * rr,
            rr >= 1,
    ;
    assert(s * abs(x) == abs(s * x)) by (nonlinear_arith)
        requires
            s >= 1,
    ;
    assert(abs(x) * s == s * abs(x)) by (nonlinear_arith);
    assert(8 * big_x >= srr);
    assert(big_x * big_x == exact * exact) by (nonlinear_arith)
        requires
            big_x == abs(exact),
    ;
    lemma_square_le(srr, 8 * big_x);
    assert((8 * big_x) * (8 * big_x) == 64 * (exact * exact)) by (nonlinear_arith)
        requires
            big_x * big_x == exact * exact,
    ;
    // so the direction is not short in this component
    let dd = d * d;
    let sq = srr * srr;
    let ss = s * s;
    assert(dd >= 0 && sq >= 1 && ss >= 1) by (nonlinear_arith)
        requires
            dd == d * d,
            sq == srr * srr,
            ss == s * s,
            srr >= 1,
            s >= 1,
    ;
    assert(dd * total <= dd * (12 * sq)) by (nonlinear_arith)
        requires
            total <= 12 * sq,
            dd >= 0,
    ;
    assert((exact * exact) * a >= (exact * exact) * ss) by (nonlinear_arith)
        requires
            a >= ss,
            exact * exact >= 0,
    ;
    assert(64 * ((exact * exact) * ss) >= sq * ss) by (nonlinear_arith)
        requires
            64 * (exact * exact) >= sq,
            ss >= 0,
    ;
    assert(dd * (12 * sq) == 12 * (dd * sq)) by (nonlinear_arith);
    assert(64 * (12 * (dd * sq)) >= 64 * ((exact * exact) * ss));
    assert(768 * (dd * sq) >= sq * ss);
    assert(768 * dd >= ss) by (nonlinear_arith)
        requires
            768 * (dd * sq) >= sq * ss,
            sq >= 1,
    ;
    let size = abs(d);
    assert(size * size == dd) by (nonlinear_arith)
        requires
            size == abs(d),
            dd == d * d,
    ;
    if 28 * size < s {
        lemma_square_lt(28 * size, s);
        assert((28 * size) * (28 * size) == 784 * (size * size)) by (nonlinear_arith);
    }
    assert(28 * size >= s);
    assert(size * abs(n) >= s) by (nonlinear_arith)
        requires
            28 * size >= s,
            4 * abs(n) >= s,
            s >= 1024,
    ;
    assert(d * n == -(size * abs(n))) by (nonlinear_arith)
        requires
            d * n <= 0,
            size == abs(d),
    ;
}

/// The exact scaled point on a ray aimed at the centre is parallel to the
/// direction: with `e_i = s o_i + d_i t` for parallel `d` and `o`, each
/// `d_i^2 |e|^2` is `e_i^2 |d|^2`.
pub proof fn lemma_exact_point_parallel(
    d0: int,
    d1: int,
    d2: int,
    o0: int,
    o1: int,
    o2: int,
    t: int,
    s: int,
)
    requires
        parallel(d0, d1, d2, o0, o1, o2),
    ensures
        (d0 * d0) * sum_sq(s * o0 + d0 * t, s * o1 + d1 * t, s * o2 + d2 * t) == ((s * o0 + d0 * t)
            * (s * o0 + d0 * t)) * sum_sq(d0, d1, d2),
        (d1 * d1) * sum_sq(s * o0 + d0 * t, s * o1 + d1 * t, s * o2 + d2 * t) == ((s * o1 + d1 * t)
            * (s * o1 + d1 * t)) * sum_sq(d0, d1, d2),
        (d2 * d2) * sum_sq(s * o0 + d0 * t, s * o1 + d1 * t, s * o2 + d2 * t) == ((s * o2 + d2 * t)
            * (s * o2 + d2 * t)) * sum_sq(d0, d1, d2),
{
    let (e0, e1, e2) = (s * o0 + d0 * t, s * o1 + d1 * t, s * o2 + d2 * t);
    lemma_exact_pair(d0, d1, o0, o1, t, s);
    lemma_exact_pair(d0, d2, o0, o2, t, s);
    lemma_exact_pair(d1, d2, o1, o2, t, s);
    lemma_exact_pair(d1, d0, o1, o0, t, s);
    lemma_exact_pair(d2, d0, o2, o0, t, s);
    lemma_exact_pair(d2, d1, o2, o1, t, s);
    lemma_exact_row(d0, d1, d2, e0, e1, e2);
    lemma_exact_row(d1, d0, d2, e1, e0, e2);
    lemma_exact_row(d2, d0, d1, e2, e0, e1);
}

/// Two components of the exact scaled point of `lemma_exact_point_parallel`.
proof fn lemma_exact_pair(d: int, e: int, o: int, p: int, t: int, s: int)
    requires
        d * p == e * o,
    ensures
        ((s * p + e * t) * d) * ((s * p + e * t) * d) == ((s * o + d * t) * e) * ((s * o + d * t)
            * e),
{
    let x = s * p + e * t;
    let y = s * o + d * t;
    assert(x * d == s * (d * p) + (d * e) * t) by (nonlinear_arith)
        requires
            x == s * p + e * t,
    ;
    assert(y * e == s * (e * o) + (d * e) * t) by (nonlinear_arith)
        requires
            y == s * o + d * t,
    ;
}

/// One row of `lemma_exact_point_parallel`.
proof fn lemma_exact_row(d: int, e: int, f: int, x: int, y: int, z: int)
    requires
        (y * d) * (y * d) == (x * e) * (x * e),
        (z * d) * (z * d) == (x * f) * (x * f),
    ensures
        (d * d) * sum_sq(x, y, z) == (x * x) * sum_sq(d, e, f),
{
    let dd = d * d;
    let xx = x * x;
    assert((y * d) * (y * d) == dd * (y * y) && (x * e) * (x * e) == xx * (e * e))
        by (nonlinear_arith)
        requires
            dd == d * d,
            xx == x * x,
    ;
    assert((z * d) * (z * d) == dd * (z * z) && (x * f) * (x * f) == xx * (f * f))
        by (nonlinear_arith)
        requires
            dd == d * d,
            xx == x * x,
    ;
    assert(dd * xx == xx * dd) by (nonlinear_arith);
    assert(dd * sum_sq(x, y, z) == dd * xx + dd * (y * y) + dd * (z * z)) by (nonlinear_arith)
        requires
            xx == x * x,
    ;
    assert(xx * sum_sq(d, e, f) == xx * dd + xx * (e * e) + xx * (f * f)) by (nonlinear_arith)
        requires
            dd == d * d,
    ;
}

/// A number that has the sign of `x` does not point along `d` where `x`
/// does not.
pub proof fn lemma_sign_carries(d: int, x: int, n: int)
    requires
        d * x <= 0,
        x >= 0 ==> n >= 0,
        x <= 0 ==> n <= 0,
    ensures
        d * n <= 0,
{
    if x > 0 {
        assert(d <= 0) by (nonlinear_arith)
            requires
                d * x <= 0,
                x > 0,
        ;
        assert(d * n <= 0) by (nonlinear_arith)
            requires
                d <= 0,
                n >= 0,
        ;
    } else if x < 0 {
        assert(d >= 0) by (nonlinear_arith)
            requires
                d * x <= 0,
                x < 0,
        ;
        assert(d * n <= 0) by (nonlinear_arith)
            requires
                d >= 0,
                n <= 0,
        ;
    } else {
        assert(d * n == 0) by (nonlinear_arith)
            requires
                n == 0,
        ;
    }
}

} // verus!
