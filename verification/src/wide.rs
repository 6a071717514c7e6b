//! Unsigned numbers of 256 bits, as far as exact products of 128-bit numbers
//! and their roots and quotients need them.

use crate::fixed::{is_isqrt, LIMIT_RAW};
use vstd::arithmetic::div_mod::lemma_fundamental_div_mod_converse;
use vstd::prelude::*;

verus! {

/// The number `hi * 2^128 + lo`.
#[derive(Clone, Copy, Debug)]
pub struct Wide {
    pub hi: u128,
    pub lo: u128,
}

impl View for Wide {
    type V = int;

    open spec fn view(&self) -> int {
        self.hi * 0x1_0000_0000_0000_0000_0000_0000_0000_0000 + self.lo
    }
}

/// The exact product of two 128-bit numbers.
pub(crate) fn wide_mul(a: u128, b: u128) -> (w: Wide)
    ensures
        w@ == a * b,
{
    let ah: u128 = a / 0x1_0000_0000_0000_0000;
    let al: u128 = a % 0x1_0000_0000_0000_0000;
    let bh: u128 = b / 0x1_0000_0000_0000_0000;
    let bl: u128 = b % 0x1_0000_0000_0000_0000;
    assert(al * bl <= 0xffff_ffff_ffff_fffe_0000_0000_0000_0001 && al * bh
        <= 0xffff_ffff_ffff_fffe_0000_0000_0000_0001 && ah * bl
        <= 0xffff_ffff_ffff_fffe_0000_0000_0000_0001 && ah * bh
        <= 0xffff_ffff_ffff_fffe_0000_0000_0000_0001) by (nonlinear_arith)
        requires
            0 <= al <= 0xffff_ffff_ffff_ffff,
            0 <= bl <= 0xffff_ffff_ffff_ffff,
            0 <= ah <= 0xffff_ffff_ffff_ffff,
            0 <= bh <= 0xffff_ffff_ffff_ffff,
    ;
    let p0: u128 = al * bl;
    let p1: u128 = al * bh;
    let p2: u128 = ah * bl;
    let p3: u128 = ah * bh;
    let mid: u128 = p0 / 0x1_0000_0000_0000_0000 + p1 % 0x1_0000_0000_0000_0000 + p2
        % 0x1_0000_0000_0000_0000;
    let lo: u128 = (mid % 0x1_0000_0000_0000_0000) * 0x1_0000_0000_0000_0000 + p0
        % 0x1_0000_0000_0000_0000;
    let hi: u128 = p3 + p1 / 0x1_0000_0000_0000_0000 + p2 / 0x1_0000_0000_0000_0000 + mid
        / 0x1_0000_0000_0000_0000;
    proof {
        let base = 0x1_0000_0000_0000_0000int;
        assert(a * b == (ah * bh) * (base * base) + (al * bh + ah * bl) * base + al * bl)
            by (nonlinear_arith)
            requires
                a == ah * base + al,
                b == bh * base + bl,
        ;
        let square = 0x1_0000_0000_0000_0000_0000_0000_0000_0000int;
        assert(base * base == square);
        assert(a * b == p3 * square + (p1 + p2) * base + p0);
        assert((p1 + p2) * base == p1 * base + p2 * base) by (nonlinear_arith);
        let (q0, r0) = (p0 as int / base, p0 as int % base);
        let (q1, r1) = (p1 as int / base, p1 as int % base);
        let (q2, r2) = (p2 as int / base, p2 as int % base);
        let (qm, rm) = (mid as int / base, mid as int % base);
        assert(p0 == q0 * base + r0 && p1 == q1 * base + r1 && p2 == q2 * base + r2 && mid == qm
            * base + rm);
        assert(p1 * base == q1 * square + r1 * base && p2 * base == q2 * square + r2 * base && mid
            * base == qm * square + rm * base) by (nonlinear_arith)
            requires
                p1 == q1 * base + r1,
                p2 == q2 * base + r2,
                mid == qm * base + rm,
                square == base * base,
        ;
        assert(mid * base == q0 * base + r1 * base + r2 * base) by (nonlinear_arith)
            requires
                mid == q0 + r1 + r2,
        ;
        assert(hi * square == p3 * square + q1 * square + q2 * square + qm * square)
            by (nonlinear_arith)
            requires
                hi == p3 + q1 + q2 + qm,
        ;
        assert(lo == rm * base + r0);
    }
    Wide { hi, lo }
}

/// Whether `a` is at most `b`.
pub(crate) fn wide_le(a: &Wide, b: &Wide) -> (r: bool)
    ensures
        r == (a@ <= b@),
{
    a.hi < b.hi || (a.hi == b.hi && a.lo <= b.lo)
}

/// The sum of two numbers that is known to fit.
pub(crate) fn wide_add(a: &Wide, b: &Wide) -> (w: Wide)
    requires
        a.hi + b.hi + 1 <= u128::MAX,
    ensures
        w@ == a@ + b@,
{
    if a.lo > u128::MAX - b.lo {
        Wide { hi: a.hi + b.hi + 1, lo: a.lo - (u128::MAX - b.lo) - 1 }
    } else {
        Wide { hi: a.hi + b.hi, lo: a.lo + b.lo }
    }
}

/// The difference of two numbers, the second of which is not the larger.
pub(crate) fn wide_sub(a: &Wide, b: &Wide) -> (w: Wide)
    requires
        b@ <= a@,
    ensures
        w@ == a@ - b@,
{
    if a.lo >= b.lo {
        Wide { hi: a.hi - b.hi, lo: a.lo - b.lo }
    } else {
        Wide { hi: a.hi - b.hi - 1, lo: u128::MAX - b.lo + a.lo + 1 }
    }
}

/// The integer square root of a number below `2^252`, found by bisection.
pub(crate) fn wide_isqrt(n: &Wide) -> (r: u128)
    requires
        n.hi < 0x1000_0000_0000_0000_0000_0000_0000_0000,
    ensures
        is_isqrt(n@, r as int),
        r < 0x4000_0000_0000_0000_0000_0000_0000_0000,
{
    let mut lo: u128 = 0;
    let mut hi: u128 = 0x4000_0000_0000_0000_0000_0000_0000_0000;
    assert(hi * hi == 0x1000_0000_0000_0000_0000_0000_0000_0000
        * 0x1_0000_0000_0000_0000_0000_0000_0000_0000int) by (nonlinear_arith)
        requires
            hi == 0x4000_0000_0000_0000_0000_0000_0000_0000,
    ;
    assert(n@ < hi * hi) by (nonlinear_arith)
        requires
            n@ == n.hi * 0x1_0000_0000_0000_0000_0000_0000_0000_0000 + n.lo,
            n.hi + 1 <= 0x1000_0000_0000_0000_0000_0000_0000_0000,
            n.lo < 0x1_0000_0000_0000_0000_0000_0000_0000_0000,
            hi * hi == 0x1000_0000_0000_0000_0000_0000_0000_0000
                * 0x1_0000_0000_0000_0000_0000_0000_0000_0000int,
    ;
    assert(lo * lo == 0) by (nonlinear_arith)
        requires
            lo == 0,
    ;
    while hi - lo > 1
        invariant
            lo < hi <= 0x4000_0000_0000_0000_0000_0000_0000_0000,
            lo * lo <= n@ < hi * hi,
        decreases hi - lo,
    {
        let mid: u128 = lo + (hi - lo) / 2;
        let square = wide_mul(mid, mid);
        if wide_le(&square, n) {
            lo = mid;
        } else {
            hi = mid;
        }
    }
    lo
}

/// The quotient of `n` by a positive `d`, rounded down and held at the
/// largest magnitude a result can take.
pub(crate) fn wide_div(n: &Wide, d: u128) -> (q: i64)
    requires
        d > 0,
    ensures
        q == if n@ / (d as int) > LIMIT_RAW {
            LIMIT_RAW as int
        } else {
            n@ / (d as int)
        },
{
    let limit: u128 = 0x7fff_ffff_ffff_ffff;
    let top = wide_mul(limit, d);
    if wide_le(&top, n) {
        proof {
            vstd::arithmetic::div_mod::lemma_div_is_ordered(limit * d, n@, d as int);
            vstd::arithmetic::div_mod::lemma_div_multiples_vanish(limit as int, d as int);
            assert(limit * d == d * limit) by (nonlinear_arith);
            if n@ / (d as int) == LIMIT_RAW {
            }
        }
        return 0x7fff_ffff_ffff_ffff;
    }
    let mut lo: u128 = 0;
    let mut hi: u128 = limit;
    assert(lo * d == 0) by (nonlinear_arith)
        requires
            lo == 0,
    ;
    while hi - lo > 1
        invariant
            lo < hi <= 0x7fff_ffff_ffff_ffff,
            lo * d <= n@ < hi * d,
            d > 0,
        decreases hi - lo,
    {
        let mid: u128 = lo + (hi - lo) / 2;
        let product = wide_mul(mid, d);
        if wide_le(&product, n) {
            lo = mid;
        } else {
            hi = mid;
        }
    }
    proof {
        let rest = n@ - lo * d;
        assert(hi == lo + 1);
        assert((lo + 1) * d == lo * d + d) by (nonlinear_arith);
        lemma_fundamental_div_mod_converse(n@, d as int, lo as int, rest);
    }
    lo as i64
}

} // verus!
