//! How far reading back is off, under an arithmetic that rounds to nearest.
//!
//! Values are counted in units of the smallest positive number, `2^-149`, so that every finite
//! number is a whole number of units and one is `2^149` of them.
use crate::bins::laws::extended;
use crate::bins::{
    bins_to, dequantized, dequantizes_to, flat, flat_to, linear_to, mixes_to, quantizes_to,
    stands_for, unit_clamped, unreadable_at,
};
use crate::errors::{ErrorModel, Result};
use crate::quant::Bounds;
use crate::scalar::{counted, difference, law_order_is_value_order, product, quotient, total};
use crate::scalar::{epsilon, one, top_bin, zero, Arithmetic, Scalar};
use vstd::arithmetic::power2::{lemma2_to64, lemma_pow2_adds, lemma_pow2_pos, pow2};
use vstd::prelude::*;

verus! {

/// The distance of a number from zero.
pub open spec fn distance(n: int) -> int {
    if n < 0 {
        -n
    } else {
        n
    }
}

/// One, in units.
pub open spec fn unit() -> int {
    pow2(149) as int
}

/// Results of at least this many units are infinite.
pub open spec fn overflow() -> int {
    0x1ff_ffff * pow2(252) as int
}

/// Differences and sums are off by at most one part in `2^24`, and finite unless they are too
/// large. A sum with a number that is not finite is not finite.
pub open spec fn accurate_sums<A: Arithmetic>(x: &A) -> bool {
    &&& forall|a: Scalar, b: Scalar, r: Scalar|
        a.finite() && b.finite() && #[trigger] difference(x, a, b, r) ==> {
            let exact = a.units() - b.units();
            &&& r.finite() <==> distance(exact) < overflow()
            &&& r.finite() ==> distance(r.units() - exact) * 0x100_0000 <= distance(exact)
        }
    &&& forall|a: Scalar, b: Scalar, r: Scalar|
        a.finite() && b.finite() && #[trigger] total(x, a, b, r) ==> {
            let exact = a.units() + b.units();
            &&& r.finite() <==> distance(exact) < overflow()
            &&& r.finite() ==> distance(r.units() - exact) * 0x100_0000 <= distance(exact)
        }
    &&& forall|a: Scalar, b: Scalar, r: Scalar|
        a.finite() && !b.finite() && #[trigger] total(x, a, b, r) ==> !r.finite()
}

/// Products and quotients are off by at most one part in `2^24` and half a unit, and finite
/// unless they are too large.
pub open spec fn accurate_products<A: Arithmetic>(x: &A) -> bool {
    &&& forall|a: Scalar, b: Scalar, r: Scalar|
        a.finite() && b.finite() && #[trigger] product(x, a, b, r) ==> {
            let exact = a.units() * b.units();
            &&& distance(exact) < overflow() * unit() ==> r.finite()
            &&& r.finite() ==> distance(r.units() * unit() - exact) * 0x200_0000 <= 2 * distance(
                exact,
            ) + 0x100_0000 * unit()
        }
    &&& forall|a: Scalar, b: Scalar, r: Scalar|
        a.finite() && b.finite() && b.units() > 0 && #[trigger] quotient(x, a, b, r) ==> {
            let exact = a.units() * unit();
            &&& distance(exact) < overflow() * b.units() ==> r.finite()
            &&& r.finite() ==> distance(r.units() * b.units() - exact) * 0x200_0000 <= 2
                * distance(exact) + 0x100_0000 * b.units()
        }
}

/// Small counts are exact.
pub open spec fn accurate_counts<A: Arithmetic>(x: &A) -> bool {
    forall|n: usize, r: Scalar|
        n <= 0x100_0000 && #[trigger] counted(x, n, r) ==> r.finite() && r.units() == n * unit()
}

/// An arithmetic that rounds to nearest.
pub open spec fn accurate<A: Arithmetic>(x: &A) -> bool {
    accurate_sums(x) && accurate_products(x) && accurate_counts(x)
}

pub(crate) proof fn lemma_constants()
    ensures
        unit() > 0x1_0000_0000_0000,
        overflow() > 0x1_0000_0000 * unit(),
        one().units() == unit(),
        top_bin().units() == 255 * unit(),
        epsilon().units() > 0x1_0000_0000_0000,
{
    lemma2_to64();
    lemma_pow2_adds(64, 85);
    lemma_pow2_pos(85);
    lemma_pow2_adds(64, 39);
    lemma_pow2_pos(39);
    lemma_pow2_adds(23, 126);
    lemma_pow2_adds(16, 133);
    lemma_pow2_adds(149, 103);
    lemma_pow2_adds(64, 39);
    assert(one().magnitude() / 0x80_0000 == 127);
    assert(one().magnitude() % 0x80_0000 == 0);
    assert(top_bin().magnitude() / 0x80_0000 == 134);
    assert(top_bin().magnitude() % 0x80_0000 == 0x7f_0000);
    assert(epsilon().magnitude() / 0x80_0000 == 104);
    assert(epsilon().magnitude() % 0x80_0000 == 0);
    let p = pow2(133) as int;
    assert(0xff_0000 * p == 255 * (0x1_0000 * p)) by (nonlinear_arith);
    let u = unit();
    let c = pow2(103) as int;
    assert(0x1ff_ffff * (u * c) > 0x1_0000_0000 * u) by (nonlinear_arith)
        requires
            u > 0,
            c >= 0x1_0000,
    ;
}

proof fn lemma_distance_product(a: int, b: int)
    requires
        b >= 0,
    ensures
        distance(a * b) == distance(a) * b,
{
    assert(a >= 0 ==> a * b >= 0) by (nonlinear_arith)
        requires
            b >= 0,
    ;
    assert(a < 0 ==> a * b <= 0 && (-a) * b == -(a * b)) by (nonlinear_arith)
        requires
            b >= 0,
    ;
}

/// A common factor can be taken out of an inequality.
proof fn lemma_cancel(a: int, b: int, f: int)
    requires
        f > 0,
        a * f <= b * f,
    ensures
        a <= b,
{
    assert(a <= b) by (nonlinear_arith)
        requires
            f > 0,
            a * f <= b * f,
    ;
}

/// The relative position `v` of `w` in an extent `e`, computed from rounded `a` and `r`.
proof fn lemma_ratio(w: int, e: int, a: int, r: int, v: int, p: int)
    requires
        0 <= w <= e,
        0 < e,
        0 < r,
        p > 0x1_0000_0000_0000,
        distance(r - e) * 0x100_0000 <= e,
        distance(a - w) * 0x100_0000 <= w,
        distance(v * r - a * p) * 0x200_0000 <= 2 * distance(a * p) + 0x100_0000 * r,
    ensures
        0 <= a <= 2 * r,
        distance(v * e - w * p) * 0x100_0000 <= 4 * (p * e),
{
    let n = 0x100_0000int;
    let d1 = a - w;
    let d2 = r - e;
    let e1 = v * r - a * p;
    let x = v * e - w * p;
    assert(a >= 0);
    assert(100 * w <= 101 * r && 100 * a <= 102 * r);
    lemma_distance_product(p, a);
    assert(p * a == a * p) by (nonlinear_arith);
    assert(r * x == p * (e * d1 - w * d2) + e * e1) by {
        assert(e * d1 - w * d2 == e * a - w * r) by (nonlinear_arith)
            requires
                d1 == a - w,
                d2 == r - e,
        ;
        assert(p * (e * a - w * r) == e * (a * p) - r * (w * p)) by (nonlinear_arith);
        assert(e * (v * r - a * p) == r * (v * e) - e * (a * p)) by (nonlinear_arith);
        assert(r * (v * e - w * p) == r * (v * e) - r * (w * p)) by (nonlinear_arith);
    }
    // the differences
    let y = e * d1 - w * d2;
    assert(distance(y) * n <= 2 * (w * e)) by {
        lemma_distance_product(d1, e);
        lemma_distance_product(d2, w);
        assert(d1 * e == e * d1 && d2 * w == w * d2) by (nonlinear_arith);
        assert((distance(d1) * n) * e <= w * e) by (nonlinear_arith)
            requires
                distance(d1) * n <= w,
                e > 0,
        ;
        assert((distance(d2) * n) * w <= e * w) by (nonlinear_arith)
            requires
                distance(d2) * n <= e,
                w >= 0,
        ;
        assert((distance(d1) * n) * e == (distance(d1) * e) * n) by (nonlinear_arith);
        assert((distance(d2) * n) * w == (distance(d2) * w) * n) by (nonlinear_arith);
        assert(e * w == w * e) by (nonlinear_arith);
    }
    let top = 2 * (p * w) + a * p + n * r;
    assert((distance(x) * n) * r <= top * e) by {
        lemma_distance_product(x, r);
        lemma_distance_product(y, p);
        lemma_distance_product(e1, e);
        assert(x * r == r * x && y * p == p * y && e1 * e == e * e1) by (nonlinear_arith);
        assert(distance(x) * r <= distance(y) * p + distance(e1) * e);
        assert((distance(y) * p) * n <= (2 * (p * w)) * e) by (nonlinear_arith)
            requires
                distance(y) * n <= 2 * (w * e),
                p > 0,
        ;
        assert((distance(e1) * e) * n <= (a * p + n * r) * e) by (nonlinear_arith)
            requires
                distance(e1) * n <= a * p + n * r,
                e > 0,
        ;
        assert((distance(x) * r) * n == (distance(x) * n) * r) by (nonlinear_arith);
        assert((2 * (p * w)) * e + (a * p + n * r) * e == top * e) by (nonlinear_arith)
            requires
                top == 2 * (p * w) + a * p + n * r,
        ;
    }
    assert(top <= 4 * (p * r)) by {
        assert(100 * (p * w) <= 101 * (p * r)) by (nonlinear_arith)
            requires
                100 * w <= 101 * r,
                p > 0,
        ;
        assert(100 * (a * p) <= 102 * (p * r)) by (nonlinear_arith)
            requires
                100 * a <= 102 * r,
                p > 0,
        ;
        assert(100 * (n * r) <= p * r) by (nonlinear_arith)
            requires
                100 * n <= p,
                r > 0,
        ;
    }
    assert((distance(x) * n) * r <= (4 * (p * e)) * r) by (nonlinear_arith)
        requires
            (distance(x) * n) * r <= top * e,
            top <= 4 * (p * r),
            e > 0,
    ;
    lemma_cancel(distance(x) * n, 4 * (p * e), r);
}

/// The byte `q` of `w` in an extent `e`, computed from its rounded relative position `v`.
proof fn lemma_step(w: int, e: int, v: int, s: int, q: int, p: int)
    requires
        0 <= w <= e,
        0 < e,
        p > 0x1_0000_0000_0000,
        0 <= v <= p,
        distance(v * e - w * p) * 0x100_0000 <= 4 * (p * e),
        distance(s * p - v * (255 * p)) * 0x200_0000 <= 2 * distance(v * (255 * p)) + 0x100_0000
            * p,
        s < 0 ==> q == 0,
        s > 255 * p ==> q == 255,
        0 <= s <= 255 * p ==> q * p <= s < q * p + p,
    ensures
        0 <= q <= 255,
        distance(q * e - 255 * w) * 0x100_0000 <= 0x100_04fc * e,
{
    let n = 0x100_0000int;
    let d = s - 255 * v;
    assert(distance(d) * n <= 256 * p) by {
        lemma_distance_product(d, p);
        lemma_distance_product(v, 255 * p);
        assert(s * p - v * (255 * p) == d * p) by (nonlinear_arith)
            requires
                d == s - 255 * v,
        ;
        assert((distance(d) * 0x200_0000) * p <= (510 * v + n) * p) by (nonlinear_arith)
            requires
                (distance(d) * p) * 0x200_0000 <= 2 * (v * (255 * p)) + n * p,
        ;
        lemma_cancel(distance(d) * 0x200_0000, 510 * v + n, p);
    }
    assert(0 <= q <= 255) by {
        if 0 <= s <= 255 * p {
            assert(q >= 0) by (nonlinear_arith)
                requires
                    s >= 0,
                    s < q * p + p,
                    p > 0,
            ;
            assert(q <= 255) by (nonlinear_arith)
                requires
                    q * p <= 255 * p,
                    p > 0,
            ;
        }
    }
    let f = w * p;
    let pe = p * e;
    assert(0 <= f <= pe) by (nonlinear_arith)
        requires
            f == w * p,
            pe == p * e,
            0 <= w <= e,
            p > 0,
    ;
    // 255 times the relative position, and the product, both times the extent
    assert(distance(s * e - 255 * f) * n <= 1276 * pe) by {
        lemma_distance_product(d, e);
        assert(s * e - 255 * f == d * e + 255 * (v * e - f)) by (nonlinear_arith)
            requires
                d == s - 255 * v,
        ;
        assert((distance(d) * e) * n <= 256 * pe) by (nonlinear_arith)
            requires
                distance(d) * n <= 256 * p,
                pe == p * e,
                e > 0,
        ;
    }
    let qpe = q * pe;
    assert(distance(qpe - 255 * f) * 0x100_0000 <= 0x100_04fc * pe) by {
        if s < 0 {
            assert(s * e <= 0) by (nonlinear_arith)
                requires
                    s < 0,
                    e > 0,
            ;
            assert(qpe == 0) by (nonlinear_arith)
                requires
                    q == 0,
                    qpe == q * pe,
            ;
            assert(255 * f <= distance(s * e - 255 * f));
            assert(distance(qpe - 255 * f) == 255 * f);
        } else if s > 255 * p {
            assert(s * e >= 255 * pe) by (nonlinear_arith)
                requires
                    s > 255 * p,
                    pe == p * e,
                    e > 0,
            ;
            assert(qpe == 255 * pe);
            assert(distance(qpe - 255 * f) <= distance(s * e - 255 * f));
        } else {
            assert(qpe <= s * e && s * e <= qpe + pe) by (nonlinear_arith)
                requires
                    q * p <= s < q * p + p,
                    qpe == q * pe,
                    pe == p * e,
                    e > 0,
            ;
            assert(distance(qpe - 255 * f) <= distance(s * e - 255 * f) + pe);
        }
    }
    let g = q * e - 255 * w;
    assert(qpe - 255 * f == g * p) by (nonlinear_arith)
        requires
            qpe == q * pe,
            pe == p * e,
            f == w * p,
            g == q * e - 255 * w,
    ;
    lemma_distance_product(g, p);
    assert((distance(g) * 0x100_0000) * p <= (0x100_04fc * e) * p) by (nonlinear_arith)
        requires
            (distance(g) * p) * 0x100_0000 <= 0x100_04fc * pe,
            pe == p * e,
    ;
    lemma_cancel(distance(g) * 0x100_0000, 0x100_04fc * e, p);
}

/// What a byte `q` adds to the lower bound, computed from a rounded extent `r`.
proof fn lemma_part(q: int, e: int, r: int, h: int, g: int, p: int)
    requires
        0 <= q <= 255,
        0 < e,
        0x1_0000_0000_0000 < r,
        p > 0x1_0000_0000_0000,
        distance(r - e) * 0x100_0000 <= e,
        distance(h * (255 * p) - (q * p) * p) * 0x200_0000 <= 2 * distance((q * p) * p)
            + 0x100_0000 * (255 * p),
        distance(g * p - h * r) * 0x200_0000 <= 2 * distance(h * r) + 0x100_0000 * p,
    ensures
        distance(255 * g - q * e) * 0x100_0000 <= 1100 * e,
{
    let n = 0x100_0000int;
    let c = 255 * h - q * p;
    let qp = q * p;
    assert(0 <= qp <= 255 * p) by (nonlinear_arith)
        requires
            qp == q * p,
            0 <= q <= 255,
            p > 0,
    ;
    assert(distance(c) * n <= 256 * p) by {
        lemma_distance_product(c, p);
        lemma_distance_product(qp, p);
        assert(h * (255 * p) - qp * p == c * p) by (nonlinear_arith)
            requires
                c == 255 * h - qp,
        ;
        assert((distance(c) * 0x200_0000) * p <= (2 * qp + 255 * n) * p) by (nonlinear_arith)
            requires
                (distance(c) * p) * 0x200_0000 <= 2 * (qp * p) + n * (255 * p),
        ;
        lemma_cancel(distance(c) * 0x200_0000, 2 * qp + 255 * n, p);
    }
    assert(100 * distance(h) <= 101 * p);
    let k = g * p - h * r;
    let pr = p * r;
    assert(distance(k) * n <= 2 * pr) by {
        lemma_distance_product(h, r);
        assert(100 * (distance(h) * r) <= 101 * pr) by (nonlinear_arith)
            requires
                100 * distance(h) <= 101 * p,
                pr == p * r,
                r > 0,
        ;
        assert(100 * (n * p) <= pr) by (nonlinear_arith)
            requires
                100 * n <= r,
                pr == p * r,
                p > 0,
        ;
    }
    let y = 255 * g - q * r;
    assert(distance(y) * n <= 766 * r) by {
        lemma_distance_product(y, p);
        lemma_distance_product(c, r);
        assert(y * p == 255 * k + c * r) by (nonlinear_arith)
            requires
                y == 255 * g - q * r,
                k == g * p - h * r,
                c == 255 * h - q * p,
        ;
        assert((distance(c) * r) * n <= 256 * pr) by (nonlinear_arith)
            requires
                distance(c) * n <= 256 * p,
                pr == p * r,
                r > 0,
        ;
        assert((distance(y) * n) * p <= (766 * r) * p) by (nonlinear_arith)
            requires
                (distance(y) * p) * n <= 766 * pr,
                pr == p * r,
        ;
        lemma_cancel(distance(y) * n, 766 * r, p);
    }
    lemma_last_bit(q, e, r, g);
}

proof fn lemma_last_bit(q: int, e: int, r: int, g: int)
    requires
        0 <= q <= 255,
        0 < e,
        distance(r - e) * 0x100_0000 <= e,
        distance(255 * g - q * r) * 0x100_0000 <= 766 * r,
    ensures
        distance(255 * g - q * e) * 0x100_0000 <= 1100 * e,
{
    let d = r - e;
    assert(q * r == q * e + q * d) by (nonlinear_arith)
        requires
            d == r - e,
    ;
    assert(distance(q * d) <= 255 * distance(d)) by (nonlinear_arith)
        requires
            0 <= q <= 255,
    ;
}

/// The steps from a value to its byte, in units: the rounded extent `r`, the distance `a` from
/// the lower bound, the relative position `n`, and 255 times that, `s`.
#[verifier::opaque]
spec fn stored_by(
    val: int,
    min: int,
    max: int,
    r: int,
    a: int,
    n: int,
    s: int,
    q: int,
    p: int,
) -> bool {
    let c = if n < 0 {
        0
    } else if n > p {
        p
    } else {
        n
    };
    &&& r > 0
    &&& distance(r - (max - min)) * 0x100_0000 <= max - min
    &&& distance(a - (val - min)) * 0x100_0000 <= val - min
    &&& distance(n * r - a * p) * 0x200_0000 <= 2 * distance(a * p) + 0x100_0000 * r
    &&& distance(s * p - c * (255 * p)) * 0x200_0000 <= 2 * distance(c * (255 * p)) + 0x100_0000
        * p
    &&& s < 0 ==> q == 0
    &&& s > 255 * p ==> q == 255
    &&& 0 <= s <= 255 * p ==> q * p <= s < q * p + p
}

/// The steps from a byte back to a value, in units: the rounded extent `t`, the share `h` of it,
/// and what the share amounts to, `g`.
#[verifier::opaque]
spec fn restored_by(min: int, max: int, q: int, t: int, h: int, g: int, v: int, p: int) -> bool {
    &&& t > 0x1_0000_0000_0000
    &&& distance(t - (max - min)) * 0x100_0000 <= max - min
    &&& distance(h * (255 * p) - (q * p) * p) * 0x200_0000 <= 2 * distance((q * p) * p)
        + 0x100_0000 * (255 * p)
    &&& distance(g * p - h * t) * 0x200_0000 <= 2 * distance(h * t) + 0x100_0000 * p
    &&& distance(v - (min + g)) * 0x100_0000 <= distance(min + g)
}

/// The steps from a value to its byte and back, in units.
proof fn lemma_round_trip(
    val: int,
    min: int,
    max: int,
    r: int,
    a: int,
    n: int,
    s: int,
    q: int,
    t: int,
    h: int,
    g: int,
    v: int,
    p: int,
)
    requires
        min <= val <= max,
        min < max,
        distance(min) <= 1000 * (max - min),
        p > 0x1_0000_0000_0000,
        stored_by(val, min, max, r, a, n, s, q, p),
        restored_by(min, max, q, t, h, g, v, p),
    ensures
        2550 * distance(v - val) <= 11 * (max - min),
{
    reveal(stored_by);
    reveal(restored_by);
    let e = max - min;
    let w = val - min;
    let c = if n < 0 {
        0
    } else if n > p {
        p
    } else {
        n
    };
    lemma_ratio(w, e, a, r, n, p);
    assert(distance(c * e - w * p) <= distance(n * e - w * p)) by {
        assert(0 <= w * p <= p * e) by (nonlinear_arith)
            requires
                0 <= w <= e,
                p > 0,
        ;
        assert(n < 0 ==> n * e <= 0) by (nonlinear_arith)
            requires
                e > 0,
        ;
        assert(n > p ==> n * e >= p * e) by (nonlinear_arith)
            requires
                e > 0,
        ;
        assert(0 * e == 0) by (nonlinear_arith);
    }
    lemma_step(w, e, c, s, q, p);
    lemma_part(q, e, t, h, g, p);
    assert(distance(255 * g - 255 * w) <= distance(255 * g - q * e) + distance(q * e - 255 * w));
    assert(distance(g) <= 2 * e);
    assert(distance(min + g) <= 1002 * e);
    assert(distance(v - val) <= distance(v - (min + g)) + distance(g - w));
    assert(distance(255 * g - 255 * w) == 255 * distance(g - w));
}

/// The extent of a dimension, in units, and what rounding makes of it.
proof fn lemma_extent<A: Arithmetic>(x: &A, min: Scalar, max: Scalar, range: Scalar)
    requires
        accurate(x),
        extended(x, min, max),
        difference(x, max, min, range),
    ensures
        range.finite(),
        range.units() > 0x1_0000_0000_0000,
        0 < max.units() - min.units() < overflow(),
        distance(range.units() - (max.units() - min.units())) * 0x100_0000 <= max.units()
            - min.units(),
{
    lemma_constants();
    law_order_is_value_order(zero(), range);
    law_order_is_value_order(epsilon(), range);
    assert(zero().units() == 0);
    assert(range.abs_spec() == range);
    assert(epsilon().at_most(range));
}

/// A quotient of numbers of which the first is at most twice the second is finite.
proof fn lemma_small_quotient(a: int, r: int)
    requires
        0 <= a <= 2 * r,
        r > 0,
    ensures
        distance(a * unit()) < overflow() * r,
{
    lemma_constants();
    let p = unit();
    let o = overflow();
    assert(0 <= a * p <= (2 * r) * p) by (nonlinear_arith)
        requires
            0 <= a <= 2 * r,
            p > 0,
    ;
    assert((2 * r) * p < o * r) by (nonlinear_arith)
        requires
            r > 0,
            o > 0x1_0000 * p,
            p > 0,
    ;
}

/// The byte of a finite number, in units.
proof fn lemma_byte_units(s: Scalar)
    requires
        s.finite(),
    ensures
        ({
            let q = s.byte_spec() as int;
            &&& s.units() < 0 ==> q == 0
            &&& s.units() > 255 * unit() ==> q == 255
            &&& 0 <= s.units() <= 255 * unit() ==> q * unit() <= s.units() < q * unit() + unit()
        }),
{
    lemma_constants();
    law_order_is_value_order(s, zero());
    law_order_is_value_order(top_bin(), s);
    assert(zero().units() == 0);
    if 0 <= s.units() <= 255 * unit() {
        let p = unit();
        let q = s.units() / p;
        vstd::arithmetic::div_mod::lemma_fundamental_div_mod(s.units(), p);
        vstd::arithmetic::div_mod::lemma_mod_bound(s.units(), p);
        assert(p * q == q * p) by (nonlinear_arith);
        assert(0 <= q <= 255) by (nonlinear_arith)
            requires
                p > 0,
                q * p <= 255 * p,
                0 <= q * p + p - 1,
        ;
    }
}

proof fn lemma_stored<A: Arithmetic>(
    x: &A,
    val: Scalar,
    min: Scalar,
    max: Scalar,
    q: u8,
) -> (r: (int, int, int, int))
    requires
        accurate(x),
        extended(x, min, max),
        val.finite(),
        min.at_most(val),
        val.at_most(max),
        bins_to(x, val, min, max, q),
    ensures
        stored_by(
            val.units(),
            min.units(),
            max.units(),
            r.0,
            r.1,
            r.2,
            r.3,
            q as int,
            unit(),
        ),
{
    reveal(stored_by);
    lemma_constants();
    let p = unit();
    law_order_is_value_order(min, val);
    law_order_is_value_order(val, max);
    let range = choose|range: Scalar| #[trigger]
        difference(x, max, min, range) && if flat(range) {
            flat_to(x, val, min, max, q)
        } else {
            linear_to(x, val, min, range, q)
        };
    lemma_extent(x, min, max, range);
    let (away, n, s) = choose|away: Scalar, n: Scalar, s: Scalar| #[trigger]
        difference(x, val, min, away) && #[trigger] quotient(x, away, range, n)
            && #[trigger] product(x, unit_clamped(n), top_bin(), s) && q == s.byte_spec();
    assert(away.finite());
    lemma_small_quotient(away.units(), range.units());
    assert(n.finite());
    let c = unit_clamped(n);
    lemma_clamped_units(n);
    assert(distance(c.units() * (255 * p)) < overflow() * p) by {
        let u = c.units();
        let o = overflow();
        assert(0 <= u * (255 * p) < o * p) by (nonlinear_arith)
            requires
                0 <= u <= p,
                o > 0x1_0000 * p,
                p > 0,
        ;
    }
    assert(s.finite());
    lemma_byte_units(s);
    (range.units(), away.units(), n.units(), s.units())
}

proof fn lemma_clamped_units(n: Scalar)
    requires
        n.finite(),
    ensures
        unit_clamped(n).finite(),
        unit_clamped(n).units() == (if n.units() < 0 {
            0
        } else if n.units() > unit() {
            unit()
        } else {
            n.units()
        }),
{
    lemma_constants();
    law_order_is_value_order(n, zero());
    law_order_is_value_order(one(), n);
    assert(zero().units() == 0);
}

proof fn lemma_restored<A: Arithmetic>(
    x: &A,
    min: Scalar,
    max: Scalar,
    q: u8,
    v: Scalar,
) -> (r: (int, int, int))
    requires
        accurate(x),
        extended(x, min, max),
        stands_for(x, q, min, max, v),
        v.finite(),
    ensures
        restored_by(min.units(), max.units(), q as int, r.0, r.1, r.2, v.units(), unit()),
{
    reveal(restored_by);
    lemma_constants();
    let t = choose|t: Scalar| #[trigger]
        difference(x, max, min, t) && if flat(t) {
            v == min
        } else {
            mixes_to(x, min, q, t, v)
        };
    lemma_extent(x, min, max, t);
    let (k, h, g) = choose|k: Scalar, h: Scalar, g: Scalar| #[trigger]
        counted(x, q as usize, k) && #[trigger] quotient(x, k, top_bin(), h)
            && #[trigger] product(x, h, t, g) && total(x, min, g, v);
    assert(k.units() == q * unit());
    lemma_small_quotient_of_bytes(q as int);
    assert(h.finite());
    assert(g.finite());
    (t.units(), h.units(), g.units())
}

/// Reading back what was stored is off by at most eleven tenths of a step, a step being one part
/// in 255 of the extent, where the lower bound is not much larger than the extent; the factor
/// leaves room for rounding.
pub proof fn law_reading_back_is_close<A: Arithmetic>(
    x: &A,
    val: Scalar,
    min: Scalar,
    max: Scalar,
    q: u8,
    v: Scalar,
)
    requires
        accurate(x),
        well_placed(x, val, min, max),
        bins_to(x, val, min, max, q),
        stands_for(x, q, min, max, v),
        v.finite(),
    ensures
        2550 * distance(v.units() - val.units()) <= 11 * (max.units() - min.units()),
{
    let (r, a, n, s) = lemma_stored(x, val, min, max, q);
    let (t, h, g) = lemma_restored(x, min, max, q, v);
    lemma_constants();
    law_order_is_value_order(min, val);
    law_order_is_value_order(val, max);
    let range = choose|range: Scalar| #[trigger] difference(x, max, min, range);
    lemma_extent(x, min, max, range);
    lemma_round_trip(
        val.units(),
        min.units(),
        max.units(),
        r,
        a,
        n,
        s,
        q as int,
        t,
        h,
        g,
        v.units(),
        unit(),
    );
}

proof fn lemma_small_quotient_of_bytes(q: int)
    requires
        0 <= q <= 255,
    ensures
        distance((q * unit()) * unit()) < overflow() * (255 * unit()),
{
    lemma_constants();
    let p = unit();
    assert(0 <= q * p <= 2 * (255 * p)) by (nonlinear_arith)
        requires
            0 <= q <= 255,
            p > 0,
    ;
    lemma_small_quotient(q * p, 255 * p);
}

/// In a dimension whose bounds are equal, every byte stands for the lower bound.
pub proof fn law_flat_dimension_reads_its_bound<A: Arithmetic>(
    x: &A,
    min: Scalar,
    max: Scalar,
    q: u8,
    v: Scalar,
)
    requires
        accurate(x),
        min.finite(),
        max.finite(),
        min.key() == max.key(),
        stands_for(x, q, min, max, v),
    ensures
        v == min,
{
    lemma_constants();
    law_order_is_value_order(min, max);
    let t = choose|t: Scalar| #[trigger]
        difference(x, max, min, t) && if flat(t) {
            v == min
        } else {
            mixes_to(x, min, q, t, v)
        };
    assert(t.finite() && t.units() == 0);
    law_order_is_value_order(t, zero());
    assert(zero().units() == 0);
    assert(flat(t));
}

/// A dimension to which the bound on the error applies: of some extent, with a lower bound not
/// much larger than it, and with the coordinate between the bounds.
pub open spec fn well_placed<A: Arithmetic>(x: &A, val: Scalar, min: Scalar, max: Scalar) -> bool {
    &&& extended(x, min, max)
    &&& val.finite()
    &&& min.at_most(val)
    &&& val.at_most(max)
    &&& distance(min.units()) <= 1000 * (max.units() - min.units())
}

/// A vector that was stored and read back is off by at most eleven tenths of a step in every
/// dimension.
pub proof fn law_vector_reads_back_closely<A: Arithmetic>(
    x: &A,
    b: Bounds,
    v: Seq<Scalar>,
    bytes: Seq<u8>,
    back: Seq<Scalar>,
)
    requires
        accurate(x),
        forall|d: int| 0 <= d < b.dims() ==> well_placed(x, #[trigger] v[d], b.min[d], b.max[d]),
        quantizes_to(x, b, v, bytes),
        dequantizes_to(x, b, bytes, back),
    ensures
        back.len() == b.dims(),
        forall|d: int|
            0 <= d < b.dims() ==> 2550 * distance((#[trigger] back[d]).units() - v[d].units()) <= 11
                * (b.max[d].units() - b.min[d].units()),
{
    assert forall|d: int| 0 <= d < b.dims() implies 2550 * distance(
        (#[trigger] back[d]).units() - v[d].units(),
    ) <= 11 * (b.max[d].units() - b.min[d].units()) by {
        assert(well_placed(x, v[d], b.min[d], b.max[d]));
        law_reading_back_is_close(x, v[d], b.min[d], b.max[d], bytes[d], back[d]);
    }
}

// ---------------------------------------------------------------------------
// Reading back succeeds
// ---------------------------------------------------------------------------

/// A dimension whose extent and upper bound stay below the largest number by a small part of the
/// extent, so that rounding cannot carry a reading past it.
pub open spec fn roomy(min: Scalar, max: Scalar) -> bool {
    let extent = max.units() - min.units();
    &&& 0x10_0000 * extent + extent < 0x10_0000 * overflow()
    &&& 0x10_0000 * max.units() + extent < 0x10_0000 * overflow()
}

/// Finite numbers have fewer units than what overflows.
pub(crate) proof fn lemma_finite_units(s: Scalar)
    requires
        s.finite(),
    ensures
        distance(s.units()) < overflow(),
{
    let top = Scalar { bits: 0x7f7f_ffff };
    assert(top.magnitude() / 0x80_0000 == 254);
    assert(top.magnitude() % 0x80_0000 == 0x7f_ffff);
    lemma_pow2_adds(1, 252);
    lemma2_to64();
    lemma_pow2_pos(252);
    assert(top.units() == 0xff_ffff * pow2(253));
    assert(top.units() < overflow());
    let up = s.abs_spec();
    assert(up.magnitude() == s.magnitude());
    assert(up.units() == distance(s.units())) by {
        law_order_is_value_order(zero(), up);
        assert(zero().units() == 0);
    }
    law_order_is_value_order(up, top);
}

/// The share that a byte stands for: not negative, and hardly above one.
proof fn lemma_share_bounds(q: int, h: int, p: int)
    requires
        0 <= q <= 255,
        p > 0x1_0000_0000_0000,
        distance(h * (255 * p) - (q * p) * p) * 0x200_0000 <= 2 * distance((q * p) * p)
            + 0x100_0000 * (255 * p),
    ensures
        0 <= h,
        h * 0x100_0000 <= 0x100_0002 * p,
{
    let qp = q * p;
    let c = 255 * h - qp;
    assert(0 <= qp <= 255 * p && (q > 0 ==> qp >= p) && (q == 0 ==> qp == 0)) by (nonlinear_arith)
        requires
            qp == q * p,
            0 <= q <= 255,
            p > 0,
    ;
    lemma_distance_product(c, p);
    lemma_distance_product(qp, p);
    assert(h * (255 * p) - qp * p == c * p) by (nonlinear_arith)
        requires
            c == 255 * h - qp,
    ;
    assert((distance(c) * 0x200_0000) * p <= (2 * qp + 255 * 0x100_0000) * p) by (nonlinear_arith)
        requires
            (distance(c) * p) * 0x200_0000 <= 2 * (qp * p) + 0x100_0000 * (255 * p),
    ;
    lemma_cancel(distance(c) * 0x200_0000, 2 * qp + 255 * 0x100_0000, p);
}

/// What a share of a rounded extent `t` amounts to fits, is not negative, and is hardly above the
/// extent `e`.
proof fn lemma_amount(e: int, t: int, h: int, g: int, p: int)
    requires
        0 < e,
        0x1_0000_0000_0000 < t,
        p > 0x1_0000_0000_0000,
        distance(t - e) * 0x100_0000 <= e,
        0 <= h,
        h * 0x100_0000 <= 0x100_0002 * p,
        distance(g * p - h * t) * 0x200_0000 <= 2 * distance(h * t) + 0x100_0000 * p,
    ensures
        0 <= g,
        g * 0x100_0000 <= 0x100_0008 * e,
{
    let a = h * t;
    let pe = p * e;
    lemma_product_bound(e, t, h, p);
    assert(0 <= a) by (nonlinear_arith)
        requires
            a == h * t,
            h >= 0,
            t > 0,
    ;
    assert(g >= 0) by {
        if g < 0 {
            assert(g * p <= -p) by (nonlinear_arith)
                requires
                    g <= -1,
                    p > 0,
            ;
        }
    }
    assert(0x100_0000 * p <= pe) by (nonlinear_arith)
        requires
            pe == p * e,
            0x100_0000 <= e,
            p > 0,
    ;
    assert((g * p) * 0x100_0000 <= 0x100_0008 * pe);
    assert((g * 0x100_0000) * p <= (0x100_0008 * e) * p) by (nonlinear_arith)
        requires
            (g * p) * 0x100_0000 <= 0x100_0008 * pe,
            pe == p * e,
    ;
    lemma_cancel(g * 0x100_0000, 0x100_0008 * e, p);
}

/// A share that is hardly above one, of a rounded extent.
proof fn lemma_product_bound(e: int, t: int, h: int, p: int)
    requires
        0 < e,
        0 < t,
        p > 0,
        distance(t - e) * 0x100_0000 <= e,
        0 <= h,
        h * 0x100_0000 <= 0x100_0002 * p,
    ensures
        (h * t) * 0x100_0000 <= 0x100_0004 * (p * e),
{
    let pe = p * e;
    let pt = p * t;
    assert((h * 0x100_0000) * t <= (0x100_0002 * p) * t) by (nonlinear_arith)
        requires
            h * 0x100_0000 <= 0x100_0002 * p,
            t > 0,
    ;
    assert((h * 0x100_0000) * t == (h * t) * 0x100_0000) by (nonlinear_arith);
    assert((0x100_0002 * p) * t == 0x100_0002 * pt) by (nonlinear_arith)
        requires
            pt == p * t,
    ;
    assert(0x100_0000 * pt <= 0x100_0001 * pe) by (nonlinear_arith)
        requires
            0x100_0000 * t <= 0x100_0001 * e,
            pt == p * t,
            pe == p * e,
            p > 0,
    ;
}

/// Every byte of a dimension with room stands for a finite number.
pub proof fn law_bytes_stand_for_finite_numbers<A: Arithmetic>(
    x: &A,
    min: Scalar,
    max: Scalar,
    q: u8,
    v: Scalar,
)
    requires
        accurate(x),
        extended(x, min, max),
        roomy(min, max),
        stands_for(x, q, min, max, v),
    ensures
        v.finite(),
{
    lemma_constants();
    let p = unit();
    let o = overflow();
    let t = choose|t: Scalar| #[trigger]
        difference(x, max, min, t) && if flat(t) {
            v == min
        } else {
            mixes_to(x, min, q, t, v)
        };
    lemma_extent(x, min, max, t);
    let (k, h, g) = choose|k: Scalar, h: Scalar, g: Scalar| #[trigger]
        counted(x, q as usize, k) && #[trigger] quotient(x, k, top_bin(), h)
            && #[trigger] product(x, h, t, g) && total(x, min, g, v);
    assert(k.units() == q * p);
    lemma_small_quotient_of_bytes(q as int);
    assert(h.finite());
    let e = max.units() - min.units();
    lemma_share_bounds(q as int, h.units(), p);
    lemma_product_bound(e, t.units(), h.units(), p);
    let a = h.units() * t.units();
    assert(0 <= a) by (nonlinear_arith)
        requires
            a == h.units() * t.units(),
            h.units() >= 0,
            t.units() > 0,
    ;
    assert(a < o * p) by {
        let pe = p * e;
        let po = o * p;
        assert(0x10_0000 * pe + pe < 0x10_0000 * po) by (nonlinear_arith)
            requires
                0x10_0000 * e + e < 0x10_0000 * o,
                pe == p * e,
                po == o * p,
                p > 0,
        ;
    }
    assert(g.finite());
    lemma_amount(e, t.units(), h.units(), g.units(), p);
    lemma_finite_units(min);
}

/// A coordinate that reads back: between bounds of some extent, with room and a lower bound not
/// much larger than the extent, or between equal bounds.
pub open spec fn placed<A: Arithmetic>(x: &A, val: Scalar, min: Scalar, max: Scalar) -> bool {
    ||| well_placed(x, val, min, max) && roomy(min, max)
    ||| min.finite() && max.finite() && min.key() == max.key()
}

/// A vector that was stored between such bounds reads back, off by at most eleven tenths of a
/// step in every dimension, and as the bound where the bounds are equal.
pub proof fn law_stored_vector_reads_back<A: Arithmetic>(
    x: &A,
    b: Bounds,
    v: Seq<Scalar>,
    bytes: Seq<u8>,
    r: Result<Vec<Scalar>>,
)
    requires
        accurate(x),
        forall|d: int| 0 <= d < b.dims() ==> placed(x, #[trigger] v[d], b.min[d], b.max[d]),
        quantizes_to(x, b, v, bytes),
        dequantized(x, b, bytes, r),
    ensures
        r matches Ok(back) && {
            &&& back@.len() == b.dims()
            &&& forall|d: int|
                0 <= d < b.dims() ==> if b.min[d].key() == b.max[d].key() {
                    #[trigger] back@[d] == b.min[d]
                } else {
                    2550 * distance(back@[d].units() - v[d].units()) <= 11 * (b.max[d].units()
                        - b.min[d].units())
                }
        },
{
    match r {
        Ok(back) => {
            assert forall|d: int| 0 <= d < b.dims() implies if b.min[d].key() == b.max[d].key() {
                #[trigger] back@[d] == b.min[d]
            } else {
                2550 * distance(back@[d].units() - v[d].units()) <= 11 * (b.max[d].units()
                    - b.min[d].units())
            } by {
                assert(placed(x, v[d], b.min[d], b.max[d]));
                assert(back@[d].finite());
                if b.min[d].key() == b.max[d].key() {
                    lemma_equal_bounds(x, v[d], b.min[d], b.max[d], bytes[d], back@[d]);
                } else {
                    law_reading_back_is_close(
                        x,
                        v[d],
                        b.min[d],
                        b.max[d],
                        bytes[d],
                        back@[d],
                    );
                }
            }
        },
        Err(e) => {
            let (d, w) = choose|d: int, w: Scalar| #[trigger]
                unreadable_at(x, b, bytes, d, w) && e@ == (ErrorModel::QuantizationOverflow {
                    dimension: d as nat,
                    value: w,
                    min: b.min[d],
                    max: b.max[d],
                    reason: "non-finite dequantized value"@,
                });
            assert(placed(x, v[d], b.min[d], b.max[d]));
            if b.min[d].key() == b.max[d].key() {
                lemma_equal_bounds(x, v[d], b.min[d], b.max[d], bytes[d], w);
            } else {
                law_bytes_stand_for_finite_numbers(x, b.min[d], b.max[d], bytes[d], w);
            }
        },
    }
}

/// Between equal bounds every byte stands for the lower one.
proof fn lemma_equal_bounds<A: Arithmetic>(
    x: &A,
    val: Scalar,
    min: Scalar,
    max: Scalar,
    q: u8,
    v: Scalar,
)
    requires
        accurate(x),
        placed(x, val, min, max),
        min.key() == max.key(),
        stands_for(x, q, min, max, v),
    ensures
        v == min,
        v.finite(),
{
    law_flat_dimension_reads_its_bound(x, min, max, q, v);
}

} // verus!
