//! What holds of bytes under an arithmetic that rounds correctly.
use crate::bins::error::lemma_constants;
use crate::bins::{bins_to, flat, flat_to, linear_to, unit_clamped};
use crate::scalar::{difference, law_order_is_value_order, product, quotient};
use crate::scalar::{one, top_bin, zero, Arithmetic, Scalar};
use vstd::arithmetic::div_mod::lemma_div_is_ordered;
use vstd::arithmetic::power2::{lemma_pow2_pos, pow2};
use vstd::prelude::*;

verus! {

/// Differences have the right sign, and do not fall when the first number rises.
pub open spec fn ordered_differences<A: Arithmetic>(x: &A) -> bool {
    &&& forall|a: Scalar, b: Scalar, r: Scalar|
        a.finite() && b.finite() && #[trigger] difference(x, a, b, r) ==> !r.nan() && (
        a.at_most(b) ==> r.at_most(zero())) && (b.at_most(a) ==> zero().at_most(r))
    &&& forall|a: Scalar, c: Scalar, b: Scalar, r: Scalar, s: Scalar|
        a.finite() && c.finite() && b.finite() && a.at_most(c) && #[trigger] difference(x, a, b, r)
            && #[trigger] difference(x, c, b, s) ==> r.at_most(s)
}

/// Quotients by a positive finite number have the right sign, and do not fall when the first
/// number rises; a number divided by one that is not larger is at least one.
pub open spec fn ordered_quotients<A: Arithmetic>(x: &A) -> bool {
    &&& forall|a: Scalar, b: Scalar, r: Scalar|
        !a.nan() && b.finite() && zero().below(b) && #[trigger] quotient(x, a, b, r) ==> !r.nan()
            && (a.at_most(zero()) ==> r.at_most(zero())) && (b.at_most(a) ==> one().at_most(r))
    &&& forall|a: Scalar, c: Scalar, b: Scalar, r: Scalar, s: Scalar|
        a.at_most(c) && b.finite() && zero().below(b) && #[trigger] quotient(x, a, b, r)
            && #[trigger] quotient(x, c, b, s) ==> r.at_most(s)
}

/// 255 times zero is zero, 255 times one is 255, and products with 255 do not fall when the
/// number rises.
pub open spec fn ordered_multiples<A: Arithmetic>(x: &A) -> bool {
    &&& forall|n: Scalar, s: Scalar|
        n.key() == 0 && #[trigger] product(x, n, top_bin(), s) ==> s.key() == 0
    &&& forall|s: Scalar| #[trigger] product(x, one(), top_bin(), s) ==> s == top_bin()
    &&& forall|n: Scalar, m: Scalar, s: Scalar, t: Scalar|
        n.at_most(m) && #[trigger] product(x, n, top_bin(), s) && #[trigger] product(
            x,
            m,
            top_bin(),
            t,
        ) ==> s.at_most(t)
}

/// An arithmetic that rounds correctly.
pub open spec fn rounds_correctly<A: Arithmetic>(x: &A) -> bool {
    ordered_differences(x) && ordered_quotients(x) && ordered_multiples(x)
}

/// A dimension of positive extent: every difference of its bounds is finite and not too small.
pub open spec fn extended<A: Arithmetic>(x: &A, min: Scalar, max: Scalar) -> bool {
    &&& min.finite()
    &&& max.finite()
    &&& forall|range: Scalar| #[trigger]
        difference(x, max, min, range) ==> range.finite() && zero().below(range) && !flat(range)
}

proof fn lemma_zero_byte(s: Scalar)
    requires
        s.key() == 0,
    ensures
        s.byte_spec() == 0,
{
    lemma_pow2_pos(149);
    assert(s.magnitude() == 0);
    assert(s.units() == 0);
    vstd::arithmetic::div_mod::lemma_div_basics(pow2(149) as int);
}

proof fn lemma_top_byte()
    ensures
        top_bin().byte_spec() == 255,
{
    lemma_constants();
    lemma_pow2_pos(149);
    let p = pow2(149) as int;
    assert((255 * p) / p == 255) by (nonlinear_arith)
        requires
            p > 0,
    ;
}

/// A larger number has no smaller byte.
pub proof fn law_bytes_are_ordered(a: Scalar, b: Scalar)
    requires
        a.at_most(b),
    ensures
        a.byte_spec() <= b.byte_spec(),
{
    if !a.below(zero()) && !top_bin().below(b) {
        law_order_is_value_order(a, b);
        law_order_is_value_order(zero(), a);
        law_order_is_value_order(b, top_bin());
        lemma_constants();
        lemma_pow2_pos(149);
        let p = pow2(149) as int;
        lemma_div_is_ordered(a.units(), b.units(), p);
        lemma_div_is_ordered(b.units(), 255 * p, p);
        lemma_div_is_ordered(0, a.units(), p);
        assert((255 * p) / p == 255) by (nonlinear_arith)
            requires
                p > 0,
        ;
        vstd::arithmetic::div_mod::lemma_div_basics(p);
    }
}

/// A value at or below the lower bound gets the first byte.
pub proof fn law_low_values_are_clamped<A: Arithmetic>(
    x: &A,
    val: Scalar,
    min: Scalar,
    max: Scalar,
    q: u8,
)
    requires
        rounds_correctly(x),
        extended(x, min, max),
        val.finite(),
        val.at_most(min),
        bins_to(x, val, min, max, q),
    ensures
        q == 0,
{
    let (range, away, n, s) = lemma_binned(x, val, min, max, q);
    assert(away.at_most(zero()));
    assert(n.at_most(zero()));
    assert(unit_clamped(n).key() == 0);
    lemma_zero_byte(s);
}

/// A value at or above the upper bound gets the last byte.
pub proof fn law_high_values_are_clamped<A: Arithmetic>(
    x: &A,
    val: Scalar,
    min: Scalar,
    max: Scalar,
    q: u8,
)
    requires
        rounds_correctly(x),
        extended(x, min, max),
        val.finite(),
        max.at_most(val),
        bins_to(x, val, min, max, q),
    ensures
        q == 255,
{
    let (range, away, n, s) = lemma_binned(x, val, min, max, q);
    assert(range.at_most(away));
    assert(one().at_most(n));
    assert(unit_clamped(n).at_most(one()));
    lemma_clamped_to_one(n);
    lemma_top_byte();
}

proof fn lemma_clamped_to_one(n: Scalar)
    requires
        one().at_most(n),
    ensures
        unit_clamped(n) == one(),
{
}

proof fn lemma_one_range<A: Arithmetic>(x: &A, min: Scalar, max: Scalar, r: Scalar, t: Scalar)
    requires
        ordered_differences(x),
        extended(x, min, max),
        difference(x, max, min, r),
        difference(x, max, min, t),
    ensures
        r == t,
{
    assert(max.at_most(max));
    assert(r.at_most(t));
    assert(t.at_most(r));
}

proof fn lemma_clamping_keeps_order(n: Scalar, m: Scalar)
    requires
        n.at_most(m),
    ensures
        unit_clamped(n).at_most(unit_clamped(m)),
{
}

/// A value relative to the extent of its dimension, clamped, in its bin.
spec fn binned<A: Arithmetic>(
    x: &A,
    val: Scalar,
    min: Scalar,
    range: Scalar,
    away: Scalar,
    n: Scalar,
    s: Scalar,
) -> bool {
    difference(x, val, min, away) && quotient(x, away, range, n) && product(
        x,
        unit_clamped(n),
        top_bin(),
        s,
    )
}

proof fn lemma_binned<A: Arithmetic>(
    x: &A,
    val: Scalar,
    min: Scalar,
    max: Scalar,
    q: u8,
) -> (r: (Scalar, Scalar, Scalar, Scalar))
    requires
        extended(x, min, max),
        bins_to(x, val, min, max, q),
    ensures
        difference(x, max, min, r.0),
        binned(x, val, min, r.0, r.1, r.2, r.3),
        q == r.3.byte_spec(),
{
    let range = choose|range: Scalar| #[trigger]
        difference(x, max, min, range) && if flat(range) {
            flat_to(x, val, min, max, q)
        } else {
            linear_to(x, val, min, range, q)
        };
    let (away, n, s) = choose|away: Scalar, n: Scalar, s: Scalar| #[trigger]
        difference(x, val, min, away) && #[trigger] quotient(x, away, range, n)
            && #[trigger] product(x, unit_clamped(n), top_bin(), s) && q == s.byte_spec();
    (range, away, n, s)
}

proof fn lemma_bins_ordered<A: Arithmetic>(
    x: &A,
    a: Scalar,
    b: Scalar,
    min: Scalar,
    range: Scalar,
    u: (Scalar, Scalar, Scalar),
    v: (Scalar, Scalar, Scalar),
)
    requires
        rounds_correctly(x),
        min.finite(),
        range.finite(),
        zero().below(range),
        a.finite(),
        b.finite(),
        a.at_most(b),
        binned(x, a, min, range, u.0, u.1, u.2),
        binned(x, b, min, range, v.0, v.1, v.2),
    ensures
        u.2.at_most(v.2),
{
    assert(u.0.at_most(v.0));
    assert(u.1.at_most(v.1));
    lemma_clamping_keeps_order(u.1, v.1);
}

/// A larger value gets no smaller byte.
pub proof fn law_binning_keeps_order<A: Arithmetic>(
    x: &A,
    a: Scalar,
    b: Scalar,
    min: Scalar,
    max: Scalar,
    p: u8,
    q: u8,
)
    requires
        rounds_correctly(x),
        extended(x, min, max),
        a.finite(),
        b.finite(),
        a.at_most(b),
        bins_to(x, a, min, max, p),
        bins_to(x, b, min, max, q),
    ensures
        p <= q,
{
    let u = lemma_binned(x, a, min, max, p);
    let v = lemma_binned(x, b, min, max, q);
    lemma_one_range(x, min, max, u.0, v.0);
    lemma_bins_ordered(x, a, b, min, u.0, (u.1, u.2, u.3), (v.1, v.2, v.3));
    law_bytes_are_ordered(u.3, v.3);
}

} // verus!
