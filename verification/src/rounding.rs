//! Exact values of numbers, and what holds of arithmetic that rounds to nearest.
//!
//! Values are real numbers. A result is close to the value that it stands for if it is off by at
//! most one part of it in `2^24` (in double precision one part in `2^53`), and half the smallest
//! positive number.
use crate::bins::error::{lemma_constants, unit};
use crate::scalar::{
    counted, difference, law_order_is_value_order, product, quotient, root, total,
};
use crate::scalar::{hundred, millionth, minus_one, one, tiny, top_bin, zero, Arithmetic, Scalar};
use vstd::arithmetic::power2::{lemma2_to64, lemma_pow2_adds, lemma_pow2_pos, pow2};
use vstd::prelude::*;

pub mod wide;

verus! {

/// The distance of a value from zero.
pub open spec fn size(v: real) -> real {
    if v < 0real {
        -v
    } else {
        v
    }
}

/// The sum of the first `n` values of `f`.
pub open spec fn sum(f: spec_fn(int) -> real, n: nat) -> real
    decreases n,
{
    if n == 0 {
        0real
    } else {
        sum(f, (n - 1) as nat) + f(n - 1)
    }
}

/// `r` is off from `exact` by at most one part in `1 / g` of it, and of `s`.
pub open spec fn close(r: real, exact: real, g: real, s: real) -> bool {
    size(r - exact) <= g * size(exact) + g * s
}

/// `r` is off from `v` by at most the part `k` of `t`, which is at least as large as `v`.
pub open spec fn within(r: real, v: real, t: real, k: real) -> bool {
    size(v) <= t && size(r - v) <= k * t
}

/// The exact value of a finite number.
pub open spec fn value(s: Scalar) -> real {
    s.units() as real / unit() as real
}

/// One part in `2^24`.
pub open spec fn grain() -> real {
    1real / 0x100_0000real
}

/// The smallest positive number whose fraction has full precision.
pub open spec fn speck() -> real {
    1real / pow2(126) as real
}

/// Results below this are finite.
pub open spec fn limit() -> real {
    pow2(127) as real
}

/// All coordinates are finite.
pub open spec fn all_finite(a: Seq<Scalar>) -> bool {
    forall|i: int| 0 <= i < a.len() ==> (#[trigger] a[i]).finite()
}

/// `r` is the number for `exact`: close to it, and finite unless it is too large.
pub open spec fn rounded(r: Scalar, exact: real) -> bool {
    &&& size(exact) < limit() ==> r.finite()
    &&& r.finite() ==> close(value(r), exact, grain(), speck())
}

/// An arithmetic whose operations round to nearest. The square of a root is off by at most three
/// parts in `2^24`; negative numbers have none.
pub open spec fn rounding<A: Arithmetic>(x: &A) -> bool {
    &&& forall|a: Scalar, b: Scalar, r: Scalar|
        a.finite() && b.finite() && #[trigger] difference(x, a, b, r) ==> rounded(
            r,
            value(a) - value(b),
        )
    &&& forall|a: Scalar, b: Scalar, r: Scalar|
        a.finite() && b.finite() && #[trigger] total(x, a, b, r) ==> rounded(
            r,
            value(a) + value(b),
        )
    &&& forall|a: Scalar, b: Scalar, r: Scalar|
        a.finite() && b.finite() && #[trigger] product(x, a, b, r) ==> rounded(
            r,
            value(a) * value(b),
        )
    &&& forall|a: Scalar, b: Scalar, r: Scalar|
        a.finite() && b.finite() && value(b) != 0real && #[trigger] quotient(x, a, b, r)
            ==> rounded(r, value(a) / value(b))
    &&& forall|a: Scalar, r: Scalar|
        a.finite() && value(a) >= 0real && #[trigger] root(x, a, r) ==> r.finite() && value(r)
            >= 0real && size(value(r) * value(r) - value(a)) <= 3real * grain() * value(a)
    &&& forall|a: Scalar, r: Scalar|
        a.finite() && value(a) < 0real && #[trigger] root(x, a, r) ==> r.nan()
    &&& forall|n: usize, r: Scalar| #[trigger]
        counted(x, n, r) ==> r.finite() && close(value(r), n as real, grain(), speck()) && (n
            <= 0x100_0000 ==> value(r) == n as real)
}

/// Differences lie on the same side of every number as the exact value.
pub open spec fn steady<A: Arithmetic>(x: &A) -> bool {
    forall|a: Scalar, b: Scalar, r: Scalar, c: Scalar|
        a.finite() && b.finite() && r.finite() && #[trigger] c.finite() && #[trigger] difference(
            x,
            a,
            b,
            r,
        ) ==> (value(a) - value(b) >= value(c) ==> value(r) >= value(c)) && (value(a) - value(b)
            <= value(c) ==> value(r) <= value(c))
}

// ---------------------------------------------------------------------------
// Real numbers
// ---------------------------------------------------------------------------

pub(crate) proof fn lemma_size(a: real, b: real)
    ensures
        size(a + b) <= size(a) + size(b),
        size(a - b) <= size(a) + size(b),
        size(a * b) == size(a) * size(b),
        size(a) >= 0real,
        size(-a) == size(a),
{
    assert(size(a * b) == size(a) * size(b)) by {
        if a >= 0real && b >= 0real {
            assert(a * b >= 0real) by (nonlinear_arith)
                requires
                    a >= 0real,
                    b >= 0real,
            ;
        } else if a < 0real && b < 0real {
            assert(a * b >= 0real && (-a) * (-b) == a * b) by (nonlinear_arith)
                requires
                    a < 0real,
                    b < 0real,
            ;
        } else if a < 0real {
            assert(a * b <= 0real && (-a) * b == -(a * b)) by (nonlinear_arith)
                requires
                    a < 0real,
                    b >= 0real,
            ;
        } else {
            assert(a * b <= 0real && a * (-b) == -(a * b)) by (nonlinear_arith)
                requires
                    a >= 0real,
                    b < 0real,
            ;
        }
    }
}

/// Products keep the order of values that are not negative.
pub(crate) proof fn lemma_times(a: real, b: real, c: real)
    requires
        a <= b,
        0real <= c,
    ensures
        a * c <= b * c,
        c * a <= c * b,
{
    assert(a * c <= b * c && c * a <= c * b) by (nonlinear_arith)
        requires
            a <= b,
            0real <= c,
    ;
}

/// A rounded sum of two values that are off is off by three grains more.
pub(crate) proof fn lemma_added(
    a: real,
    va: real,
    ta: real,
    b: real,
    vb: real,
    tb: real,
    r: real,
    k: real,
    g: real,
    s: real,
)
    requires
        within(a, va, ta, k),
        within(b, vb, tb, k),
        close(r, a + b, g, s),
        0real <= k <= 1real / 2real,
        0real <= g,
        0real <= s <= ta + tb,
    ensures
        within(r, va + vb, ta + tb, k + 3real * g),
        size(a + b) <= 2real * (ta + tb),
{
    let t = ta + tb;
    lemma_size(va, vb);
    lemma_size(a - va, b - vb);
    lemma_size(r - (a + b), (a + b) - (va + vb));
    lemma_size((a + b) - (va + vb), va + vb);
    assert(k * ta + k * tb == k * t) by (nonlinear_arith)
        requires
            t == ta + tb,
    ;
    lemma_times(k, 1real / 2real, t);
    let e = size(a + b);
    assert(e <= 2real * t);
    lemma_times(e, 2real * t, g);
    lemma_times(s, t, g);
    assert((k + 3real * g) * t == k * t + g * (2real * t) + g * t) by (nonlinear_arith);
}

/// The rounded square of a rounded difference is off by nine grains.
pub(crate) proof fn lemma_squared_difference(e: real, v: real, p: real, g: real, s: real)
    requires
        close(v, e, g, s),
        close(p, v * v, g, s),
        0real <= g <= 1real / 6real,
        0real < s <= 1real,
    ensures
        within(p, e * e, e * e + s, 9real * g),
{
    let m = size(e);
    lemma_square(e);
    lemma_size(e, 0real);
    let o = size(v - e);
    let h = m + s;
    assert(o <= g * h) by {
        lemma_expand(g, 0real, m, s);
    }
    lemma_times(g, 1real, h);
    lemma_size(v - e, e);
    assert(size(v) <= 2real * h) by {
        assert(1real * h == h);
    }
    assert((v - e) * (v + e) == v * v - e * e) by (nonlinear_arith);
    lemma_size(v - e, v + e);
    lemma_size(v, e);
    lemma_positive(g, h);
    lemma_times(o, g * h, size(v + e));
    lemma_times(size(v + e), 3real * h, g * h);
    assert((g * h) * (3real * h) == 3real * (g * (h * h))) by (nonlinear_arith);
    let t = e * e + s;
    assert(h * h <= 2real * t) by {
        lemma_expand(m, s, m, s);
        lemma_swap(m, s, m, s);
        lemma_square(m - s);
        lemma_times(s, 1real, s);
    }
    lemma_times(h * h, 2real * t, g);
    assert(g * (2real * t) == 2real * (g * t)) by (nonlinear_arith);
    assert(size(v * v - e * e) <= 6real * (g * t));
    lemma_square(v);
    lemma_times(g, 1real / 6real, t);
    assert(v * v <= 2real * t);
    lemma_times(v * v, 2real * t, g);
    lemma_times(s, t, g);
    lemma_size(p - v * v, v * v - e * e);
    assert((9real * g) * t == 9real * (g * t)) by (nonlinear_arith);
}

/// The square of a rounded difference is at most three times the square and a little.
pub(crate) proof fn lemma_rounded_square(e: real, v: real, g: real, s: real)
    requires
        close(v, e, g, s),
        0real <= g <= 1real / 6real,
        0real < s <= 1real,
    ensures
        0real <= v * v <= 3real * (e * e + s),
{
    let m = size(e);
    let h = m + s;
    lemma_square(e);
    lemma_square(v);
    lemma_size(e, 0real);
    lemma_size(v - e, e);
    lemma_size(v, 0real);
    lemma_expand(g, 0real, m, s);
    lemma_times(g, 1real / 6real, h);
    assert(size(v) <= 7real / 6real * h);
    lemma_square_up(size(v), 7real / 6real * h);
    assert((7real / 6real * h) * (7real / 6real * h) == 49real / 36real * (h * h))
        by (nonlinear_arith);
    lemma_expand(m, s, m, s);
    lemma_swap(m, s, m, s);
    lemma_square(m - s);
    lemma_times(s, 1real, s);
}

/// Larger values have larger squares.
pub(crate) proof fn lemma_square_up(a: real, b: real)
    requires
        0real <= a <= b,
    ensures
        a * a <= b * b,
{
    lemma_times(a, b, a);
    lemma_times(a, b, b);
}

/// A sum of values that are not larger is not larger.
pub(crate) proof fn lemma_sum_order(f: spec_fn(int) -> real, g: spec_fn(int) -> real, n: nat)
    requires
        forall|i: int| 0 <= i < n ==> #[trigger] f(i) <= g(i),
    ensures
        sum(f, n) <= sum(g, n),
    decreases n,
{
    if n > 0 {
        lemma_sum_order(f, g, (n - 1) as nat);
        assert(f(n - 1) <= g(n - 1));
    }
}

/// Equal values have equal sums.
pub(crate) proof fn lemma_sum_same(f: spec_fn(int) -> real, g: spec_fn(int) -> real, n: nat)
    requires
        forall|i: int| 0 <= i < n ==> #[trigger] f(i) == g(i),
    ensures
        sum(f, n) == sum(g, n),
    decreases n,
{
    if n > 0 {
        lemma_sum_same(f, g, (n - 1) as nat);
        assert(f(n - 1) == g(n - 1));
    }
}

/// The sum of fewer values that are not negative is not larger, and no value exceeds it.
pub(crate) proof fn lemma_sum_part(f: spec_fn(int) -> real, m: nat, n: nat)
    requires
        m <= n,
        forall|i: int| 0 <= i < n ==> #[trigger] f(i) >= 0real,
    ensures
        0real <= sum(f, m) <= sum(f, n),
        forall|i: int| m <= i < n ==> #[trigger] f(i) <= sum(f, n),
    decreases n,
{
    if m < n {
        lemma_sum_part(f, m, (n - 1) as nat);
        assert(f(n - 1) >= 0real);
    } else if m > 0 {
        lemma_sum_part(f, (m - 1) as nat, (m - 1) as nat);
        assert(f(m - 1) >= 0real);
    }
}

/// What holds of two sums holds of the sum of both.
pub(crate) proof fn lemma_sum_both(
    f: spec_fn(int) -> real,
    g: spec_fn(int) -> real,
    h: spec_fn(int) -> real,
    c: real,
    n: nat,
)
    requires
        forall|i: int| 0 <= i < n ==> #[trigger] h(i) == f(i) + c * g(i),
    ensures
        sum(h, n) == sum(f, n) + c * sum(g, n),
    decreases n,
{
    if n > 0 {
        lemma_sum_both(f, g, h, c, (n - 1) as nat);
        assert(h(n - 1) == f(n - 1) + c * g(n - 1));
        let a = sum(g, (n - 1) as nat);
        let b = g(n - 1);
        assert(c * (a + b) == c * a + c * b) by (nonlinear_arith);
    } else {
        assert(c * 0real == 0real) by (nonlinear_arith);
    }
}

/// A sum that is the same value over and over is a multiple of it.
pub(crate) proof fn lemma_sum_constant(f: spec_fn(int) -> real, c: real, n: nat)
    requires
        forall|i: int| 0 <= i < n ==> #[trigger] f(i) == c,
    ensures
        sum(f, n) == n as real * c,
    decreases n,
{
    if n > 0 {
        lemma_sum_constant(f, c, (n - 1) as nat);
        assert(f(n - 1) == c);
        let m = (n - 1) as real;
        assert((m + 1real) * c == m * c + c) by (nonlinear_arith);
        assert(n as real == m + 1real);
    } else {
        assert(0real * c == 0real) by (nonlinear_arith);
    }
}

/// The triangle inequality.
pub(crate) proof fn lemma_sum_size(f: spec_fn(int) -> real, g: spec_fn(int) -> real, n: nat)
    requires
        forall|i: int| 0 <= i < n ==> size(#[trigger] f(i)) <= g(i),
    ensures
        size(sum(f, n)) <= sum(g, n),
    decreases n,
{
    if n > 0 {
        lemma_sum_size(f, g, (n - 1) as nat);
        assert(size(f(n - 1)) <= g(n - 1));
        lemma_size(sum(f, (n - 1) as nat), f(n - 1));
    }
}

/// The inequality of Cauchy and Schwarz.
pub(crate) proof fn lemma_cauchy(
    f: spec_fn(int) -> real,
    g: spec_fn(int) -> real,
    fg: spec_fn(int) -> real,
    ff: spec_fn(int) -> real,
    gg: spec_fn(int) -> real,
    n: nat,
)
    requires
        forall|i: int| 0 <= i < n ==> #[trigger] fg(i) == size(f(i) * g(i)),
        forall|i: int| 0 <= i < n ==> #[trigger] ff(i) == f(i) * f(i),
        forall|i: int| 0 <= i < n ==> #[trigger] gg(i) == g(i) * g(i),
    ensures
        sum(fg, n) * sum(fg, n) <= sum(ff, n) * sum(gg, n),
        sum(fg, n) >= 0real,
        sum(ff, n) >= 0real,
        sum(gg, n) >= 0real,
    decreases n,
{
    if n > 0 {
        let m = (n - 1) as nat;
        lemma_cauchy(f, g, fg, ff, gg, m);
        let a = size(f(n - 1));
        let b = size(g(n - 1));
        lemma_size(f(n - 1), g(n - 1));
        lemma_square(f(n - 1));
        lemma_square(g(n - 1));
        assert(fg(n - 1) == a * b);
        assert(ff(n - 1) == a * a);
        assert(gg(n - 1) == b * b);
        lemma_cauchy_step(sum(fg, m), sum(ff, m), sum(gg, m), a, b);
    } else {
        assert(0real * 0real == 0real) by (nonlinear_arith);
    }
}

/// A square is not negative, and that of the distance from zero.
pub(crate) proof fn lemma_square(a: real)
    ensures
        a * a >= 0real,
        size(a) * size(a) == a * a,
{
    assert(a * a >= 0real && (-a) * (-a) == a * a) by (nonlinear_arith);
}

/// Factors can be exchanged.
pub(crate) proof fn lemma_swap(a: real, b: real, c: real, d: real)
    ensures
        (a * b) * (c * d) == (a * c) * (b * d),
        a * b == b * a,
{
    assert((a * b) * (c * d) == (a * c) * (b * d)) by (nonlinear_arith);
    assert(a * b == b * a) by (nonlinear_arith);
}

/// A product of sums is a sum of products.
pub(crate) proof fn lemma_expand(a: real, b: real, c: real, d: real)
    ensures
        (a + b) * (c + d) == a * c + a * d + b * c + b * d,
        (a - b) * (c - d) == a * c - a * d - b * c + b * d,
        a * (c + d) == a * c + a * d,
        a * (c - d) == a * c - a * d,
        (a + b) * c == a * c + b * c,
        (a - b) * c == a * c - b * c,
{
    assert((a + b) * (c + d) == a * c + a * d + b * c + b * d) by (nonlinear_arith);
    assert((a - b) * (c - d) == a * c - a * d - b * c + b * d) by (nonlinear_arith);
    assert(a * (c + d) == a * c + a * d) by (nonlinear_arith);
    assert(a * (c - d) == a * c - a * d) by (nonlinear_arith);
    assert((a + b) * c == a * c + b * c) by (nonlinear_arith);
    assert((a - b) * c == a * c - b * c) by (nonlinear_arith);
}

proof fn lemma_cauchy_step(c: real, p: real, q: real, a: real, b: real)
    requires
        c >= 0real,
        p >= 0real,
        q >= 0real,
        c * c <= p * q,
        a >= 0real,
        b >= 0real,
    ensures
        (c + a * b) * (c + a * b) <= (p + a * a) * (q + b * b),
        a * b >= 0real,
{
    let u = p * (b * b);
    let v = q * (a * a);
    let m = a * b;
    let y = c * m;
    lemma_square(a);
    lemma_square(b);
    lemma_square(m);
    lemma_square(u - v);
    lemma_positive(a, b);
    lemma_positive(p, b * b);
    lemma_positive(q, a * a);
    lemma_expand(u, v, u, v);
    lemma_swap(u, v, u, v);
    lemma_swap(p, b * b, q, a * a);
    lemma_swap(a, b, a, b);
    lemma_swap(b * b, a * a, b * b, a * a);
    lemma_swap(c, m, c, m);
    lemma_expand(y, y, y, y);
    lemma_times(c * c, p * q, m * m);
    assert((2real * y) * (2real * y) == 4real * (y * y)) by {
        assert(2real * y == y + y);
    }
    lemma_square_order(2real * y, u + v);
    lemma_expand(c, m, c, m);
    lemma_swap(c, m, c, m);
    lemma_expand(p, a * a, q, b * b);
    lemma_swap(a * a, q, a * a, q);
}

/// A product of values that are not negative is not negative.
pub(crate) proof fn lemma_positive(a: real, b: real)
    requires
        a >= 0real,
        b >= 0real,
    ensures
        a * b >= 0real,
{
    assert(a * b >= 0real) by (nonlinear_arith)
        requires
            a >= 0real,
            b >= 0real,
    ;
}

/// The order of squares is the order of values that are not negative.
pub(crate) proof fn lemma_square_order(a: real, b: real)
    requires
        b >= 0real,
        a * a <= b * b,
    ensures
        a <= b,
        -b <= a,
{
    assert(a <= b && -b <= a) by (nonlinear_arith)
        requires
            b >= 0real,
            a * a <= b * b,
    ;
}

// ---------------------------------------------------------------------------
// Numbers
// ---------------------------------------------------------------------------

/// A whole number of units of one, divided by it.
pub(crate) proof fn lemma_quotient_of_units(v: real, w: real)
    requires
        w > 0real,
    ensures
        (v * w) / w == v,
{
    assert((v * w) / w == v) by (nonlinear_arith)
        requires
            w > 0real,
    ;
}

/// Comparing finite numbers is comparing their values.
pub proof fn law_order_of_values(a: Scalar, b: Scalar)
    requires
        a.finite(),
        b.finite(),
    ensures
        a.below(b) <==> value(a) < value(b),
        a.at_most(b) <==> value(a) <= value(b),
{
    law_order_is_value_order(a, b);
    lemma_constants();
    let u = unit() as real;
    let p = a.units() as real;
    let q = b.units() as real;
    assert(p < q <==> p / u < q / u) by (nonlinear_arith)
        requires
            u > 0real,
    ;
    assert(p <= q <==> p / u <= q / u) by (nonlinear_arith)
        requires
            u > 0real,
    ;
}

/// The opposite number has the opposite value, and the number without its sign its distance from
/// zero.
pub proof fn law_signs(s: Scalar)
    requires
        s.finite(),
    ensures
        s.neg_spec().finite(),
        value(s.neg_spec()) == -value(s),
        s.abs_spec().finite(),
        value(s.abs_spec()) == size(value(s)),
{
    let n = s.neg_spec();
    let m = s.abs_spec();
    assert(n.magnitude() == s.magnitude());
    assert(m.magnitude() == s.magnitude());
    assert(n.units() == -s.units());
    assert(zero().units() == 0);
    lemma_constants();
    let u = unit() as real;
    let p = s.units() as real;
    assert((-p) / u == -(p / u)) by (nonlinear_arith)
        requires
            u > 0real,
    ;
    law_order_is_value_order(zero(), m);
    law_order_of_values(zero(), m);
    lemma_quotient_of_units(0real, u);
    assert(m.units() == s.units() || m.units() == -s.units());
}

pub(crate) proof fn lemma_numbers()
    ensures
        zero().finite() && value(zero()) == 0real,
        one().finite() && value(one()) == 1real,
        minus_one().finite() && value(minus_one()) == -1real,
        hundred().finite() && value(hundred()) == 100real,
        top_bin().finite() && value(top_bin()) == 255real,
        0real < speck() < 1real / 0x1_0000_0000_0000_0000real,
        limit() > 0x1_0000_0000_0000_0000real,
        limit() * speck() == 2real,
        unit() > 0,
{
    lemma_constants();
    let u = unit() as real;
    assert(zero().units() == 0);
    lemma_quotient_of_units(0real, u);
    lemma_quotient_of_units(1real, u);
    lemma_quotient_of_units(255real, u);
    lemma_quotient_of_units(100real, u);
    law_signs(one());
    assert(one().neg_spec() == minus_one());
    lemma2_to64();
    lemma_pow2_adds(64, 32);
    lemma_pow2_adds(96, 30);
    lemma_pow2_adds(126, 1);
    assert(hundred().magnitude() / 0x80_0000 == 133);
    assert(hundred().magnitude() % 0x80_0000 == 0x48_0000);
    lemma_pow2_adds(17, 132);
    assert(hundred().units() == 100 * unit());
    let q = pow2(126) as real;
    assert(pow2(126) > 0x1_0000_0000_0000_0000);
    lemma_inverse(q, 0x1_0000_0000_0000_0000real);
    lemma_expand(q, q, 1real / q, 0real);
}

/// The numbers that results are held against.
pub(crate) proof fn lemma_thresholds()
    ensures
        tiny().finite(),
        millionth().finite(),
        9real / 10_000_000_000_000real <= value(tiny()) <= 11real / 10_000_000_000_000real,
        9real / 10_000_000real <= value(millionth()) <= 1real / 1_000_000real,
{
    lemma_constants();
    lemma2_to64();
    lemma_pow2_adds(32, 31);
    lemma_pow2_adds(86, 63);
    lemma_pow2_adds(106, 43);
    lemma_pow2_adds(32, 11);
    lemma_pow2_pos(86);
    lemma_pow2_pos(106);
    assert(tiny().magnitude() / 0x80_0000 == 87);
    assert(tiny().magnitude() % 0x80_0000 == 0xc_bccc);
    assert(millionth().magnitude() / 0x80_0000 == 107);
    assert(millionth().magnitude() % 0x80_0000 == 0x6_37bd);
    assert(tiny().units() == 0x8c_bccc * pow2(86));
    assert(millionth().units() == 0x86_37bd * pow2(106));
    assert(pow2(63) == 0x8000_0000_0000_0000);
    assert(pow2(43) == 0x800_0000_0000);
    let (a, b) = (pow2(86), pow2(63));
    assert(a * b == 0x8000_0000_0000_0000 * a) by (nonlinear_arith)
        requires
            b == 0x8000_0000_0000_0000,
    ;
    let (c, d) = (pow2(106), pow2(43));
    assert(c * d == 0x800_0000_0000 * c) by (nonlinear_arith)
        requires
            d == 0x800_0000_0000,
    ;
    let u = unit() as real;
    let t = tiny().units() as real;
    let m = millionth().units() as real;
    lemma_quotient(t, u);
    lemma_quotient(m, u);
    lemma_divide_out(t / u, 11real / 10_000_000_000_000real, u);
    lemma_divide_out(9real / 10_000_000_000_000real, t / u, u);
    lemma_divide_out(m / u, 1real / 1_000_000real, u);
    lemma_divide_out(9real / 10_000_000real, m / u, u);
}

/// What is divided by more is less.
pub(crate) proof fn lemma_inverse(q: real, c: real)
    requires
        q > c > 0real,
    ensures
        q * (1real / q) == 1real,
        0real < 1real / q < 1real / c,
{
    assert(q * (1real / q) == 1real && 1real / q > 0real) by (nonlinear_arith)
        requires
            q > 0real,
    ;
    assert(c * (1real / c) == 1real && 1real / c > 0real) by (nonlinear_arith)
        requires
            c > 0real,
    ;
    let s = 1real / q;
    let t = 1real / c;
    assert(s < t) by (nonlinear_arith)
        requires
            q * s == 1real,
            c * t == 1real,
            s > 0real,
            t > 0real,
            q > c,
            c > 0real,
    ;
}

/// A product of whole numbers as a real number.
pub(crate) proof fn lemma_whole_product(w: nat, u: int)
    ensures
        (w * u) as real == w as real * u as real,
    decreases w,
{
    let v = u as real;
    if w > 0 {
        lemma_whole_product((w - 1) as nat, u);
        assert(w * u == (w - 1) * u + u) by (nonlinear_arith);
        let m = (w - 1) as real;
        assert((m + 1real) * v == m * v + v) by (nonlinear_arith);
        assert(w as real == m + 1real);
    } else {
        assert(0 * u == 0) by (nonlinear_arith);
        assert(0real * v == 0real) by (nonlinear_arith);
    }
}

/// The whole part of a number.
pub(crate) proof fn lemma_whole(s: Scalar)
    requires
        s.units() >= 0,
    ensures
        0 <= s.units() / unit(),
        (s.units() / unit()) as real <= value(s) < (s.units() / unit()) as real + 1real,
        s.units() % unit() == 0 ==> value(s) == (s.units() / unit()) as real,
        s.units() % unit() != 0 ==> value(s) > (s.units() / unit()) as real,
{
    lemma_constants();
    let u = unit();
    let a = s.units();
    let w = a / u;
    let r = a % u;
    vstd::arithmetic::div_mod::lemma_fundamental_div_mod(a, u);
    vstd::arithmetic::div_mod::lemma_mod_bound(a, u);
    vstd::arithmetic::div_mod::lemma_div_pos_is_pos(a, u);
    lemma_whole_product(w as nat, u);
    assert(u * w == w * u) by (nonlinear_arith);
    let p = a as real;
    let q = u as real;
    let v = w as real;
    assert(p == v * q + r as real);
    lemma_quotient(p, q);
    let d = p / q;
    lemma_expand(d, v, q, 0real);
    lemma_expand(v, 1real, q, 0real);
    assert(v <= d) by {
        lemma_divide_out(v, d, q);
    }
    assert(d <= v + 1real) by {
        lemma_divide_out(d, v + 1real, q);
    }
    if d == v + 1real {
        assert(false);
    }
    if r != 0 && d == v {
        assert(false);
    }
    if r == 0 {
        lemma_divide_out(d, v, q);
    }
}

/// A quotient times its divisor.
pub(crate) proof fn lemma_quotient(a: real, b: real)
    requires
        b != 0real,
    ensures
        (a / b) * b == a,
{
    assert((a / b) * b == a) by (nonlinear_arith)
        requires
            b != 0real,
    ;
}

/// A common factor can be taken out of an inequality.
pub(crate) proof fn lemma_divide_out(a: real, b: real, f: real)
    requires
        f > 0real,
        a * f <= b * f,
    ensures
        a <= b,
{
    assert(a <= b) by (nonlinear_arith)
        requires
            f > 0real,
            a * f <= b * f,
    ;
}

/// A quotient of values that are off is off.
pub(crate) proof fn lemma_ratio(s: real, n: real, vs: real, vn: real, es: real, en: real)
    requires
        vn > 0real,
        size(vs) <= vn,
        size(s - vs) <= es * vn,
        size(n - vn) <= en * vn,
        0real <= es <= 1real / 4real,
        0real <= en <= 1real / 8real,
    ensures
        n > 0real,
        7real * vn <= 8real * n,
        size(s / n - vs / vn) <= 2real * (es + en),
        size(vs / vn) <= 1real,
{
    lemma_times(en, 1real / 8real, vn);
    let q = s / n;
    let z = vs / vn;
    lemma_quotient(s, n);
    lemma_quotient(vs, vn);
    lemma_size(z, vn);
    assert(size(z) * vn <= 1real * vn);
    lemma_divide_out(size(z), 1real, vn);
    // (q - z) * n == (s - vs) + z * (vn - n)
    lemma_expand(q, z, n, 0real);
    lemma_expand(z, 0real, vn, n);
    lemma_size(s - vs, z * (vn - n));
    lemma_size(z, vn - n);
    lemma_size(n - vn, 0real);
    lemma_times(size(z), 1real, size(vn - n));
    lemma_size(q - z, n);
    let d = es + en;
    lemma_expand(es, en, vn, 0real);
    assert(size(q - z) * n <= d * vn);
    lemma_times(7real * vn, 8real * n, d);
    assert(d * (7real * vn) == 7real * (d * vn)) by (nonlinear_arith);
    assert(d * (8real * n) == 8real * (d * n)) by (nonlinear_arith);
    lemma_positive(d, n);
    assert((2real * d) * n == 2real * (d * n)) by (nonlinear_arith);
    lemma_divide_out(size(q - z), 2real * d, n);
}

/// A value whose square is close to a square is close.
pub(crate) proof fn lemma_root_close(r: real, l: real, e: real)
    requires
        r >= 0real,
        l > 0real,
        size(r * r - l * l) <= e * (l * l),
        e >= 0real,
    ensures
        size(r - l) <= e * l,
{
    lemma_expand(r, l, r, l);
    lemma_swap(r, l, r, l);
    assert((r - l) * (r + l) == r * r - l * l) by (nonlinear_arith);
    lemma_size(r - l, r + l);
    let d = size(r - l);
    lemma_times(l, r + l, d);
    assert(d * l <= e * (l * l));
    assert(e * (l * l) == (e * l) * l) by (nonlinear_arith);
    lemma_divide_out(d, e * l, l);
}

/// A product of values that are off is off.
pub(crate) proof fn lemma_product_close(a: real, b: real, va: real, vb: real, e: real)
    requires
        va >= 0real,
        vb >= 0real,
        size(a - va) <= e * va,
        size(b - vb) <= e * vb,
        0real <= e <= 1real / 2real,
    ensures
        size(a * b - va * vb) <= 3real * (e * (va * vb)),
{
    let p = a - va;
    let q = b - vb;
    let t = va * vb;
    lemma_positive(va, vb);
    lemma_expand(va, p, vb, q);
    lemma_size(va, q);
    lemma_size(p, vb);
    lemma_size(p, q);
    lemma_size(va * q, p * vb);
    lemma_size(va * q + p * vb, p * q);
    assert(size(va) == va && size(vb) == vb);
    lemma_times(size(q), e * vb, va);
    lemma_times(size(p), e * va, vb);
    assert(va * (e * vb) == e * t) by (nonlinear_arith)
        requires
            t == va * vb,
    ;
    assert((e * va) * vb == e * t) by (nonlinear_arith)
        requires
            t == va * vb,
    ;
    lemma_positive(e, vb);
    lemma_times(size(p), e * va, size(q));
    lemma_positive(e, va);
    lemma_times(size(q), e * vb, e * va);
    lemma_swap(e, va, e, vb);
    lemma_positive(e, t);
    lemma_times(e, 1real / 2real, e * t);
    assert((e * e) * t == e * (e * t)) by (nonlinear_arith);
}

/// A rounded quotient of a value that is off and a count.
pub(crate) proof fn lemma_divided(s: real, v: real, t: real, k: real, n: real, r: real, g: real, p: real)
    requires
        within(s, v, t, k),
        0real <= k <= 1real / 2real,
        n >= 1real,
        close(r, s / n, g, p),
        0real <= g,
        0real <= n * p <= t,
        p >= 0real,
    ensures
        size(r - v / n) <= (k + 3real * g) * (t / n),
        size(s / n) <= 2real * t,
{
    let q = s / n;
    let z = v / n;
    let y = t / n;
    lemma_quotient(s, n);
    lemma_quotient(v, n);
    lemma_quotient(t, n);
    lemma_size(v, 0real);
    lemma_size(q, 0real);
    lemma_expand(q, z, n, 0real);
    lemma_size(q - z, n);
    lemma_size(q, n);
    assert((k * y) * n == k * (y * n)) by (nonlinear_arith);
    lemma_divide_out(size(q - z), k * y, n);
    lemma_times(k, 1real / 2real, t);
    lemma_size(s - v, v);
    assert((2real * y) * n == 2real * (y * n)) by (nonlinear_arith);
    lemma_divide_out(size(q), 2real * y, n);
    lemma_swap(p, n, p, n);
    lemma_divide_out(p, y, n);
    lemma_times(size(q), 2real * y, g);
    lemma_times(p, y, g);
    lemma_size(r - q, q - z);
    assert((k + 3real * g) * y == k * y + g * (2real * y) + g * y) by (nonlinear_arith);
    lemma_times(1real, n, size(q));
    assert(size(q) * 1real == size(q));
}

/// A quotient of a value that is off and a count is not large.
pub(crate) proof fn lemma_half(s: real, v: real, t: real, k: real, n: real)
    requires
        within(s, v, t, k),
        0real <= k <= 1real / 2real,
        n >= 1real,
    ensures
        size(s / n) <= 2real * t,
{
    let q = s / n;
    lemma_quotient(s, n);
    lemma_size(v, 0real);
    lemma_size(q, n);
    lemma_times(k, 1real / 2real, t);
    lemma_size(s - v, v);
    lemma_times(1real, n, size(q));
    assert(size(q) * 1real == size(q));
}

/// A rounded sum of two numbers that are off is off by three grains more.
pub(crate) proof fn lemma_total<A: Arithmetic>(
    x: &A,
    a: Scalar,
    va: real,
    ta: real,
    b: Scalar,
    vb: real,
    tb: real,
    r: Scalar,
    k: real,
)
    requires
        rounding(x),
        a.finite(),
        b.finite(),
        total(x, a, b, r),
        within(value(a), va, ta, k),
        within(value(b), vb, tb, k),
        0real <= k <= 1real / 2real,
        speck() <= ta + tb,
        4real * (ta + tb) <= limit(),
    ensures
        r.finite(),
        within(value(r), va + vb, ta + tb, k + 3real * grain()),
{
    lemma_numbers();
    let e = value(a) + value(b);
    lemma_size(va, vb);
    lemma_size(value(a) - va, value(b) - vb);
    lemma_size(e - (va + vb), va + vb);
    lemma_times(k, 1real / 2real, ta);
    lemma_times(k, 1real / 2real, tb);
    assert(size(e) < limit());
    lemma_added(value(a), va, ta, value(b), vb, tb, value(r), k, grain(), speck());
}

} // verus!
