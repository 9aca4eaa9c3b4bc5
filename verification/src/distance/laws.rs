//! What distances are, under an arithmetic that rounds to nearest.
use crate::distance::{
    at_least, cosine_clamped, cosine_distance_to, cosine_similarity_to, cosine_to, dot_to, four_to,
    inner_product_distance_to, l2_squared_to, l2_to, norm_to, normalizes_to, one_to, squared,
    sums_to, term_to, Term,
};
use crate::rounding::{all_finite, close, grain, limit, rounding, size, speck, sum, value, within};
use crate::rounding::{
    law_order_of_values, law_signs, lemma_cauchy, lemma_divide_out, lemma_expand, lemma_numbers,
    lemma_positive, lemma_product_close, lemma_quotient, lemma_ratio, lemma_root_close,
    lemma_rounded_square, lemma_size, lemma_square, lemma_square_order, lemma_squared_difference,
    lemma_sum_both, lemma_sum_constant, lemma_sum_order, lemma_sum_part, lemma_sum_same,
    lemma_sum_size, lemma_swap, lemma_thresholds, lemma_times, lemma_total,
};
use crate::scalar::{difference, product, quotient, root, total, Arithmetic, Scalar};
use crate::scalar::{minus_one, one, tiny, zero};
use vstd::prelude::*;

verus! {

/// The products of the coordinates.
pub open spec fn products(a: Seq<Scalar>, b: Seq<Scalar>) -> spec_fn(int) -> real {
    |i: int| value(a[i]) * value(b[i])
}

/// The squares of the differences of the coordinates.
pub open spec fn gaps(a: Seq<Scalar>, b: Seq<Scalar>) -> spec_fn(int) -> real {
    |i: int| (value(a[i]) - value(b[i])) * (value(a[i]) - value(b[i]))
}

/// The distances of values from zero, and a speck each.
pub open spec fn weights(f: spec_fn(int) -> real) -> spec_fn(int) -> real {
    |i: int| size(f(i)) + speck()
}

/// The inner product of two vectors.
pub open spec fn inner(a: Seq<Scalar>, b: Seq<Scalar>) -> real {
    sum(products(a, b), a.len())
}

/// The squared Euclidean distance of two vectors.
pub open spec fn apart(a: Seq<Scalar>, b: Seq<Scalar>) -> real {
    sum(gaps(a, b), a.len())
}

/// How far a sum over `n` coordinates may be off, as a part of what is summed.
pub open spec fn drift(n: nat) -> real {
    (3real * (n as real) + 21real) * grain()
}

/// Two vectors of finite coordinates whose terms `f` stay far below the largest number.
pub open spec fn summable(a: Seq<Scalar>, b: Seq<Scalar>, f: spec_fn(int) -> real) -> bool {
    &&& all_finite(a) && all_finite(b)
    &&& a.len() == b.len()
    &&& a.len() <= 0x10_0000
    &&& 4real * sum(weights(f), a.len()) <= limit()
}

spec fn terms(t: Term, a: Seq<Scalar>, b: Seq<Scalar>) -> spec_fn(int) -> real {
    match t {
        Term::Product => products(a, b),
        Term::Square => gaps(a, b),
    }
}

pub(crate) proof fn lemma_squared<A: Arithmetic>(x: &A, a: Scalar, b: Scalar, p: Scalar)
    requires
        rounding(x),
        a.finite(),
        b.finite(),
        squared(x, a, b, p),
        4real * ((value(a) - value(b)) * (value(a) - value(b)) + speck()) <= limit(),
    ensures
        p.finite(),
        within(
            value(p),
            (value(a) - value(b)) * (value(a) - value(b)),
            (value(a) - value(b)) * (value(a) - value(b)) + speck(),
            9real * grain(),
        ),
{
    lemma_numbers();
    let d = choose|d: Scalar| #[trigger] difference(x, a, b, d) && product(x, d, d, p);
    let e = value(a) - value(b);
    let v = value(d);
    let s = speck();
    let g = grain();
    lemma_square(e);
    lemma_small(e);
    assert(d.finite());
    lemma_rounded_square(e, v, g, s);
    assert(p.finite());
    lemma_squared_difference(e, v, value(p), g, s);
}

/// A value whose square stays far below the largest number does.
pub(crate) proof fn lemma_small(e: real)
    requires
        4real * (e * e) <= limit(),
    ensures
        size(e) < limit(),
{
    lemma_numbers();
    lemma_square(e);
    let m = size(e);
    if m >= limit() {
        lemma_size(e, e);
        lemma_times(limit(), m, m);
        lemma_times(1real, limit(), m);
        assert(1real * m == m);
        assert(m <= limit() * m);
    }
}

proof fn lemma_term<A: Arithmetic>(
    x: &A,
    t: Term,
    a: Seq<Scalar>,
    b: Seq<Scalar>,
    i: int,
    p: Scalar,
)
    requires
        rounding(x),
        a[i].finite(),
        b[i].finite(),
        term_to(x, t, a[i], b[i], p),
        4real * weights(terms(t, a, b))(i) <= limit(),
    ensures
        p.finite(),
        within(value(p), terms(t, a, b)(i), weights(terms(t, a, b))(i), 9real * grain()),
{
    lemma_numbers();
    match t {
        Term::Product => {
            let e = value(a[i]) * value(b[i]);
            let g = grain();
            let w = size(e) + speck();
            lemma_size(e, 0real);
            lemma_expand(g, 0real, size(e), speck());
            lemma_positive(g, w);
            assert((9real * g) * w == 9real * (g * w)) by (nonlinear_arith);
        },
        Term::Square => {
            lemma_square(value(a[i]) - value(b[i]));
            lemma_squared(x, a[i], b[i], p);
        },
    }
}

/// Error bounds can be raised.
pub(crate) proof fn lemma_wider(r: real, v: real, t: real, k: real, l: real)
    requires
        within(r, v, t, k),
        k <= l,
    ensures
        within(r, v, t, l),
{
    lemma_size(v, 0real);
    lemma_times(k, l, t);
}

pub(crate) proof fn lemma_drift(n: nat)
    requires
        n <= 0x10_0000,
    ensures
        21real * grain() <= drift(n) <= 1real / 5real,
        n > 0 ==> drift(n) == drift((n - 1) as nat) + 3real * grain(),
        n >= 4 ==> drift(n) == drift((n - 4) as nat) + 12real * grain(),
{
    let g = grain();
    let m = n as real;
    assert(drift(n) == 3real * (m * g) + 21real * g) by (nonlinear_arith)
        requires
            drift(n) == (3real * m + 21real) * g,
    ;
    lemma_times(m, 0x10_0000real, g);
    lemma_positive(m, g);
    if n > 0 {
        assert((n - 1) as nat as real == m - 1real);
        assert(drift((n - 1) as nat) == 3real * (m * g) + 18real * g) by (nonlinear_arith)
            requires
                drift((n - 1) as nat) == (3real * (m - 1real) + 21real) * g,
        ;
    }
    if n >= 4 {
        assert((n - 4) as nat as real == m - 4real);
        assert(drift((n - 4) as nat) == 3real * (m * g) + 9real * g) by (nonlinear_arith)
            requires
                drift((n - 4) as nat) == (3real * (m - 4real) + 21real) * g,
        ;
    }
}

/// Four more values in a sum.
pub(crate) proof fn lemma_four_more(f: spec_fn(int) -> real, n: nat)
    requires
        n >= 4,
    ensures
        sum(f, n) == sum(f, (n - 4) as nat) + (f(n - 4) + f(n - 3) + f(n - 2) + f(n - 1)),
{
    assert(sum(f, (n - 1) as nat) == sum(f, (n - 2) as nat) + f(n - 2));
    assert(sum(f, (n - 2) as nat) == sum(f, (n - 3) as nat) + f(n - 3));
    assert(sum(f, (n - 3) as nat) == sum(f, (n - 4) as nat) + f(n - 4));
}

/// A sum over the first `n` coordinates is close to the sum of the terms.
#[verifier::rlimit(40)]
proof fn lemma_sums<A: Arithmetic>(
    x: &A,
    t: Term,
    a: Seq<Scalar>,
    b: Seq<Scalar>,
    n: nat,
    s: Scalar,
)
    requires
        rounding(x),
        n <= a.len(),
        summable(a, b, terms(t, a, b)),
        sums_to(x, t, a, b, n, s),
    ensures
        s.finite(),
        within(value(s), sum(terms(t, a, b), n), sum(weights(terms(t, a, b)), n), drift(n)),
    decreases n,
{
    let f = terms(t, a, b);
    let w = weights(f);
    lemma_numbers();
    lemma_drift(n);
    assert forall|i: int| 0 <= i < a.len() implies #[trigger] w(i) >= speck() by {
        lemma_size(f(i), 0real);
    }
    lemma_sum_part(w, n, a.len());
    lemma_sum_part(w, 0, a.len());
    if n == 0 {
        lemma_positive(drift(0), 0real);
    } else if n % 4 == 0 {
        let m = (n - 4) as nat;
        let s0 = choose|s0: Scalar|
            sums_to(x, t, a, b, m, s0) && #[trigger] four_to(x, t, a, b, n - 4, s0, s);
        lemma_sums(x, t, a, b, m, s0);
        lemma_drift(m);
        lemma_sum_part(w, m, a.len());
        lemma_four_more(f, n);
        lemma_four_more(w, n);
        lemma_four_terms(x, t, a, b, n - 4, s0, s, sum(f, m), sum(w, m), drift(m));
        lemma_wider(value(s), sum(f, n), sum(w, n), drift(m) + 12real * grain(), drift(n));
    } else {
        let m = (n - 1) as nat;
        let s0 = choose|s0: Scalar|
            sums_to(x, t, a, b, m, s0) && #[trigger] one_to(x, t, a, b, n - 1, s0, s);
        lemma_sums(x, t, a, b, m, s0);
        lemma_drift(m);
        lemma_sum_part(w, m, a.len());
        let p = choose|p: Scalar| #[trigger]
            term_to(x, t, a[n - 1], b[n - 1], p) && total(x, s0, p, s);
        lemma_term(x, t, a, b, n - 1, p);
        lemma_wider(value(p), f(n - 1), w(n - 1), 9real * grain(), drift(m));
        lemma_total(
            x,
            s0,
            sum(f, m),
            sum(w, m),
            p,
            f(n - 1),
            w(n - 1),
            s,
            drift(m),
        );
    }
}

proof fn lemma_four_terms<A: Arithmetic>(
    x: &A,
    t: Term,
    a: Seq<Scalar>,
    b: Seq<Scalar>,
    i: int,
    s0: Scalar,
    s: Scalar,
    v: real,
    u: real,
    k: real,
)
    requires
        rounding(x),
        all_finite(a),
        all_finite(b),
        0 <= i,
        i + 4 <= a.len() == b.len(),
        s0.finite(),
        within(value(s0), v, u, k),
        21real * grain() <= k <= 1real / 4real,
        four_to(x, t, a, b, i, s0, s),
        ({
            let w = weights(terms(t, a, b));
            4real * (u + (w(i) + w(i + 1) + w(i + 2) + w(i + 3))) <= limit()
        }),
    ensures
        s.finite(),
        ({
            let f = terms(t, a, b);
            let w = weights(f);
            within(
                value(s),
                v + (f(i) + f(i + 1) + f(i + 2) + f(i + 3)),
                u + (w(i) + w(i + 1) + w(i + 2) + w(i + 3)),
                k + 12real * grain(),
            )
        }),
{
    lemma_numbers();
    let f = terms(t, a, b);
    let w = weights(f);
    lemma_size(v, 0real);
    lemma_size(f(i), 0real);
    lemma_size(f(i + 1), 0real);
    lemma_size(f(i + 2), 0real);
    lemma_size(f(i + 3), 0real);
    let (p0, p1, p2, p3, t1, t2, t3) = choose|
        p0: Scalar,
        p1: Scalar,
        p2: Scalar,
        p3: Scalar,
        t1: Scalar,
        t2: Scalar,
        t3: Scalar,
    |
        #![trigger total(x, p0, p1, t1), total(x, t1, p2, t2), total(x, t2, p3, t3)]
        term_to(x, t, a[i], b[i], p0) && term_to(x, t, a[i + 1], b[i + 1], p1) && term_to(
            x,
            t,
            a[i + 2],
            b[i + 2],
            p2,
        ) && term_to(x, t, a[i + 3], b[i + 3], p3) && total(x, p0, p1, t1) && total(x, t1, p2, t2)
            && total(x, t2, p3, t3) && total(x, s0, t3, s);
    let g = grain();
    lemma_term(x, t, a, b, i, p0);
    lemma_term(x, t, a, b, i + 1, p1);
    lemma_term(x, t, a, b, i + 2, p2);
    lemma_term(x, t, a, b, i + 3, p3);
    lemma_total(x, p0, f(i), w(i), p1, f(i + 1), w(i + 1), t1, 9real * g);
    lemma_wider(value(p2), f(i + 2), w(i + 2), 9real * g, 12real * g);
    lemma_total(
        x,
        t1,
        f(i) + f(i + 1),
        w(i) + w(i + 1),
        p2,
        f(i + 2),
        w(i + 2),
        t2,
        12real * g,
    );
    lemma_wider(value(p3), f(i + 3), w(i + 3), 9real * g, 15real * g);
    lemma_total(
        x,
        t2,
        f(i) + f(i + 1) + f(i + 2),
        w(i) + w(i + 1) + w(i + 2),
        p3,
        f(i + 3),
        w(i + 3),
        t3,
        15real * g,
    );
    let fs = f(i) + f(i + 1) + f(i + 2) + f(i + 3);
    let ws = w(i) + w(i + 1) + w(i + 2) + w(i + 3);
    lemma_wider(value(t3), fs, ws, 18real * g, k);
    lemma_total(x, s0, v, u, t3, fs, ws, s, k);
    lemma_wider(value(s), v + fs, u + ws, k + 3real * g, k + 12real * g);
}

/// The inner product is the sum of the products of the coordinates, up to rounding.
pub proof fn law_dot_is_the_sum_of_products<A: Arithmetic>(
    x: &A,
    a: Seq<Scalar>,
    b: Seq<Scalar>,
    v: Scalar,
)
    requires
        rounding(x),
        summable(a, b, products(a, b)),
        dot_to(x, a, b, v),
    ensures
        v.finite(),
        size(value(v) - inner(a, b)) <= drift(a.len()) * sum(weights(products(a, b)), a.len()),
{
    lemma_sums(x, Term::Product, a, b, a.len(), v);
}

/// The squared Euclidean distance is the sum of the squared differences of the coordinates, up to
/// rounding.
pub proof fn law_l2_squared_is_the_sum_of_squares<A: Arithmetic>(
    x: &A,
    a: Seq<Scalar>,
    b: Seq<Scalar>,
    v: Scalar,
)
    requires
        rounding(x),
        summable(a, b, gaps(a, b)),
        l2_squared_to(x, a, b, v),
    ensures
        v.finite(),
        size(value(v) - apart(a, b)) <= drift(a.len()) * sum(weights(gaps(a, b)), a.len()),
{
    lemma_sums(x, Term::Square, a, b, a.len(), v);
}

/// The inner product distance is the sum of the products of the coordinates, with the opposite
/// sign, up to rounding.
pub proof fn law_inner_product_distance<A: Arithmetic>(
    x: &A,
    a: Seq<Scalar>,
    b: Seq<Scalar>,
    v: Scalar,
)
    requires
        rounding(x),
        summable(a, b, products(a, b)),
        inner_product_distance_to(x, a, b, v),
    ensures
        v.finite(),
        size(value(v) + inner(a, b)) <= drift(a.len()) * sum(weights(products(a, b)), a.len()),
{
    let s = choose|s: Scalar| #[trigger] dot_to(x, a, b, s) && v == s.neg_spec();
    law_dot_is_the_sum_of_products(x, a, b, s);
    law_signs(s);
    lemma_size(value(s) - inner(a, b), 0real);
}

// ---------------------------------------------------------------------------
// Lengths
// ---------------------------------------------------------------------------

/// A vector with a length: neither next to nothing nor close to the largest number.
pub open spec fn measurable(a: Seq<Scalar>) -> bool {
    &&& summable(a, a, products(a, a))
    &&& 0 < a.len()
    &&& a.len() as real * speck() <= inner(a, a)
}

/// How far the square of a length may be off, as a part of it.
pub open spec fn bend(n: nat) -> real {
    2real * drift(n) + 5real * grain()
}

/// The weights of squares sum up to the squares and a speck each.
pub(crate) proof fn lemma_square_weights(a: Seq<Scalar>, n: nat)
    ensures
        sum(weights(products(a, a)), n) == sum(products(a, a), n) + n as real * speck(),
{
    let f = products(a, a);
    let c = |i: int| speck();
    assert forall|i: int| 0 <= i < n implies #[trigger] weights(f)(i) == f(i) + 1real * c(i) by {
        lemma_square(value(a[i]));
    }
    lemma_sum_both(f, c, weights(f), 1real, n);
    lemma_sum_constant(c, speck(), n);
}

pub(crate) proof fn lemma_root_of_sum<A: Arithmetic>(
    x: &A,
    s: Scalar,
    v: Scalar,
    e: real,
    t: real,
    k: real,
)
    requires
        rounding(x),
        s.finite(),
        root(x, s, v),
        within(value(s), e, t, k),
        0real < t <= 2real * e,
        0real <= k <= 1real / 4real,
    ensures
        v.finite(),
        value(v) >= 0real,
        size(value(v) * value(v) - e) <= (2real * k + 5real * grain()) * e,
{
    let g = grain();
    let q = value(v) * value(v);
    lemma_times(t, 2real * e, k);
    lemma_times(k, 1real / 4real, 2real * e);
    assert(k * (2real * e) == 2real * (k * e)) by (nonlinear_arith);
    assert(2real * value(s) <= 3real * e && value(s) >= 0real);
    lemma_size(q - value(s), value(s) - e);
    assert((2real * k + 5real * g) * e == 2real * (k * e) + 5real * (g * e)) by (nonlinear_arith);
    lemma_times(value(s), 3real * e / 2real, g);
    assert(3real * g * value(s) == 3real * (g * value(s))) by (nonlinear_arith);
    assert(g * (3real * e / 2real) == 3real / 2real * (g * e)) by (nonlinear_arith);
    lemma_positive(g, e);
}

/// The square of the length of a vector is the sum of the squares of its coordinates, up to
/// rounding.
pub proof fn law_norm<A: Arithmetic>(x: &A, a: Seq<Scalar>, v: Scalar)
    requires
        rounding(x),
        measurable(a),
        norm_to(x, a, v),
    ensures
        v.finite(),
        value(v) >= 0real,
        size(value(v) * value(v) - inner(a, a)) <= bend(a.len()) * inner(a, a),
{
    let s = choose|s: Scalar| #[trigger] dot_to(x, a, a, s) && root(x, s, v);
    lemma_sums(x, Term::Product, a, a, a.len(), s);
    lemma_square_weights(a, a.len());
    lemma_drift(a.len());
    lemma_numbers();
    lemma_count(a.len());
    lemma_root_of_sum(
        x,
        s,
        v,
        inner(a, a),
        sum(weights(products(a, a)), a.len()),
        drift(a.len()),
    );
}

pub(crate) proof fn lemma_count(n: nat)
    requires
        n > 0,
    ensures
        n as real * speck() >= speck() > 0real,
{
    lemma_numbers();
    lemma_times(1real, n as real, speck());
    assert(1real * speck() == speck());
}

/// The square of the Euclidean distance is the sum of the squared differences of the coordinates,
/// up to rounding, wherever that sum is not next to nothing.
pub proof fn law_l2<A: Arithmetic>(x: &A, a: Seq<Scalar>, b: Seq<Scalar>, v: Scalar)
    requires
        rounding(x),
        summable(a, b, gaps(a, b)),
        0 < a.len(),
        a.len() as real * speck() <= apart(a, b),
        l2_to(x, a, b, v),
    ensures
        v.finite(),
        value(v) >= 0real,
        size(value(v) * value(v) - apart(a, b)) <= bend(a.len()) * apart(a, b),
{
    let n = a.len();
    let s = choose|s: Scalar| #[trigger] l2_squared_to(x, a, b, s) && root(x, s, v);
    lemma_sums(x, Term::Square, a, b, n, s);
    let f = gaps(a, b);
    let c = |i: int| speck();
    assert forall|i: int| 0 <= i < n implies #[trigger] weights(f)(i) == f(i) + 1real * c(i) by {
        lemma_square(value(a[i]) - value(b[i]));
    }
    lemma_sum_both(f, c, weights(f), 1real, n);
    lemma_sum_constant(c, speck(), n);
    lemma_drift(n);
    lemma_numbers();
    lemma_count(n);
    lemma_root_of_sum(x, s, v, apart(a, b), sum(weights(f), n), drift(n));
}

/// A coordinate divided by a length that is off.
pub(crate) proof fn lemma_scaled<A: Arithmetic>(
    x: &A,
    a: Seq<Scalar>,
    i: int,
    la: real,
    n: Scalar,
    r: Scalar,
)
    requires
        rounding(x),
        measurable(a),
        a.len() <= 0x1_0000,
        0 <= i < a.len(),
        la >= 0real,
        la * la == inner(a, a),
        n.finite(),
        value(n) >= 0real,
        size(value(n) * value(n) - inner(a, a)) <= bend(a.len()) * inner(a, a),
        quotient(x, a[i], n, r),
    ensures
        r.finite(),
        size(value(r) - value(a[i]) / la) <= 2real * bend(a.len()) + 3real * grain(),
{
    lemma_numbers();
    lemma_count(a.len());
    lemma_drift(a.len());
    lemma_skew(a.len());
    let e = bend(a.len());
    let g = grain();
    let f = products(a, a);
    let v = value(a[i]);
    assert(la > 0real) by {
        assert(0real * 0real == 0real);
    }
    lemma_root_close(value(n), la, e);
    assert forall|k: int| 0 <= k < a.len() implies #[trigger] f(k) >= 0real by {
        lemma_square(value(a[k]));
    }
    lemma_sum_part(f, 0, a.len());
    assert(f(i) <= inner(a, a));
    lemma_square_order(v, la);
    assert(a[i].finite());
    lemma_positive(0real, la);
    lemma_ratio(v, value(n), v, la, 0real, e);
    let q = v / value(n);
    lemma_size(q - v / la, v / la);
    assert(r.finite());
    lemma_times(size(q), 2real, g);
    lemma_times(speck(), 1real, g);
    lemma_size(value(r) - q, q - v / la);
}

/// Scaling a vector of length `la` to unit length divides every coordinate by that length, up to
/// rounding.
pub proof fn law_normalizing<A: Arithmetic>(
    x: &A,
    a: Seq<Scalar>,
    b: Seq<Scalar>,
    la: real,
    i: int,
)
    requires
        rounding(x),
        measurable(a),
        a.len() <= 0x1_0000,
        la >= 1real / 500_000_000_000real,
        la * la == inner(a, a),
        normalizes_to(x, a, b),
        0 <= i < a.len(),
    ensures
        b.len() == a.len(),
        b[i].finite(),
        size(value(b[i]) - value(a[i]) / la) <= 2real * bend(a.len()) + 3real * grain(),
{
    let n = choose|n: Scalar| #[trigger]
        norm_to(x, a, n) && b.len() == a.len() && forall|k: int|
            0 <= k < a.len() ==> if tiny().below(n) {
                quotient(x, a[k], n, #[trigger] b[k])
            } else {
                b[k] == a[k]
            };
    law_norm(x, a, n);
    lemma_drift(a.len());
    lemma_skew(a.len());
    lemma_root_close(value(n), la, bend(a.len()));
    lemma_times(bend(a.len()), 1real / 8real, la);
    lemma_thresholds();
    law_order_of_values(tiny(), n);
    assert(quotient(x, a[i], n, b[i]));
    lemma_scaled(x, a, i, la, n, b[i]);
}

// ---------------------------------------------------------------------------
// Angles
// ---------------------------------------------------------------------------

/// The weights of the products of two vectors do not exceed those of their squares on average.
proof fn lemma_mixed_weights(a: Seq<Scalar>, b: Seq<Scalar>, n: nat)
    ensures
        2real * sum(weights(products(a, b)), n) <= sum(weights(products(a, a)), n) + sum(
            weights(products(b, b)),
            n,
        ),
{
    let w = weights(products(a, b));
    let p = weights(products(a, a));
    let q = weights(products(b, b));
    let z = |i: int| 0real;
    let d = |i: int| 0real + 2real * w(i);
    let h = |i: int| p(i) + 1real * q(i);
    lemma_sum_both(z, w, d, 2real, n);
    lemma_sum_both(p, q, h, 1real, n);
    lemma_sum_constant(z, 0real, n);
    assert(n as real * 0real == 0real) by (nonlinear_arith);
    assert forall|i: int| 0 <= i < n implies #[trigger] d(i) <= h(i) by {
        let u = value(a[i]);
        let v = value(b[i]);
        lemma_size(u, v);
        lemma_square(u);
        lemma_square(v);
        lemma_square(size(u) - size(v));
        lemma_expand(size(u), size(v), size(u), size(v));
        lemma_swap(size(u), size(v), size(u), size(v));
    }
    lemma_sum_order(d, h, n);
}

/// The inner product of two vectors does not exceed the product of their lengths.
proof fn lemma_inner_bound(a: Seq<Scalar>, b: Seq<Scalar>, la: real, lb: real)
    requires
        a.len() == b.len(),
        la >= 0real,
        lb >= 0real,
        la * la == inner(a, a),
        lb * lb == inner(b, b),
    ensures
        size(inner(a, b)) <= la * lb,
        sum(weights(products(a, b)), a.len()) <= la * lb + a.len() as real * speck(),
{
    let n = a.len();
    let f = |i: int| value(a[i]);
    let g = |i: int| value(b[i]);
    let fg = |i: int| size(products(a, b)(i));
    lemma_cauchy(f, g, fg, products(a, a), products(b, b), n);
    lemma_swap(la, lb, la, lb);
    lemma_positive(la, lb);
    lemma_square_order(sum(fg, n), la * lb);
    lemma_sum_size(products(a, b), fg, n);
    let c = |i: int| speck();
    lemma_sum_both(fg, c, weights(products(a, b)), 1real, n);
    lemma_sum_constant(c, speck(), n);
}

/// How far a cosine distance of vectors of `n` coordinates may be off.
pub open spec fn skew(n: nat) -> real {
    16real * drift(n) + 50real * grain()
}

/// A divisor computed from two lengths.
proof fn lemma_divisor<A: Arithmetic>(
    x: &A,
    na: Scalar,
    nb: Scalar,
    r: Scalar,
    la: real,
    lb: real,
    e: real,
)
    requires
        rounding(x),
        na.finite(),
        nb.finite(),
        product(x, na, nb, r),
        la > 0real,
        lb > 0real,
        size(value(na) - la) <= e * la,
        size(value(nb) - lb) <= e * lb,
        0real <= e,
        3real * e + 3real * grain() <= 1real / 8real,
        1real / 500_000_000_000real <= la * lb,
        4real * (la * lb) <= limit(),
    ensures
        r.finite(),
        size(value(r) - la * lb) <= (3real * e + 3real * grain()) * (la * lb),
        at_least(r, tiny()) == r,
{
    lemma_numbers();
    lemma_thresholds();
    let p = la * lb;
    let q = value(na) * value(nb);
    let g = grain();
    lemma_product_close(value(na), value(nb), la, lb, e);
    lemma_positive(e, p);
    lemma_times(e, 1real / 24real, p);
    lemma_size(q - p, p);
    assert(size(q) <= 2real * p);
    assert(r.finite());
    lemma_times(size(q), 2real * p, g);
    lemma_times(speck(), p, g);
    assert(g * (2real * p) == 2real * (g * p)) by (nonlinear_arith);
    lemma_size(value(r) - q, q - p);
    assert((3real * e + 3real * g) * p == 3real * (e * p) + 3real * (g * p)) by (nonlinear_arith);
    lemma_times(3real * e + 3real * g, 1real / 8real, p);
    law_order_of_values(r, tiny());
    assert(!r.nan());
}

/// A cosine from its parts.
proof fn lemma_cosine<A: Arithmetic>(
    x: &A,
    s: Scalar,
    n: Scalar,
    q: Scalar,
    vs: real,
    vn: real,
    es: real,
    en: real,
)
    requires
        rounding(x),
        s.finite(),
        n.finite(),
        quotient(x, s, n, q),
        vn > 0real,
        size(vs) <= vn,
        size(value(s) - vs) <= es * vn,
        size(value(n) - vn) <= en * vn,
        0real <= es <= 1real / 4real,
        0real <= en <= 1real / 8real,
    ensures
        cosine_clamped(q).finite(),
        size(value(cosine_clamped(q)) - vs / vn) <= 2real * (es + en) + 3real * grain(),
        size(value(cosine_clamped(q))) <= 1real,
{
    lemma_numbers();
    let g = grain();
    let z = vs / vn;
    let d = value(s) / value(n);
    lemma_ratio(value(s), value(n), vs, vn, es, en);
    lemma_size(d - z, z);
    assert(size(d) <= 2real);
    assert(q.finite());
    lemma_times(size(d), 2real, g);
    lemma_times(speck(), 1real, g);
    lemma_size(value(q) - d, d - z);
    law_order_of_values(q, minus_one());
    law_order_of_values(one(), q);
    law_order_of_values(minus_one(), q);
    law_order_of_values(q, one());
}

pub(crate) proof fn lemma_skew(n: nat)
    requires
        n <= 0x1_0000,
    ensures
        drift(n) <= 1real / 64real,
{
    let g = grain();
    let m = n as real;
    assert(drift(n) == 3real * (m * g) + 21real * g) by (nonlinear_arith)
        requires
            drift(n) == (3real * m + 21real) * g,
    ;
    lemma_times(m, 0x1_0000real, g);
}

/// The cosine distance of two vectors with lengths `la` and `lb` is one minus their inner product
/// divided by both lengths, up to rounding.
pub proof fn law_cosine_distance<A: Arithmetic>(
    x: &A,
    a: Seq<Scalar>,
    b: Seq<Scalar>,
    la: real,
    lb: real,
    v: Scalar,
)
    requires
        rounding(x),
        measurable(a),
        measurable(b),
        a.len() == b.len() <= 0x1_0000,
        la >= 0real,
        lb >= 0real,
        la * la == inner(a, a),
        lb * lb == inner(b, b),
        1real / 500_000_000_000real <= la * lb,
        cosine_distance_to(x, a, b, v),
    ensures
        v.finite(),
        size(value(v) - (1real - inner(a, b) / (la * lb))) <= skew(a.len()),
{
    let n = a.len();
    lemma_numbers();
    let (s, c) = choose|s: Scalar, c: Scalar| #[trigger]
        dot_to(x, a, b, s) && #[trigger] cosine_to(x, a, b, s, c) && difference(x, one(), c, v);
    let (na, nb, m, q) = choose|na: Scalar, nb: Scalar, m: Scalar, q: Scalar|
        #![trigger norm_to(x, a, na), norm_to(x, b, nb), product(x, na, nb, m), quotient(x, s, at_least(m, tiny()), q)]
        norm_to(x, a, na) && norm_to(x, b, nb) && product(x, na, nb, m) && quotient(
            x,
            s,
            at_least(m, tiny()),
            q,
        ) && c == cosine_clamped(q);
    let k = drift(n);
    let g = grain();
    let p = la * lb;
    lemma_drift(n);
    lemma_skew(n);
    lemma_count(n);
    assert(la > 0real && lb > 0real) by {
        assert(0real * 0real == 0real);
    }
    law_norm(x, a, na);
    law_norm(x, b, nb);
    let e = bend(n);
    lemma_root_close(value(na), la, e);
    lemma_root_close(value(nb), lb, e);
    lemma_mixed_weights(a, b, n);
    lemma_inner_bound(a, b, la, lb);
    lemma_lengths(a, b, la, lb);
    lemma_divisor(x, na, nb, m, la, lb, e);
    lemma_sums(x, Term::Product, a, b, n, s);
    lemma_times(sum(weights(products(a, b)), n), 2real * p, k);
    assert(k * (2real * p) == (2real * k) * p) by (nonlinear_arith);
    lemma_cosine(x, s, m, q, inner(a, b), p, 2real * k, 3real * e + 3real * g);
    let z = inner(a, b) / p;
    let d = 1real - value(c);
    lemma_size(1real, value(c));
    assert(size(d) <= 2real);
    assert(v.finite());
    lemma_times(size(d), 2real, g);
    lemma_times(speck(), 1real, g);
    lemma_size(value(v) - d, z - value(c));
    lemma_size(value(c) - z, 0real);
}

/// Bounds on the product of two lengths.
proof fn lemma_lengths(a: Seq<Scalar>, b: Seq<Scalar>, la: real, lb: real)
    requires
        measurable(a),
        measurable(b),
        a.len() == b.len(),
        la >= 0real,
        lb >= 0real,
        la * la == inner(a, a),
        lb * lb == inner(b, b),
    ensures
        a.len() as real * speck() <= la * lb,
        4real * (la * lb) <= limit(),
{
    let t = a.len() as real * speck();
    lemma_count(a.len());
    lemma_square_weights(a, a.len());
    lemma_square_weights(b, b.len());
    lemma_times(t, la * la, t);
    lemma_times(t, lb * lb, la * la);
    lemma_swap(la, lb, la, lb);
    lemma_positive(la, lb);
    lemma_square_order(t, la * lb);
    lemma_square(la - lb);
    lemma_expand(la, lb, la, lb);
    lemma_swap(la, lb, la, lb);
}

/// The cosine distance does not depend on which vector comes first, up to rounding.
pub proof fn law_cosine_is_symmetric<A: Arithmetic>(
    x: &A,
    a: Seq<Scalar>,
    b: Seq<Scalar>,
    la: real,
    lb: real,
    v: Scalar,
    w: Scalar,
)
    requires
        rounding(x),
        measurable(a),
        measurable(b),
        a.len() == b.len() <= 0x1_0000,
        la >= 0real,
        lb >= 0real,
        la * la == inner(a, a),
        lb * lb == inner(b, b),
        1real / 500_000_000_000real <= la * lb,
        cosine_distance_to(x, a, b, v),
        cosine_distance_to(x, b, a, w),
    ensures
        size(value(v) - value(w)) <= 2real * skew(a.len()),
{
    law_cosine_distance(x, a, b, la, lb, v);
    lemma_swap(la, lb, la, lb);
    law_cosine_distance(x, b, a, lb, la, w);
    assert forall|i: int| 0 <= i < a.len() implies #[trigger] products(a, b)(i) == products(b, a)(
        i,
    ) by {
        lemma_swap(value(a[i]), value(b[i]), 0real, 0real);
    }
    lemma_sum_same(products(a, b), products(b, a), a.len());
    let z = 1real - inner(a, b) / (la * lb);
    lemma_size(value(v) - z, value(w) - z);
}

/// Scaling a vector by a positive number does not change its cosine distance from another, up to
/// rounding.
pub proof fn law_cosine_ignores_scale<A: Arithmetic>(
    x: &A,
    a: Seq<Scalar>,
    b: Seq<Scalar>,
    c: Seq<Scalar>,
    t: real,
    la: real,
    lb: real,
    v: Scalar,
    w: Scalar,
)
    requires
        rounding(x),
        measurable(a),
        measurable(b),
        measurable(c),
        a.len() == b.len() == c.len() <= 0x1_0000,
        t > 0real,
        forall|i: int| 0 <= i < a.len() ==> value(#[trigger] c[i]) == t * value(a[i]),
        la >= 0real,
        lb >= 0real,
        la * la == inner(a, a),
        lb * lb == inner(b, b),
        1real / 500_000_000_000real <= la * lb,
        1real / 500_000_000_000real <= (t * la) * lb,
        cosine_distance_to(x, a, b, v),
        cosine_distance_to(x, c, b, w),
    ensures
        size(value(v) - value(w)) <= 2real * skew(a.len()),
{
    let n = a.len();
    let z = |i: int| 0real;
    lemma_sum_constant(z, 0real, n);
    assert(n as real * 0real == 0real) by (nonlinear_arith);
    assert forall|i: int| 0 <= i < n implies #[trigger] products(c, b)(i) == z(i) + t * products(
        a,
        b,
    )(i) by {
        let (p, q) = (value(a[i]), value(b[i]));
        assert(value(c[i]) == t * p);
        assert((t * p) * q == t * (p * q)) by (nonlinear_arith);
    }
    lemma_sum_both(z, products(a, b), products(c, b), t, n);
    assert forall|i: int| 0 <= i < n implies #[trigger] products(c, c)(i) == z(i) + (t * t)
        * products(a, a)(i) by {
        let p = value(a[i]);
        assert(value(c[i]) == t * p);
        lemma_swap(t, p, t, p);
    }
    lemma_sum_both(z, products(a, a), products(c, c), t * t, n);
    lemma_positive(t, la);
    lemma_swap(t, la, t, la);
    law_cosine_distance(x, a, b, la, lb, v);
    law_cosine_distance(x, c, b, t * la, lb, w);
    // the quotients agree
    let s = inner(a, b);
    let p = la * lb;
    let r = (t * la) * lb;
    assert(r == t * p) by (nonlinear_arith)
        requires
            r == (t * la) * lb,
            p == la * lb,
    ;
    let y = (t * s) / r;
    let u = s / p;
    lemma_quotient(t * s, r);
    lemma_quotient(s, p);
    assert(u * r == t * s) by (nonlinear_arith)
        requires
            r == t * p,
            u * p == s,
    ;
    lemma_divide_out(y, u, r);
    lemma_divide_out(u, y, r);
    lemma_size(value(v) - (1real - u), value(w) - (1real - u));
}

/// The cosine similarity of two vectors with lengths `la` and `lb` is their inner product divided
/// by both lengths, up to rounding.
pub proof fn law_cosine_similarity<A: Arithmetic>(
    x: &A,
    a: Seq<Scalar>,
    b: Seq<Scalar>,
    la: real,
    lb: real,
    v: Scalar,
)
    requires
        rounding(x),
        measurable(a),
        measurable(b),
        a.len() == b.len() <= 0x1_0000,
        la >= 0real,
        lb >= 0real,
        la * la == inner(a, a),
        lb * lb == inner(b, b),
        1real / 500_000_000_000real <= la * lb,
        cosine_similarity_to(x, a, b, v),
    ensures
        v.finite(),
        size(value(v) - inner(a, b) / (la * lb)) <= skew(a.len()) + 3real * grain(),
{
    lemma_numbers();
    lemma_drift(a.len());
    lemma_skew(a.len());
    lemma_count(a.len());
    let d = choose|d: Scalar| #[trigger]
        cosine_distance_to(x, a, b, d) && difference(x, one(), d, v);
    law_cosine_distance(x, a, b, la, lb, d);
    lemma_inner_bound(a, b, la, lb);
    let z = inner(a, b) / (la * lb);
    lemma_ratio(inner(a, b), la * lb, inner(a, b), la * lb, 0real, 0real);
    let e = 1real - value(d);
    lemma_size(z - e, z);
    assert(size(value(d) - (1real - z)) == size(z - e));
    assert(size(e) <= 2real);
    lemma_times(size(e), 2real, grain());
    lemma_times(speck(), 1real, grain());
    lemma_size(value(v) - e, e - z);
}

} // verus!
