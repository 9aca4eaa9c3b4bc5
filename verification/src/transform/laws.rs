//! What transforms do, under an arithmetic that rounds to nearest.
use crate::distance::at_least;
use crate::distance::laws::{
    bend, drift, inner, lemma_count, lemma_drift, lemma_root_of_sum, lemma_scaled, lemma_skew,
    lemma_square_weights, lemma_wider, measurable, products, summable, weights,
};
use crate::ops::laws::{
    averageable, coordinates, law_mean, law_variance, mean_value, squared_deviations,
};
use crate::ops::mean_to;
use crate::ops::variance_to;
use crate::rounding::{close, grain, limit, rounding, size, speck, sum, value, within};
use crate::rounding::{
    law_order_of_values, lemma_divide_out, lemma_expand, lemma_numbers, lemma_positive,
    lemma_quotient, lemma_root_close, lemma_size, lemma_square, lemma_square_up, lemma_sum_both,
    lemma_sum_constant, lemma_sum_part, lemma_swap, lemma_thresholds, lemma_times, lemma_total,
};
use crate::scalar::{difference, millionth, product, quotient, root, total, Arithmetic, Scalar};
use crate::transform::{
    deviation_to, length_to, square_added, squares_to, standardizes_to, Centering, Normalizer,
    Standardizer, Transform,
};
use vstd::prelude::*;

verus! {

/// Centering takes the mean off every coordinate, up to rounding.
pub proof fn law_centering<A: Arithmetic>(
    t: Centering,
    x: &A,
    input: Seq<Scalar>,
    output: Seq<Scalar>,
    i: int,
)
    requires
        rounding(x),
        t.maps(x, input, output),
        0 <= i < input.len(),
        input[i].finite(),
        t.center()[i].finite(),
        size(value(input[i]) - value(t.center()[i])) < limit(),
    ensures
        output[i].finite(),
        size(value(output[i]) - (value(input[i]) - value(t.center()[i]))) <= grain() * (size(
            value(input[i]) - value(t.center()[i]),
        ) + speck()),
{
    assert(difference(x, input[i], t.center()[i], output[i]));
    lemma_expand(grain(), 0real, size(value(input[i]) - value(t.center()[i])), speck());
}

// ---------------------------------------------------------------------------
// Unit length
// ---------------------------------------------------------------------------

proof fn lemma_squares<A: Arithmetic>(x: &A, a: Seq<Scalar>, n: nat, s: Scalar)
    requires
        rounding(x),
        n <= a.len(),
        summable(a, a, products(a, a)),
        squares_to(x, a, n, s),
    ensures
        s.finite(),
        within(
            value(s),
            sum(products(a, a), n),
            sum(weights(products(a, a)), n),
            drift(n),
        ),
    decreases n,
{
    let f = products(a, a);
    let w = weights(f);
    lemma_numbers();
    lemma_drift(n);
    assert forall|i: int| 0 <= i < a.len() implies #[trigger] w(i) >= speck() by {
        lemma_size(f(i), 0real);
    }
    lemma_sum_part(w, n, a.len());
    if n == 0 {
        lemma_positive(drift(0), 0real);
    } else {
        let m = (n - 1) as nat;
        let s0 = choose|s0: Scalar|
            squares_to(x, a, m, s0) && #[trigger] square_added(x, a[n - 1], s0, s);
        lemma_squares(x, a, m, s0);
        lemma_drift(m);
        lemma_sum_part(w, m, n);
        let p = choose|p: Scalar| #[trigger]
            product(x, a[n - 1], a[n - 1], p) && total(x, s0, p, s);
        assert(a[n - 1].finite());
        let e = value(a[n - 1]) * value(a[n - 1]);
        let g = grain();
        lemma_square(value(a[n - 1]));
        assert(f(n - 1) == e);
        lemma_expand(g, 0real, e, speck());
        assert(within(value(p), f(n - 1), w(n - 1), g));
        lemma_wider(value(p), f(n - 1), w(n - 1), g, drift(m));
        lemma_total(x, s0, sum(f, m), sum(w, m), p, f(n - 1), w(n - 1), s, drift(m));
    }
}

/// A vector of length `la`, well above the smallest length to divide by, comes out with every
/// coordinate divided by that length, up to rounding.
pub proof fn law_unit_length<A: Arithmetic>(
    t: Normalizer,
    x: &A,
    input: Seq<Scalar>,
    output: Seq<Scalar>,
    la: real,
    i: int,
)
    requires
        rounding(x),
        t.maps(x, input, output),
        measurable(input),
        input.len() <= 0x1_0000,
        t.least().finite(),
        la >= 0real,
        la * la == inner(input, input),
        2real * value(t.least()) <= la,
        0 <= i < input.len(),
    ensures
        output[i].finite(),
        size(value(output[i]) - value(input[i]) / la) <= 2real * bend(input.len()) + 3real
            * grain(),
{
    let len = input.len();
    let n = choose|n: Scalar| #[trigger]
        length_to(x, input, t.least(), n) && forall|k: int|
            0 <= k < len ==> quotient(x, input[k], n, #[trigger] output[k]);
    let (s, r) = choose|s: Scalar, r: Scalar| #[trigger]
        squares_to(x, input, len, s) && #[trigger] root(x, s, r) && n == at_least(r, t.least());
    lemma_squares(x, input, len, s);
    lemma_square_weights(input, len);
    lemma_drift(len);
    lemma_skew(len);
    lemma_numbers();
    lemma_count(len);
    lemma_root_of_sum(
        x,
        s,
        r,
        inner(input, input),
        sum(weights(products(input, input)), len),
        drift(len),
    );
    assert(la > 0real) by {
        assert(0real * 0real == 0real);
    }
    lemma_root_close(value(r), la, bend(len));
    lemma_times(bend(len), 1real / 8real, la);
    law_order_of_values(r, t.least());
    assert(n == r);
    assert(quotient(x, input[i], n, output[i]));
    lemma_scaled(x, input, i, la, n, output[i]);
}

// ---------------------------------------------------------------------------
// Mean zero and deviation one
// ---------------------------------------------------------------------------

/// A standardized coordinate times the deviation is the coordinate without the mean, up to
/// rounding.
pub proof fn law_standardizing<A: Arithmetic>(
    t: Standardizer,
    x: &A,
    input: Seq<Scalar>,
    output: Seq<Scalar>,
    i: int,
)
    requires
        rounding(x),
        t.maps(x, input, output),
        0 <= i < input.len(),
        input[i].finite(),
        t.center()[i].finite(),
        t.spread()[i].finite(),
        value(t.spread()[i]) > 0real,
        ({
            let e = size(value(input[i]) - value(t.center()[i]));
            4real * (e + speck()) <= limit() && 4real * (e + speck()) <= limit() * value(
                t.spread()[i],
            )
        }),
    ensures
        output[i].finite(),
        ({
            let e = value(input[i]) - value(t.center()[i]);
            let s = value(t.spread()[i]);
            size(value(output[i]) * s - e) <= 3real * (grain() * (size(e) + speck() * (s + 1real)))
        }),
{
    lemma_numbers();
    assert(standardizes_to(x, input[i], t.center()[i], t.spread()[i], output[i]));
    let d = choose|d: Scalar| #[trigger]
        difference(x, input[i], t.center()[i], d) && quotient(x, d, t.spread()[i], output[i]);
    let e = value(input[i]) - value(t.center()[i]);
    let s = value(t.spread()[i]);
    let g = grain();
    let p = speck();
    lemma_size(e, 0real);
    assert(d.finite());
    let v = value(d);
    let q = v / s;
    lemma_quotient(v, s);
    lemma_size(v - e, e);
    lemma_expand(g, 0real, size(e), p);
    lemma_times(g, 1real / 2real, size(e) + p);
    assert(size(v) <= 2real * (size(e) + p));
    lemma_size(q, s);
    assert(size(q) < limit()) by {
        if size(q) >= limit() {
            lemma_times(limit(), size(q), s);
            assert(limit() * s <= size(v));
        }
    }
    assert(output[i].finite());
    lemma_standard(value(output[i]), v, e, s, q, g, p);
}

proof fn lemma_standard(o: real, v: real, e: real, s: real, q: real, g: real, p: real)
    requires
        s > 0real,
        q * s == v,
        close(o, q, g, p),
        close(v, e, g, p),
        0real <= g <= 1real / 2real,
        0real <= p,
    ensures
        size(o * s - e) <= 3real * (g * (size(e) + p * (s + 1real))),
{
    lemma_expand(o, q, s, 0real);
    lemma_size(o - q, s);
    lemma_times(size(o - q), g * size(q) + g * p, s);
    lemma_size(q, s);
    assert((g * size(q) + g * p) * s == g * (size(q) * s) + g * (p * s)) by (nonlinear_arith);
    lemma_size(o * s - v, v - e);
    lemma_size(v - e, e);
    lemma_size(e, 0real);
    lemma_expand(g, 0real, size(e), p);
    lemma_times(g, 1real / 2real, size(e) + p);
    lemma_times(size(v), 3real / 2real * (size(e) + p), g);
    assert(g * (3real / 2real * (size(e) + p)) == 3real / 2real * (g * size(e)) + 3real / 2real * (g
        * p)) by (nonlinear_arith);
    assert(g * (size(e) + p * (s + 1real)) == g * size(e) + g * (p * s) + g * p)
        by (nonlinear_arith);
    lemma_positive(g, size(e));
    lemma_positive(p, s);
    lemma_positive(g, p * s);
    lemma_positive(g, p);
}

/// How far the square of a deviation may be off, as a part of it.
pub open spec fn wobble(n: nat) -> real {
    2real * drift(n) + 11real * grain()
}

/// Weights of squares, on average.
proof fn lemma_mean_weights(f: spec_fn(int) -> real, n: nat)
    requires
        n > 0,
        forall|i: int| 0 <= i < n ==> #[trigger] f(i) >= 0real,
    ensures
        mean_value(weights(f), n) == mean_value(f, n) + speck(),
        mean_value(f, n) >= 0real,
{
    let c = |i: int| speck();
    let m = n as real;
    assert forall|i: int| 0 <= i < n implies #[trigger] weights(f)(i) == f(i) + 1real * c(i) by {
        assert(f(i) >= 0real);
    }
    lemma_sum_both(f, c, weights(f), 1real, n);
    lemma_sum_constant(c, speck(), n);
    lemma_sum_part(f, 0, n);
    let a = sum(f, n);
    let b = sum(weights(f), n);
    lemma_quotient(a, m);
    lemma_quotient(b, m);
    let y = b / m;
    let z = a / m + speck();
    lemma_expand(a / m, speck(), m, 0real);
    lemma_swap(m, speck(), m, speck());
    lemma_divide_out(y, z, m);
    lemma_divide_out(z, y, m);
    assert(0real * m == 0real);
    lemma_divide_out(0real, a / m, m);
}

/// The square of the deviation of a coordinate is the mean of its squared deviations, up to
/// rounding. A coordinate that hardly varies has a deviation of one millionth.
pub proof fn law_deviation<A: Arithmetic>(
    x: &A,
    data: Seq<Seq<Scalar>>,
    mean: Scalar,
    d: int,
    s: Scalar,
)
    requires
        rounding(x),
        mean.finite(),
        averageable(data, d, squared_deviations(data, d, mean)),
        deviation_to(x, data, mean, d, s),
    ensures
        ({
            let v = mean_value(squared_deviations(data, d, mean), data.len());
            &&& s.finite()
            &&& value(s) >= 9real / 10_000_000real
            &&& v >= 4real / 1_000_000_000_000real ==> size(value(s) * value(s) - v) <= wobble(
                data.len(),
            ) * v
            &&& v <= 1real / 4_000_000_000_000real ==> s == millionth()
        }),
{
    let n = data.len();
    let f = squared_deviations(data, d, mean);
    let v = mean_value(f, n);
    let (u, r) = choose|u: Scalar, r: Scalar| #[trigger]
        variance_to(x, data, mean, d, u) && #[trigger] root(x, u, r) && s == at_least(
            r,
            millionth(),
        );
    lemma_numbers();
    lemma_thresholds();
    lemma_drift(n);
    law_variance(x, data, mean, d, u);
    assert forall|i: int| 0 <= i < n implies #[trigger] f(i) >= 0real by {
        lemma_square(value(data[i][d]) - value(mean));
    }
    lemma_mean_weights(f, n);
    let k = drift(n) + 3real * grain();
    let t = v + speck();
    if value(u) >= 0real {
        law_order_of_values(r, millionth());
        lemma_positive(value(r), value(r));
    }
    if v >= 4real / 1_000_000_000_000real {
        assert(within(value(u), v, t, k));
        lemma_root_of_sum(x, u, r, v, t, k);
        lemma_times(2real * k + 5real * grain(), 11real / 20real, v);
        law_order_of_values(r, millionth());
        let m = value(millionth());
        lemma_square_up(m, 1real / 1_000_000real);
        if value(r) < m {
            lemma_square_up(value(r), m);
        }
    }
    if v <= 1real / 4_000_000_000_000real && value(u) >= 0real {
        lemma_times(k, 1real / 4real, t);
        let q = value(r) * value(r);
        assert(3real * grain() * value(u) == 3real * (grain() * value(u))) by (nonlinear_arith);
        lemma_times(grain(), 1real / 64real, value(u));
        assert(q <= 4real / 10_000_000_000_000real);
        if value(r) >= 9real / 10_000_000real {
            lemma_square_up(9real / 10_000_000real, value(r));
        }
    }
}

/// The values of coordinate `d`, squared.
pub open spec fn squares(data: Seq<Seq<Scalar>>, d: int) -> spec_fn(int) -> real {
    |i: int| value(data[i][d]) * value(data[i][d])
}

/// One standardized value, squared and times the squared deviation.
proof fn lemma_standard_square(o: real, e: real, s: real, p: real, g: real, v: real)
    requires
        s > 0real,
        size(o * s - e) <= 3real * (g * (size(e) + p * (s + 1real))),
        0real <= g <= 1real / 16real,
        0real <= p <= 1real / 16real,
        s * s <= 2real * v,
        p <= v,
    ensures
        size((s * s) * (o * o) - e * e) <= 18real * (g * (e * e)) + 18real * (g * v),
{
    let y = o * s;
    let q = p * (s + 1real);
    let w = size(e) + q;
    let h = g * w;
    lemma_size(e, 0real);
    lemma_positive(p, s + 1real);
    lemma_positive(g, w);
    lemma_swap(o, s, o, s);
    lemma_swap(s * s, o * o, s * s, o * o);
    assert((y - e) * (y + e) == y * y - e * e) by (nonlinear_arith);
    lemma_size(y - e, y + e);
    lemma_size(y - e, 2real * e);
    lemma_size(2real, e);
    lemma_times(g, 1real / 16real, w);
    assert(size(y + e) <= 3real * w);
    lemma_times(size(y - e), 3real * h, size(y + e));
    lemma_positive(3real, h);
    lemma_times(size(y + e), 3real * w, 3real * h);
    assert((3real * h) * (3real * w) == 9real * (g * (w * w))) by (nonlinear_arith)
        requires
            h == g * w,
    ;
    // w * w is at most twice the sum of the squares
    lemma_expand(size(e), q, size(e), q);
    lemma_swap(size(e), q, size(e), q);
    lemma_square(size(e) - q);
    lemma_square(e);
    assert(w * w <= 2real * (e * e) + 2real * (q * q));
    // q * q is at most v
    lemma_swap(p, s + 1real, p, s + 1real);
    lemma_expand(s, 1real, s, 1real);
    lemma_square(s - 1real);
    lemma_expand(s, 1real, s, 1real);
    assert((s + 1real) * (s + 1real) <= 2real * (s * s) + 2real);
    lemma_square(p);
    lemma_times((s + 1real) * (s + 1real), 4real * v + 2real, p * p);
    lemma_times(p, 1real / 16real, p);
    lemma_times(p * p, 1real / 256real, v);
    lemma_expand(p * p, 0real, 4real * v, 2real);
    assert((p * p) * (4real * v) == 4real * ((p * p) * v)) by (nonlinear_arith);
    lemma_times(p, 1real / 16real, 1real / 16real);
    assert(q * q <= v);
    lemma_times(w * w, 2real * (e * e) + 2real * v, g);
    assert(g * (2real * (e * e) + 2real * v) == 2real * (g * (e * e)) + 2real * (g * v))
        by (nonlinear_arith);
}

/// Vectors standardized by their own mean and deviation have squares that sum up to their number
/// in every coordinate that varies: a variance of one, up to rounding.
pub proof fn law_standardized_variance<A: Arithmetic>(
    t: Standardizer,
    x: &A,
    data: Seq<Seq<Scalar>>,
    out: Seq<Seq<Scalar>>,
    d: int,
)
    requires
        rounding(x),
        0 <= d < t.center().len(),
        t.center()[d].finite(),
        averageable(data, d, squared_deviations(data, d, t.center()[d])),
        data.len() <= 0x1_0000,
        deviation_to(x, data, t.center()[d], d, t.spread()[d]),
        mean_value(squared_deviations(data, d, t.center()[d]), data.len()) >= 4real
            / 1_000_000_000_000real,
        out.len() == data.len(),
        forall|k: int| 0 <= k < data.len() ==> t.maps(x, #[trigger] data[k], out[k]),
    ensures
        size(sum(squares(out, d), data.len()) - data.len() as real) <= (4real * drift(data.len())
            + 100real * grain()) * (data.len() as real),
{
    let n = data.len();
    let m = t.center()[d];
    let sd = t.spread()[d];
    let f = squared_deviations(data, d, m);
    let v = mean_value(f, n);
    let s = value(sd);
    let g = grain();
    let p = speck();
    lemma_numbers();
    lemma_drift(n);
    lemma_skew(n);
    law_deviation(x, data, m, d, sd);
    lemma_times(wobble(n), 1real / 2real, v);
    lemma_sum_terms(data, d, m);
    let h = |k: int| (s * s) * squares(out, d)(k);
    let b = |k: int| 18real * (g * f(k)) + 18real * (g * v);
    assert forall|k: int| 0 <= k < n implies size(
        #[trigger] h(k) + (-1real) * f(k),
    ) <= b(k) by {
        let e = value(data[k][d]) - value(m);
        assert(t.maps(x, data[k], out[k]));
        assert(data[k][d].finite());
        lemma_square(e);
        lemma_deviation_room(e, s, f(k));
        law_standardizing(t, x, data[k], out[k], d);
        lemma_standard_square(value(out[k][d]), e, s, p, g, v);
    }
    lemma_close_sums(h, f, b, n);
    lemma_bound_sum(f, b, g, v, n);
    let z = |k: int| 0real;
    lemma_sum_constant(z, 0real, n);
    assert(n as real * 0real == 0real) by (nonlinear_arith);
    assert forall|k: int| 0 <= k < n implies #[trigger] h(k) == z(k) + (s * s) * squares(out, d)(
        k,
    ) by {}
    lemma_sum_both(z, squares(out, d), h, s * s, n);
    lemma_variance_one(sum(squares(out, d), n), s * s, v, n as real, g, wobble(n));
    lemma_times(2real * wobble(n) + 72real * g, 4real * drift(n) + 100real * g, n as real);
}

/// How far standardized values times their deviation `s` may stray from the deviations from `m`.
pub open spec fn strays(
    data: Seq<Seq<Scalar>>,
    d: int,
    m: Scalar,
    s: real,
) -> spec_fn(int) -> real {
    |i: int| 3real * (grain() * (size(value(data[i][d]) - value(m)) + speck() * (s + 1real)))
}

/// Vectors standardized by their own mean and deviation sum up to zero in every coordinate, up to
/// rounding.
pub proof fn law_standardized_mean<A: Arithmetic>(
    t: Standardizer,
    x: &A,
    data: Seq<Seq<Scalar>>,
    out: Seq<Seq<Scalar>>,
    d: int,
)
    requires
        rounding(x),
        0 <= d < t.center().len(),
        averageable(data, d, coordinates(data, d)),
        averageable(data, d, squared_deviations(data, d, t.center()[d])),
        mean_to(x, data, d, t.center()[d]),
        deviation_to(x, data, t.center()[d], d, t.spread()[d]),
        out.len() == data.len(),
        forall|k: int| 0 <= k < data.len() ==> t.maps(x, #[trigger] data[k], out[k]),
    ensures
        ({
            let n = data.len();
            let s = value(t.spread()[d]);
            size(s * sum(coordinates(out, d), n)) <= (drift(n) + 3real * grain()) * sum(
                weights(coordinates(data, d)),
                n,
            ) + sum(strays(data, d, t.center()[d], s), n)
        }),
{
    let n = data.len();
    let c = n as real;
    let m = t.center()[d];
    let sd = t.spread()[d];
    let s = value(sd);
    let f = coordinates(data, d);
    let o = coordinates(out, d);
    lemma_numbers();
    law_mean(x, data, d, m);
    law_deviation(x, data, m, d, sd);
    lemma_sum_terms(data, d, m);
    let h = |k: int| 0real + s * o(k);
    let e = |k: int| f(k) + (-1real) * value(m);
    let b = strays(data, d, m, s);
    assert forall|k: int| 0 <= k < n implies size(#[trigger] h(k) + (-1real) * e(k)) <= b(k) by {
        let y = value(data[k][d]) - value(m);
        assert(t.maps(x, data[k], out[k]));
        assert(data[k][d].finite());
        assert(squared_deviations(data, d, m)(k) == y * y);
        lemma_deviation_room(y, s, y * y);
        law_standardizing(t, x, data[k], out[k], d);
        lemma_swap(value(out[k][d]), s, 0real, 0real);
        assert((-1real) * value(m) == -value(m));
        assert((-1real) * y == -y);
    }
    lemma_close_sums(h, e, b, n);
    let z = |k: int| 0real;
    lemma_sum_constant(z, 0real, n);
    assert(c * 0real == 0real) by (nonlinear_arith);
    lemma_sum_both(z, o, h, s, n);
    let w = |k: int| value(m);
    lemma_sum_constant(w, value(m), n);
    lemma_sum_both(f, w, e, -1real, n);
    // the sum of the deviations is as many times the error of the mean
    let mu = mean_value(f, n);
    lemma_quotient(sum(f, n), c);
    let q = value(m) - mu;
    lemma_expand(value(m), mu, c, 0real);
    lemma_swap(value(m), c, 0real, 0real);
    assert((-1real) * (c * value(m)) == -(c * value(m)));
    assert(sum(e, n) == -(q * c));
    lemma_size(q, c);
    lemma_size(q * c, 0real);
    let k = drift(n) + 3real * grain();
    let y = mean_value(weights(f), n);
    lemma_quotient(sum(weights(f), n), c);
    lemma_times(size(q), k * y, c);
    assert((k * y) * c == k * (y * c)) by (nonlinear_arith);
    lemma_size(sum(h, n) - sum(e, n), sum(e, n));
}

/// No deviation is too large to be standardized.
proof fn lemma_deviation_room(e: real, s: real, f: real)
    requires
        f == e * e,
        4real * (f + speck()) <= limit(),
        s >= 9real / 10_000_000real,
    ensures
        4real * (size(e) + speck()) <= limit(),
        4real * (size(e) + speck()) <= limit() * s,
{
    lemma_numbers();
    let m = size(e);
    lemma_square(e);
    let c = limit();
    let b = 0x1_0000_0000_0000_0000real;
    // m * m <= c / 4, so m is far below c
    if m > c / 0x1_0000_0000real {
        lemma_square_up(c / 0x1_0000_0000real, m);
        assert((c / 0x1_0000_0000real) * (c / 0x1_0000_0000real) == (c * c) / b)
            by (nonlinear_arith)
            requires
                b == 0x1_0000_0000_0000_0000real,
        ;
        lemma_times(b, c, c);
        assert(b * c <= c * c);
        assert((c * c) / b >= c);
    }
    lemma_times(9real / 10_000_000real, s, c);
}

proof fn lemma_sum_terms(data: Seq<Seq<Scalar>>, d: int, m: Scalar)
    requires
        averageable(data, d, squared_deviations(data, d, m)),
    ensures
        ({
            let f = squared_deviations(data, d, m);
            let n = data.len();
            &&& sum(f, n) == n as real * mean_value(f, n)
            &&& forall|k: int| 0 <= k < n ==> 4real * (#[trigger] f(k) + speck()) <= limit()
        }),
{
    lemma_numbers();
    let f = squared_deviations(data, d, m);
    let w = weights(f);
    let n = data.len();
    lemma_quotient(sum(f, n), n as real);
    lemma_swap(mean_value(f, n), n as real, 0real, 0real);
    assert forall|k: int| 0 <= k < n implies #[trigger] w(k) >= 0real by {
        lemma_size(f(k), 0real);
    }
    lemma_sum_part(w, 0, n);
    assert forall|k: int| 0 <= k < n implies 4real * (#[trigger] f(k) + speck()) <= limit() by {
        lemma_square(value(data[k][d]) - value(m));
        assert(w(k) <= sum(w, n));
    }
}

/// Sums of close values are close.
proof fn lemma_close_sums(
    h: spec_fn(int) -> real,
    f: spec_fn(int) -> real,
    b: spec_fn(int) -> real,
    n: nat,
)
    requires
        forall|k: int| 0 <= k < n ==> size(#[trigger] h(k) + (-1real) * f(k)) <= b(k),
    ensures
        size(sum(h, n) - sum(f, n)) <= sum(b, n),
    decreases n,
{
    if n > 0 {
        let m = (n - 1) as nat;
        lemma_close_sums(h, f, b, m);
        assert(size(h(n - 1) + (-1real) * f(n - 1)) <= b(n - 1));
        assert((-1real) * f(n - 1) == -f(n - 1));
        lemma_size(sum(h, m) - sum(f, m), h(n - 1) - f(n - 1));
    }
}

proof fn lemma_bound_sum(
    f: spec_fn(int) -> real,
    b: spec_fn(int) -> real,
    g: real,
    v: real,
    n: nat,
)
    requires
        forall|k: int| 0 <= k < n ==> #[trigger] b(k) == 18real * (g * f(k)) + 18real * (g * v),
        sum(f, n) == n as real * v,
    ensures
        sum(b, n) == 36real * (g * (n as real * v)),
{
    let c = |k: int| 18real * (g * v);
    lemma_sum_constant(c, 18real * (g * v), n);
    assert forall|k: int| 0 <= k < n implies #[trigger] b(k) == c(k) + (18real * g) * f(k) by {
        let y = f(k);
        assert((18real * g) * y == 18real * (g * y)) by (nonlinear_arith);
    }
    lemma_sum_both(c, f, b, 18real * g, n);
    let m = n as real;
    assert(m * (18real * (g * v)) == 18real * (g * (m * v))) by (nonlinear_arith);
    assert((18real * g) * (m * v) == 18real * (g * (m * v))) by (nonlinear_arith);
}

proof fn lemma_variance_one(o: real, ss: real, v: real, n: real, g: real, b: real)
    requires
        size(ss * o - n * v) <= 36real * (g * (n * v)),
        size(ss - v) <= b * v,
        0real <= b <= 1real / 2real,
        0real <= g,
        v > 0real,
        n >= 0real,
    ensures
        size(o - n) <= (2real * b + 72real * g) * n,
{
    let nv = n * v;
    lemma_times(b, 1real / 2real, v);
    lemma_positive(n, v);
    // ss * (o - n) == (ss * o - nv) + n * (v - ss)
    lemma_expand(ss, 0real, o, n);
    lemma_expand(n, 0real, v, ss);
    lemma_swap(n, ss, n, ss);
    lemma_size(ss * o - nv, n * (v - ss));
    lemma_size(n, v - ss);
    lemma_size(ss - v, 0real);
    lemma_times(size(v - ss), b * v, n);
    assert(n * (b * v) == b * nv) by (nonlinear_arith)
        requires
            nv == n * v,
    ;
    lemma_size(ss, o - n);
    let k = b + 36real * g;
    assert(k * nv == b * nv + 36real * (g * nv)) by (nonlinear_arith)
        requires
            k == b + 36real * g,
    ;
    assert(ss * size(o - n) <= k * nv);
    lemma_times(v, 2real * ss, n);
    lemma_times(nv, n * (2real * ss), k);
    assert(k * (n * (2real * ss)) == ((2real * k) * n) * ss) by (nonlinear_arith);
    lemma_swap(ss, size(o - n), 0real, 0real);
    lemma_divide_out(size(o - n), (2real * k) * n, ss);
}

} // verus!
