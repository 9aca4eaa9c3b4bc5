//! What means and variances are, under an arithmetic that rounds to nearest.
use crate::distance::laws::{drift, lemma_count, lemma_drift, lemma_squared, lemma_wider, weights};
use crate::distance::squared;
use crate::ops::{
    averages_to, column_sums_to, deviation_added, deviations_to, differences_of, mean_to,
    multiples_of, sums_of, variance_to,
};
use crate::rounding::{grain, limit, rounded, rounding, size, speck, sum, value, within};
use crate::rounding::{
    lemma_divided, lemma_half, lemma_numbers, lemma_positive, lemma_size, lemma_square,
    lemma_sum_constant, lemma_sum_part, lemma_swap, lemma_total,
};
use crate::scalar::{counted, difference, product, quotient, total, Arithmetic, Scalar};
use vstd::prelude::*;

verus! {

/// A sum of vectors has the sums of their coordinates, a difference the differences, and a
/// multiple the multiples, up to rounding.
pub proof fn law_vector_operations<A: Arithmetic>(
    x: &A,
    a: Seq<Scalar>,
    b: Seq<Scalar>,
    s: Scalar,
    sums: Seq<Scalar>,
    differences: Seq<Scalar>,
    multiples: Seq<Scalar>,
    i: int,
)
    requires
        rounding(x),
        0 <= i < a.len() == b.len(),
        a[i].finite(),
        b[i].finite(),
        s.finite(),
        sums_of(x, a, b, sums),
        differences_of(x, a, b, differences),
        multiples_of(x, a, s, multiples),
    ensures
        rounded(sums[i], value(a[i]) + value(b[i])),
        rounded(differences[i], value(a[i]) - value(b[i])),
        rounded(multiples[i], value(s) * value(a[i])),
{
    assert(total(x, a[i], b[i], sums[i]));
    assert(difference(x, a[i], b[i], differences[i]));
    assert(product(x, a[i], s, multiples[i]));
    lemma_swap(value(a[i]), value(s), 0real, 0real);
}

/// Coordinate `d` of the vectors.
pub open spec fn coordinates(data: Seq<Seq<Scalar>>, d: int) -> spec_fn(int) -> real {
    |i: int| value(data[i][d])
}

/// The squared deviations of coordinate `d` from `m`.
pub open spec fn squared_deviations(
    data: Seq<Seq<Scalar>>,
    d: int,
    m: Scalar,
) -> spec_fn(int) -> real {
    |i: int| (value(data[i][d]) - value(m)) * (value(data[i][d]) - value(m))
}

/// The mean of the first `n` values of `f`.
pub open spec fn mean_value(f: spec_fn(int) -> real, n: nat) -> real {
    sum(f, n) / n as real
}

/// At least one vector, at most `2^20`, whose coordinate `d` is finite, and terms `f` that stay
/// far below the largest number.
pub open spec fn averageable(
    data: Seq<Seq<Scalar>>,
    d: int,
    f: spec_fn(int) -> real,
) -> bool {
    &&& 0 < data.len() <= 0x10_0000
    &&& forall|i: int| 0 <= i < data.len() ==> (#[trigger] data[i])[d].finite()
    &&& 4real * sum(weights(f), data.len()) <= limit()
}

/// `v` is the mean of the first `n` values of `f`, up to rounding.
pub open spec fn is_mean(f: spec_fn(int) -> real, n: nat, v: Scalar) -> bool {
    &&& v.finite()
    &&& size(value(v) - mean_value(f, n)) <= (drift(n) + 3real * grain()) * mean_value(
        weights(f),
        n,
    )
}

proof fn lemma_weights_rise(f: spec_fn(int) -> real, m: nat, n: nat)
    requires
        m <= n,
    ensures
        0real <= sum(weights(f), m) <= sum(weights(f), n),
        forall|i: int| 0 <= i < n ==> #[trigger] weights(f)(i) >= speck(),
        sum(weights(f), n) >= n as real * speck(),
        speck() > 0real,
{
    lemma_numbers();
    let w = weights(f);
    assert forall|i: int| 0 <= i < n implies #[trigger] w(i) >= speck() by {
        lemma_size(f(i), 0real);
    }
    lemma_sum_part(w, m, n);
    let c = |i: int| speck();
    lemma_sum_constant(c, speck(), n);
    assert forall|i: int| 0 <= i < n implies #[trigger] c(i) <= w(i) by {
        assert(w(i) >= speck());
    }
    crate::rounding::lemma_sum_order(c, w, n);
}

proof fn lemma_column_sums<A: Arithmetic>(
    x: &A,
    data: Seq<Seq<Scalar>>,
    d: int,
    n: nat,
    s: Scalar,
)
    requires
        rounding(x),
        averageable(data, d, coordinates(data, d)),
        n <= data.len(),
        column_sums_to(x, data, d, n, s),
    ensures
        s.finite(),
        within(
            value(s),
            sum(coordinates(data, d), n),
            sum(weights(coordinates(data, d)), n),
            drift(n),
        ),
    decreases n,
{
    let f = coordinates(data, d);
    let w = weights(f);
    lemma_numbers();
    lemma_drift(n);
    lemma_weights_rise(f, n, data.len());
    if n == 0 {
        lemma_positive(drift(0), 0real);
    } else {
        let m = (n - 1) as nat;
        let s0 = choose|s0: Scalar|
            column_sums_to(x, data, d, m, s0) && #[trigger] total(x, s0, data[n - 1][d], s);
        lemma_column_sums(x, data, d, m, s0);
        lemma_drift(m);
        lemma_weights_rise(f, m, n);
        assert(data[n - 1][d].finite());
        assert(f(n - 1) == value(data[n - 1][d]));
        lemma_size(f(n - 1), 0real);
        lemma_positive(drift(m), w(n - 1));
        lemma_total(
            x,
            s0,
            sum(f, m),
            sum(w, m),
            data[n - 1][d],
            f(n - 1),
            w(n - 1),
            s,
            drift(m),
        );
    }
}

proof fn lemma_deviations<A: Arithmetic>(
    x: &A,
    data: Seq<Seq<Scalar>>,
    mean: Scalar,
    d: int,
    n: nat,
    s: Scalar,
)
    requires
        rounding(x),
        mean.finite(),
        averageable(data, d, squared_deviations(data, d, mean)),
        n <= data.len(),
        deviations_to(x, data, mean, d, n, s),
    ensures
        s.finite(),
        within(
            value(s),
            sum(squared_deviations(data, d, mean), n),
            sum(weights(squared_deviations(data, d, mean)), n),
            drift(n),
        ),
    decreases n,
{
    let f = squared_deviations(data, d, mean);
    let w = weights(f);
    lemma_numbers();
    lemma_drift(n);
    lemma_weights_rise(f, n, data.len());
    if n == 0 {
        lemma_positive(drift(0), 0real);
    } else {
        let m = (n - 1) as nat;
        let s0 = choose|s0: Scalar|
            deviations_to(x, data, mean, d, m, s0) && #[trigger] deviation_added(
                x,
                data[n - 1][d],
                mean,
                s0,
                s,
            );
        lemma_deviations(x, data, mean, d, m, s0);
        lemma_drift(m);
        lemma_weights_rise(f, m, n);
        assert(data[n - 1][d].finite());
        let p = choose|p: Scalar| #[trigger]
            squared(x, data[n - 1][d], mean, p) && total(x, s0, p, s);
        lemma_square(value(data[n - 1][d]) - value(mean));
        lemma_squared(x, data[n - 1][d], mean, p);
        lemma_wider(value(p), f(n - 1), w(n - 1), 9real * grain(), drift(m));
        lemma_total(x, s0, sum(f, m), sum(w, m), p, f(n - 1), w(n - 1), s, drift(m));
    }
}

proof fn lemma_averages<A: Arithmetic>(
    x: &A,
    f: spec_fn(int) -> real,
    n: nat,
    s: Scalar,
    v: Scalar,
)
    requires
        rounding(x),
        0 < n <= 0x10_0000,
        s.finite(),
        within(value(s), sum(f, n), sum(weights(f), n), drift(n)),
        4real * sum(weights(f), n) <= limit(),
        averages_to(x, s, n as usize, v),
    ensures
        is_mean(f, n, v),
{
    let c = choose|c: Scalar| #[trigger] counted(x, n as usize, c) && quotient(x, s, c, v);
    let t = sum(weights(f), n);
    lemma_numbers();
    lemma_drift(n);
    lemma_weights_rise(f, n, n);
    lemma_positive(n as real, speck());
    assert(value(c) == n as real);
    lemma_half(value(s), sum(f, n), t, drift(n), n as real);
    lemma_weights_rise(f, 1, n);
    lemma_count(n);
    assert(v.finite());
    lemma_divided(
        value(s),
        sum(f, n),
        t,
        drift(n),
        n as real,
        value(v),
        grain(),
        speck(),
    );
}

/// The mean of a coordinate is the sum of its values divided by their number, up to rounding.
pub proof fn law_mean<A: Arithmetic>(x: &A, data: Seq<Seq<Scalar>>, d: int, v: Scalar)
    requires
        rounding(x),
        averageable(data, d, coordinates(data, d)),
        mean_to(x, data, d, v),
    ensures
        is_mean(coordinates(data, d), data.len(), v),
{
    let s = choose|s: Scalar| #[trigger]
        column_sums_to(x, data, d, data.len(), s) && averages_to(x, s, data.len() as usize, v);
    lemma_column_sums(x, data, d, data.len(), s);
    lemma_averages(x, coordinates(data, d), data.len(), s, v);
}

/// The variance of a coordinate is the sum of its squared deviations divided by their number, up
/// to rounding.
pub proof fn law_variance<A: Arithmetic>(
    x: &A,
    data: Seq<Seq<Scalar>>,
    mean: Scalar,
    d: int,
    v: Scalar,
)
    requires
        rounding(x),
        mean.finite(),
        averageable(data, d, squared_deviations(data, d, mean)),
        variance_to(x, data, mean, d, v),
    ensures
        is_mean(squared_deviations(data, d, mean), data.len(), v),
{
    let s = choose|s: Scalar| #[trigger]
        deviations_to(x, data, mean, d, data.len(), s) && averages_to(
            x,
            s,
            data.len() as usize,
            v,
        );
    lemma_deviations(x, data, mean, d, data.len(), s);
    lemma_averages(x, squared_deviations(data, d, mean), data.len(), s, v);
}

} // verus!
