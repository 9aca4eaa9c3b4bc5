//! What the numbers of a report are, under an arithmetic that rounds to nearest.
use crate::bins::error::{lemma_constants, lemma_finite_units, unit};
use crate::distance::laws::{apart, gaps, inner, products};
use crate::rounding::wide::{
    law_order_of_wide_values, law_wide_abs, lemma_wide_numbers, lemma_wide_tiny, lemma_wide_total,
    wide_finite, wide_grain, wide_limit, wide_rounding, wide_speck, wide_value,
};
use crate::quant::{column, joined, Bounds};
use crate::rounding::{all_finite, close, grain, limit, rounded, rounding, size, speck, sum, value};
use crate::rounding::{law_order_of_values, law_signs, lemma_numbers, within};
use crate::rounding::{
    lemma_divide_out, lemma_divided, lemma_expand, lemma_half, lemma_positive, lemma_quotient, lemma_rounded_square,
    lemma_size, lemma_square, lemma_square_up, lemma_squared_difference, lemma_sum_both,
    lemma_sum_constant, lemma_sum_order, lemma_sum_part, lemma_sum_same, lemma_swap, lemma_times,
};
use crate::scalar::{difference, quotient, top_bin, Arithmetic, Scalar};
use crate::stats::{
    average_to, decibels, divided, full_report, gap_to, larger, level_to, mean_level_to,
    measure_added, measure_to, measured_to, narrow_average_to, raised, ratio_to, spread_level_to,
    step_to, total_level_to, uniform_error_to, worst_to, Measure, QuantizationReport,
};
use crate::wide::{
    logarithm, narrowed, wide_counted, wide_difference, wide_infinity, wide_product,
    wide_quotient, wide_sum, wide_ten, wide_tiny, wide_top_bin, wide_twelve, widened, Wide,
    WideArithmetic,
};
use vstd::arithmetic::power2::{lemma2_to64, lemma_pow2_adds, lemma_pow2_strictly_increases, pow2};
use vstd::prelude::*;

verus! {

/// The distances between the coordinates.
pub open spec fn offsets(a: Seq<Scalar>, b: Seq<Scalar>) -> spec_fn(int) -> real {
    |i: int| size(value(a[i]) - value(b[i]))
}

/// The distances of values from zero, and a speck each.
pub open spec fn wide_weights(f: spec_fn(int) -> real) -> spec_fn(int) -> real {
    |i: int| size(f(i)) + wide_speck()
}

/// How far a sum over `n` pairs may be off, as a part of what is summed.
pub open spec fn wide_drift(n: nat) -> real {
    (3real * (n as real) + 9real) * wide_grain()
}

/// Pairs of finite numbers, at least one and at most `2^40`.
pub open spec fn paired(a: Seq<Scalar>, b: Seq<Scalar>) -> bool {
    all_finite(a) && all_finite(b) && a.len() == b.len() && 0 < a.len() <= 0x100_0000_0000
}

spec fn contributions(m: Measure, a: Seq<Scalar>, b: Seq<Scalar>) -> spec_fn(int) -> real {
    match m {
        Measure::Square => gaps(a, b),
        Measure::Absolute => offsets(a, b),
        Measure::Signal => products(a, a),
    }
}

/// More than the value of any number.
#[verifier::inline]
spec fn ceiling() -> real {
    0x1_0000_0000_0000_0000_0000_0000_0000_0000real
}

proof fn lemma_value_bound(s: Scalar)
    requires
        s.finite(),
    ensures
        size(value(s)) <= ceiling(),
{
    lemma_finite_units(s);
    lemma_constants();
    lemma2_to64();
    lemma_pow2_adds(149, 103);
    lemma_pow2_adds(64, 39);
    lemma_pow2_adds(32, 7);
    let (a, b) = (pow2(149), pow2(103));
    assert(b == 0x80_0000_0000_0000_0000_0000_0000);
    assert(a * b == 0x80_0000_0000_0000_0000_0000_0000 * a) by (nonlinear_arith)
        requires
            b == 0x80_0000_0000_0000_0000_0000_0000,
    ;
    let u = unit() as real;
    let p = s.units() as real;
    lemma_quotient(p, u);
    lemma_divide_out(p / u, ceiling(), u);
    lemma_divide_out(-ceiling(), p / u, u);
}

proof fn lemma_contribution_bound(m: Measure, a: Seq<Scalar>, b: Seq<Scalar>, i: int)
    requires
        a[i].finite(),
        b[i].finite(),
    ensures
        0real <= contributions(m, a, b)(i) <= 4real * (ceiling() * ceiling()),
        size(value(a[i]) - value(b[i])) <= 2real * ceiling(),
{
    lemma_value_bound(a[i]);
    lemma_value_bound(b[i]);
    let d = value(a[i]) - value(b[i]);
    lemma_size(value(a[i]), value(b[i]));
    lemma_size(value(a[i]), 0real);
    lemma_size(d, 0real);
    lemma_square(d);
    lemma_square(value(a[i]));
    lemma_square_up(size(d), 2real * ceiling());
    lemma_square_up(size(value(a[i])), ceiling());
}

/// Sums over pairs stay far below the largest number.
proof fn lemma_room(m: Measure, a: Seq<Scalar>, b: Seq<Scalar>, n: nat)
    requires
        all_finite(a),
        all_finite(b),
        n <= a.len() == b.len(),
        n <= 0x100_0000_0000,
    ensures
        4real * sum(wide_weights(contributions(m, a, b)), n) <= wide_limit(),
        16real * (ceiling() * ceiling()) < wide_limit(),
{
    lemma_wide_numbers();
    let w = wide_weights(contributions(m, a, b));
    let t = 4real * (ceiling() * ceiling()) + 1real;
    let c = |i: int| t;
    assert forall|i: int| 0 <= i < n implies #[trigger] w(i) <= c(i) by {
        assert(a[i].finite() && b[i].finite());
        lemma_contribution_bound(m, a, b, i);
    }
    lemma_sum_order(w, c, n);
    lemma_sum_constant(c, t, n);
    lemma_times(n as real, 0x100_0000_0000real, t);
    lemma2_to64();
    lemma_pow2_adds(64, 64);
    lemma_pow2_adds(128, 128);
    lemma_pow2_adds(256, 64);
    lemma_pow2_strictly_increases(320, 1000);
    assert(pow2(128) == 0x1_0000_0000_0000_0000_0000_0000_0000_0000);
    let p = pow2(128);
    assert(p * p
        == 0x1_0000_0000_0000_0000_0000_0000_0000_0000_0000_0000_0000_0000_0000_0000_0000_0000)
        by (nonlinear_arith)
        requires
            p == 0x1_0000_0000_0000_0000_0000_0000_0000_0000,
    ;
    assert(pow2(256)
        == 0x1_0000_0000_0000_0000_0000_0000_0000_0000_0000_0000_0000_0000_0000_0000_0000_0000);
    assert(pow2(320)
        == 0x1_0000_0000_0000_0000_0000_0000_0000_0000_0000_0000_0000_0000_0000_0000_0000_0000_0000_0000_0000_0000);
    assert(ceiling() * ceiling()
        == 0x1_0000_0000_0000_0000_0000_0000_0000_0000_0000_0000_0000_0000_0000_0000_0000_0000real);
    assert(wide_limit()
        >= 0x1_0000_0000_0000_0000_0000_0000_0000_0000_0000_0000_0000_0000_0000_0000_0000_0000_0000_0000_0000_0000real);
}

proof fn lemma_contribution<W: WideArithmetic>(
    w: &W,
    m: Measure,
    a: Seq<Scalar>,
    b: Seq<Scalar>,
    i: int,
    p: Wide,
)
    requires
        wide_rounding(w),
        a[i].finite(),
        b[i].finite(),
        16real * (ceiling() * ceiling()) < wide_limit(),
        measure_to(w, m, a[i], b[i], p),
    ensures
        wide_finite(p),
        within(
            wide_value(p),
            contributions(m, a, b)(i),
            wide_weights(contributions(m, a, b))(i),
            9real * wide_grain(),
        ),
{
    lemma_wide_numbers();
    lemma_contribution_bound(m, a, b, i);
    let g = wide_grain();
    let s = wide_speck();
    let e = value(a[i]) - value(b[i]);
    lemma_size(e, 0real);
    match m {
        Measure::Square => {
            let d = choose|d: Wide| #[trigger]
                gap_to(w, a[i], b[i], d) && wide_product(w, d, d, p);
            lemma_contribution_bound(Measure::Square, a, b, i);
            lemma_gap(w, a[i], b[i], d);
            lemma_rounded_square(e, wide_value(d), g, s);
            assert(wide_finite(p));
            lemma_squared_difference(e, wide_value(d), wide_value(p), g, s);
        },
        Measure::Absolute => {
            let d = choose|d: Wide| #[trigger] gap_to(w, a[i], b[i], d) && p == d.abs_spec();
            lemma_gap(w, a[i], b[i], d);
            law_wide_abs(d);
            let t = size(e) + s;
            lemma_expand(g, 0real, size(e), s);
            lemma_size(wide_value(d) - e, e);
            lemma_positive(g, t);
            assert((9real * g) * t == 9real * (g * t)) by (nonlinear_arith);
        },
        Measure::Signal => {
            let (u, v) = choose|u: Wide, v: Wide| #[trigger]
                widened(w, a[i], u) && #[trigger] widened(w, a[i], v) && wide_product(w, u, v, p);
            let q = value(a[i]) * value(a[i]);
            lemma_square(value(a[i]));
            let t = q + s;
            lemma_expand(g, 0real, q, s);
            lemma_positive(g, t);
            assert((9real * g) * t == 9real * (g * t)) by (nonlinear_arith);
        },
    }
}

proof fn lemma_gap<W: WideArithmetic>(w: &W, a: Scalar, b: Scalar, d: Wide)
    requires
        wide_rounding(w),
        a.finite(),
        b.finite(),
        16real * (ceiling() * ceiling()) < wide_limit(),
        gap_to(w, a, b, d),
    ensures
        wide_finite(d),
        close(wide_value(d), value(a) - value(b), wide_grain(), wide_speck()),
{
    let (u, v) = choose|u: Wide, v: Wide| #[trigger]
        widened(w, a, u) && #[trigger] widened(w, b, v) && wide_difference(w, u, v, d);
    lemma_value_bound(a);
    lemma_value_bound(b);
    lemma_size(value(a), value(b));
}

pub(crate) proof fn lemma_wide_drift(n: nat)
    requires
        n <= 0x100_0000_0000,
    ensures
        9real * wide_grain() <= wide_drift(n) <= 1real / 1024real,
        n > 0 ==> wide_drift(n) == wide_drift((n - 1) as nat) + 3real * wide_grain(),
{
    let g = wide_grain();
    let m = n as real;
    assert(wide_drift(n) == 3real * (m * g) + 9real * g) by (nonlinear_arith)
        requires
            wide_drift(n) == (3real * m + 9real) * g,
    ;
    lemma_times(m, 0x100_0000_0000real, g);
    lemma_positive(m, g);
    if n > 0 {
        assert((n - 1) as nat as real == m - 1real);
        assert(wide_drift((n - 1) as nat) == 3real * (m * g) + 6real * g) by (nonlinear_arith)
            requires
                wide_drift((n - 1) as nat) == (3real * (m - 1real) + 9real) * g,
        ;
    }
}

proof fn lemma_measured<W: WideArithmetic>(
    w: &W,
    m: Measure,
    a: Seq<Scalar>,
    b: Seq<Scalar>,
    n: nat,
    s: Wide,
)
    requires
        wide_rounding(w),
        all_finite(a),
        all_finite(b),
        n <= a.len() == b.len(),
        n <= 0x100_0000_0000,
        measured_to(w, m, a, b, n, s),
    ensures
        wide_finite(s),
        within(
            wide_value(s),
            sum(contributions(m, a, b), n),
            sum(wide_weights(contributions(m, a, b)), n),
            wide_drift(n),
        ),
    decreases n,
{
    let f = contributions(m, a, b);
    let h = wide_weights(f);
    lemma_wide_numbers();
    lemma_wide_drift(n);
    if n == 0 {
        lemma_positive(wide_drift(0), 0real);
    } else {
        let k = (n - 1) as nat;
        let s0 = choose|s0: Wide|
            measured_to(w, m, a, b, k, s0) && #[trigger] measure_added(
                w,
                m,
                a[n - 1],
                b[n - 1],
                s0,
                s,
            );
        lemma_measured(w, m, a, b, k, s0);
        lemma_wide_drift(k);
        lemma_room(m, a, b, n);
        let p = choose|p: Wide| #[trigger]
            measure_to(w, m, a[n - 1], b[n - 1], p) && wide_sum(w, s0, p, s);
        assert(a[n - 1].finite() && b[n - 1].finite());
        lemma_contribution(w, m, a, b, n - 1, p);
        assert forall|i: int| 0 <= i < n implies #[trigger] h(i) >= wide_speck() by {
            lemma_size(f(i), 0real);
        }
        lemma_sum_part(h, k, n);
        lemma_times(9real * wide_grain(), wide_drift(k), h(n - 1));
        lemma_wide_total(w, s0, sum(f, k), sum(h, k), p, f(n - 1), h(n - 1), s, wide_drift(k));
    }
}

// ---------------------------------------------------------------------------
// Averages
// ---------------------------------------------------------------------------

/// The weights of contributions sum up to the contributions and a speck each.
proof fn lemma_weights(m: Measure, a: Seq<Scalar>, b: Seq<Scalar>, n: nat)
    requires
        all_finite(a),
        all_finite(b),
        n <= a.len() == b.len(),
    ensures
        sum(wide_weights(contributions(m, a, b)), n) == sum(contributions(m, a, b), n) + n as real
            * wide_speck(),
        sum(contributions(m, a, b), n) >= 0real,
{
    let f = contributions(m, a, b);
    let c = |i: int| wide_speck();
    assert forall|i: int| 0 <= i < n implies #[trigger] wide_weights(f)(i) == f(i) + 1real * c(
        i,
    ) by {
        assert(a[i].finite() && b[i].finite());
        lemma_contribution_bound(m, a, b, i);
    }
    assert forall|i: int| 0 <= i < n implies #[trigger] f(i) >= 0real by {
        assert(a[i].finite() && b[i].finite());
        lemma_contribution_bound(m, a, b, i);
    }
    lemma_sum_both(f, c, wide_weights(f), 1real, n);
    lemma_sum_constant(c, wide_speck(), n);
    lemma_sum_part(f, 0, n);
}

proof fn lemma_average<W: WideArithmetic>(
    w: &W,
    m: Measure,
    a: Seq<Scalar>,
    b: Seq<Scalar>,
    s: Wide,
    r: Wide,
)
    requires
        wide_rounding(w),
        paired(a, b),
        measured_to(w, m, a, b, a.len(), s),
        divided(w, s, a.len() as u64, r),
    ensures
        wide_finite(r),
        ({
            let n = a.len();
            let f = contributions(m, a, b);
            size(wide_value(r) - sum(f, n) / n as real) <= (wide_drift(n) + 3real * wide_grain())
                * (sum(wide_weights(f), n) / n as real)
        }),
{
    let n = a.len();
    let f = contributions(m, a, b);
    let t = sum(wide_weights(f), n);
    lemma_wide_numbers();
    lemma_measured(w, m, a, b, n, s);
    lemma_wide_drift(n);
    lemma_weights(m, a, b, n);
    lemma_room(m, a, b, n);
    let c = choose|c: Wide| #[trigger] wide_counted(w, n as u64, c) && wide_quotient(w, s, c, r);
    assert(wide_value(c) == n as real);
    lemma_positive(n as real, wide_speck());
    let q = wide_value(s) / n as real;
    lemma_half(wide_value(s), sum(f, n), t, wide_drift(n), n as real);
    assert(wide_finite(r));
    lemma_divided(
        wide_value(s),
        sum(f, n),
        t,
        wide_drift(n),
        n as real,
        wide_value(r),
        wide_grain(),
        wide_speck(),
    );
}

/// The mean of what a measure of errors says of the pairs, up to rounding.
pub open spec fn mean_of(f: spec_fn(int) -> real, n: nat, r: Wide) -> bool {
    &&& wide_finite(r)
    &&& size(wide_value(r) - sum(f, n) / n as real) <= (wide_drift(n) + 3real * wide_grain()) * (
    sum(wide_weights(f), n) / n as real)
}

/// The mean squared and the mean absolute error of two vectors are the means of the squared
/// differences and of the distances, up to rounding to double and then to single precision.
pub proof fn law_vector_errors<W: WideArithmetic>(
    w: &W,
    a: Seq<Scalar>,
    b: Seq<Scalar>,
    mse: Scalar,
    mae: Scalar,
) -> (means: (Wide, Wide))
    requires
        wide_rounding(w),
        paired(a, b),
        narrow_average_to(w, Measure::Square, a, b, mse),
        narrow_average_to(w, Measure::Absolute, a, b, mae),
    ensures
        mean_of(gaps(a, b), a.len(), means.0),
        mean_of(offsets(a, b), a.len(), means.1),
        rounded(mse, wide_value(means.0)),
        rounded(mae, wide_value(means.1)),
{
    let u = choose|u: Wide| #[trigger]
        average_to(w, Measure::Square, a, b, u) && narrowed(w, u, mse);
    let v = choose|v: Wide| #[trigger]
        average_to(w, Measure::Absolute, a, b, v) && narrowed(w, v, mae);
    lemma_one_average(w, Measure::Square, a, b, u);
    lemma_one_average(w, Measure::Absolute, a, b, v);
    (u, v)
}

/// The mean squared error is the mean of the squared differences, the mean absolute error that of
/// the distances, and the signal that of the squares, up to rounding.
pub proof fn law_averages<W: WideArithmetic>(
    w: &W,
    a: Seq<Scalar>,
    b: Seq<Scalar>,
    square: Wide,
    absolute: Wide,
    signal: Wide,
)
    requires
        wide_rounding(w),
        paired(a, b),
        average_to(w, Measure::Square, a, b, square),
        average_to(w, Measure::Absolute, a, b, absolute),
        average_to(w, Measure::Signal, a, b, signal),
    ensures
        mean_of(gaps(a, b), a.len(), square),
        mean_of(offsets(a, b), a.len(), absolute),
        mean_of(products(a, a), a.len(), signal),
{
    lemma_one_average(w, Measure::Square, a, b, square);
    lemma_one_average(w, Measure::Absolute, a, b, absolute);
    lemma_one_average(w, Measure::Signal, a, b, signal);
}

proof fn lemma_one_average<W: WideArithmetic>(
    w: &W,
    m: Measure,
    a: Seq<Scalar>,
    b: Seq<Scalar>,
    r: Wide,
)
    requires
        wide_rounding(w),
        paired(a, b),
        average_to(w, m, a, b, r),
    ensures
        mean_of(contributions(m, a, b), a.len(), r),
{
    let s = choose|s: Wide| #[trigger]
        measured_to(w, m, a, b, a.len(), s) && divided(w, s, a.len() as u64, r);
    lemma_average(w, m, a, b, s, r);
}

/// The numbers of a report on vectors `data` that were read back as `back`: mean squared and mean
/// absolute error over all coordinates, mean squared error of every dimension, and four bytes for
/// one.
pub proof fn law_report<A: Arithmetic, W: WideArithmetic>(
    x: &A,
    w: &W,
    b: Bounds,
    data: Seq<Seq<Scalar>>,
    back: Seq<Seq<Scalar>>,
    r: QuantizationReport,
)
    requires
        wide_rounding(w),
        full_report(x, w, b, data, back, r),
        paired(joined(data), joined(back)),
        0 < r.original_bytes <= 0x20_0000_0000_0000,
        forall|d: int| 0 <= d < b.dims() ==> #[trigger] paired(column(data, d), column(back, d)),
    ensures
        mean_of(gaps(joined(data), joined(back)), joined(data).len(), r.mse),
        mean_of(offsets(joined(data), joined(back)), joined(data).len(), r.mae),
        forall|d: int|
            0 <= d < b.dims() ==> mean_of(
                gaps(column(data, d), column(back, d)),
                data.len(),
                #[trigger] r.per_dim_mse@[d],
            ),
        r.compressed_bytes == data.len() * b.dims(),
        r.original_bytes == 4 * (data.len() * b.dims()),
        wide_finite(r.compression_ratio),
        size(wide_value(r.compression_ratio) - 4real) <= 5real * wide_grain(),
{
    let f = joined(data);
    let g = joined(back);
    lemma_one_average(w, Measure::Square, f, g, r.mse);
    lemma_one_average(w, Measure::Absolute, f, g, r.mae);
    assert forall|d: int| 0 <= d < b.dims() implies mean_of(
        gaps(column(data, d), column(back, d)),
        data.len(),
        #[trigger] r.per_dim_mse@[d],
    ) by {
        assert(paired(column(data, d), column(back, d)));
        lemma_one_average(
            w,
            Measure::Square,
            column(data, d),
            column(back, d),
            r.per_dim_mse@[d],
        );
    }
    law_compression_ratio(w, r.original_bytes, r.compressed_bytes, r.compression_ratio);
    let c = r.compressed_bytes as real;
    lemma_quotient(r.original_bytes as real, c);
    assert(r.original_bytes as real == 4real * c);
    lemma_divide_out(r.original_bytes as real / c, 4real, c);
    lemma_divide_out(4real, r.original_bytes as real / c, c);
    lemma_wide_numbers();
    lemma_times(wide_speck(), 1real, wide_grain());
}

/// The compression ratio is the quotient of the sizes, up to rounding; infinite if nothing is left.
pub proof fn law_compression_ratio<W: WideArithmetic>(
    w: &W,
    original: usize,
    compressed: usize,
    r: Wide,
)
    requires
        wide_rounding(w),
        original <= 0x20_0000_0000_0000,
        compressed <= 0x20_0000_0000_0000,
        ratio_to(w, original, compressed, r),
    ensures
        compressed == 0 ==> r == wide_infinity(),
        compressed > 0 ==> wide_finite(r) && close(
            wide_value(r),
            original as real / compressed as real,
            wide_grain(),
            wide_speck(),
        ),
{
    lemma_wide_numbers();
    if compressed > 0 {
        let (a, b) = choose|a: Wide, b: Wide| #[trigger]
            wide_counted(w, original as u64, a) && #[trigger] wide_counted(
                w,
                compressed as u64,
                b,
            ) && wide_quotient(w, a, b, r);
        let o = original as real;
        let c = compressed as real;
        let q = o / c;
        lemma_quotient(o, c);
        lemma_divide_out(0real, q, c);
        lemma_times(1real, c, q);
        assert(q * 1real == q);
        assert(wide_value(a) == o && wide_value(b) == c);
    }
}

/// The largest error is at least as large as every error and no larger than some error, up to
/// rounding.
pub open spec fn is_worst(a: Seq<Scalar>, b: Seq<Scalar>, n: nat, m: Scalar) -> bool {
    &&& m.finite()
    &&& forall|i: int|
        0 <= i < n ==> #[trigger] offsets(a, b)(i) <= value(m) + grain() * (offsets(a, b)(i)
            + speck())
    &&& n == 0 ==> value(m) == 0real
    &&& n > 0 ==> exists|i: int|
        0 <= i < n && value(m) <= #[trigger] offsets(a, b)(i) + grain() * (offsets(a, b)(i)
            + speck())
}

/// The largest absolute error.
pub proof fn law_max_abs_error<A: Arithmetic>(
    x: &A,
    a: Seq<Scalar>,
    b: Seq<Scalar>,
    n: nat,
    m: Scalar,
)
    requires
        rounding(x),
        n <= a.len(),
        n <= b.len(),
        forall|i: int|
            0 <= i < n ==> (#[trigger] a[i]).finite() && b[i].finite() && offsets(a, b)(i)
                < limit(),
        worst_to(x, a, b, n, m),
    ensures
        is_worst(a, b, n, m),
        value(m) >= 0real,
    decreases n,
{
    lemma_numbers();
    if n > 0 {
        let k = n - 1;
        let m0 = choose|m0: Scalar|
            worst_to(x, a, b, (n - 1) as nat, m0) && #[trigger] raised(
                x,
                a[n - 1],
                b[n - 1],
                m0,
                m,
            );
        law_max_abs_error(x, a, b, (n - 1) as nat, m0);
        let d = choose|d: Scalar| #[trigger]
            difference(x, a[k], b[k], d) && m == larger(m0, d.abs_spec());
        assert(a[k].finite() && offsets(a, b)(k) < limit());
        let e = value(a[k]) - value(b[k]);
        let o = offsets(a, b)(k);
        assert(d.finite());
        law_signs(d);
        law_order_of_values(m0, d.abs_spec());
        lemma_expand(grain(), 0real, o, speck());
        lemma_size(value(d) - e, e);
        lemma_size(e - value(d), value(d));
        lemma_size(value(d) - e, 0real);
        lemma_size(e, 0real);
        lemma_positive(grain(), o + speck());
        assert(o <= value(m) + grain() * (o + speck()));
        if m == m0 && n > 1 {
            let i = choose|i: int|
                0 <= i < n - 1 && value(m) <= #[trigger] offsets(a, b)(i) + grain() * (offsets(
                    a,
                    b,
                )(i) + speck());
            assert(0 <= i < n);
        } else {
            assert(value(m) <= offsets(a, b)(k) + grain() * (offsets(a, b)(k) + speck()));
        }
    }
}

/// The largest error of a dimension is its extent divided by 255, up to rounding.
pub proof fn law_theoretical_max_error<A: Arithmetic>(x: &A, range: Scalar, r: Scalar)
    requires
        rounding(x),
        range.finite(),
        size(value(range)) < limit(),
        quotient(x, range, top_bin(), r),
    ensures
        r.finite(),
        size(value(r) - value(range) / 255real) <= grain() * (size(value(range) / 255real)
            + speck()),
{
    lemma_numbers();
    lemma_expand(grain(), 0real, size(value(range) / 255real), speck());
}

/// The mean squared error of an even spread is a twelfth of the square of one bin, up to rounding.
pub proof fn law_theoretical_mse<W: WideArithmetic>(w: &W, range: Scalar, r: Wide)
    requires
        wide_rounding(w),
        range.finite(),
        size(value(range)) >= 1real / 1_000_000_000_000_000real,
        uniform_error_to(w, range, r),
    ensures
        wide_finite(r),
        ({
            let bin = value(range) / 255real;
            size(wide_value(r) - bin * bin / 12real) <= 24real * (wide_grain() * (bin * bin / 12real))
        }),
{
    lemma_wide_numbers();
    lemma_value_bound(range);
    let one = seq![range];
    assert(one[0] == range);
    lemma_room(Measure::Signal, one, one, 1);
    let g = wide_grain();
    let sp = wide_speck();
    let (step, p) = choose|step: Wide, p: Wide| #[trigger]
        step_to(w, range, step) && #[trigger] wide_product(w, step, step, p) && wide_quotient(
            w,
            p,
            wide_twelve(),
            r,
        );
    let v = choose|v: Wide| #[trigger]
        widened(w, range, v) && wide_quotient(w, v, wide_top_bin(), step);
    let e = value(range) / 255real;
    let t = e * e;
    lemma_size(value(range), 0real);
    assert(wide_finite(step));
    lemma_rounded_square(e, wide_value(step), g, sp);
    lemma_square(e);
    lemma_square_up(size(e), ceiling());
    lemma_square_up(1real / 255_000_000_000_000_000real, size(e));
    lemma_square(wide_value(step));
    assert(12real * sp <= t);
    assert(wide_finite(p));
    lemma_squared_difference(e, wide_value(step), wide_value(p), g, sp);
    lemma_times(9real * g, 1real / 2real, t + sp);
    assert(wide_finite(r));
    lemma_divided(wide_value(p), t, t + sp, 9real * g, 12real, wide_value(r), g, sp);
    lemma_times((t + sp) / 12real, 2real * (t / 12real), 9real * g + 3real * g);
    let y = t / 12real;
    assert((9real * g + 3real * g) * (2real * y) == 24real * (g * y)) by (nonlinear_arith);
}

// ---------------------------------------------------------------------------
// Signal and noise
// ---------------------------------------------------------------------------

/// The decimal logarithm of positive values.
#[verifier::opaque]
pub open spec fn decimal_logarithm(lg: spec_fn(real) -> real) -> bool {
    &&& forall|a: real, b: real, c: real|
        a > 0real && b > 0real && c == a * b ==> #[trigger] lg(c) == #[trigger] lg(a)
            + #[trigger] lg(b)
    &&& lg(10real) == 1real
    &&& forall|a: real| a >= 1real ==> 0real <= #[trigger] lg(a) <= a - 1real
}

/// Logarithms are off by at most four grains, of themselves and of one.
pub open spec fn takes_logarithms<W: WideArithmetic>(w: &W, lg: spec_fn(real) -> real) -> bool {
    forall|a: Wide, r: Wide|
        wide_finite(a) && wide_value(a) > 0real && #[trigger] logarithm(w, a, r) ==> wide_finite(r)
            && size(wide_value(r) - lg(wide_value(a))) <= 4real * (wide_grain() * (size(
            lg(wide_value(a)),
        ) + 1real))
}

/// How far the level of `n` pairs may be off, where it is ten times `l`.
pub open spec fn level_slack(n: nat, l: real) -> real {
    160real * wide_drift(n) + 640real * (wide_grain() * (size(l) + 1real))
}

/// Off by at most the part `e` of a positive value.
spec fn relative(r: real, v: real, e: real) -> bool {
    v > 0real && size(r - v) <= e * v
}

/// A quotient of values that are off.
proof fn lemma_relative_quotient(a: real, va: real, b: real, vb: real, e: real)
    requires
        relative(a, va, e),
        relative(b, vb, e),
        0real <= e <= 1real / 8real,
    ensures
        b > 0real,
        va / vb > 0real,
        relative(a / b, va / vb, 4real * e),
{
    let q = a / b;
    let z = va / vb;
    lemma_times(e, 1real / 8real, vb);
    lemma_quotient(a, b);
    lemma_quotient(va, vb);
    assert(z > 0real) by (nonlinear_arith)
        requires
            z * vb == va,
            va > 0real,
            vb > 0real,
    ;
    lemma_expand(q, z, b, 0real);
    lemma_expand(z, 0real, vb, b);
    lemma_size(a - va, z * (vb - b));
    lemma_size(z, vb - b);
    lemma_size(b - vb, 0real);
    lemma_times(size(vb - b), e * vb, z);
    assert(z * (e * vb) == e * (z * vb)) by (nonlinear_arith);
    lemma_size(q - z, b);
    assert(size(q - z) * b <= 2real * (e * va));
    let ez = e * z;
    assert(e * va == ez * vb) by (nonlinear_arith)
        requires
            ez == e * z,
            z * vb == va,
    ;
    lemma_positive(e, z);
    lemma_times(7real * vb, 8real * b, ez);
    assert(ez * (7real * vb) == 7real * (ez * vb)) by (nonlinear_arith);
    assert(ez * (8real * b) == 8real * (ez * b)) by (nonlinear_arith);
    lemma_positive(ez, b);
    assert((4real * ez) * b == 4real * (ez * b)) by (nonlinear_arith);
    lemma_divide_out(size(q - z), 4real * ez, b);
    assert((4real * e) * z == 4real * (e * z)) by (nonlinear_arith);
}

/// Close values have close logarithms.
proof fn lemma_log_close(lg: spec_fn(real) -> real, q: real, z: real, e: real)
    requires
        decimal_logarithm(lg),
        relative(q, z, e),
        0real <= e <= 1real / 4real,
    ensures
        q > 0real,
        size(lg(q) - lg(z)) <= 2real * e,
{
    reveal(decimal_logarithm);
    lemma_times(e, 1real / 4real, z);
    let t = q / z;
    lemma_quotient(q, z);
    lemma_expand(t, 1real, z, 0real);
    lemma_size(t - 1real, z);
    assert(1real * z == z);
    lemma_divide_out(size(t - 1real), e, z);
    assert(q == t * z && q == z * t) by {
        lemma_swap(t, z, t, z);
    }
    assert(t > 0real);
    assert(lg(q) == lg(z) + lg(t));
    if t < 1real {
        let i = 1real / t;
        lemma_quotient(1real, t);
        assert(1real == t * i) by {
            lemma_swap(i, t, i, t);
        }
        assert(1real == 1real * 1real);
        assert(lg(1real) == lg(1real) + lg(1real));
        assert(i >= 1real) by {
            lemma_divide_out(1real, i, t);
        }
        assert(lg(1real) == lg(t) + lg(i));
        // i is at most 1 + 2 * e
        lemma_times(1real - e, t, 1real + 2real * e);
        assert((1real - e) * (1real + 2real * e) == 1real + e - 2real * (e * e))
            by (nonlinear_arith);
        lemma_times(e, 1real / 4real, e);
        lemma_swap(t, 1real + 2real * e, t, 1real);
        lemma_divide_out(i, 1real + 2real * e, t);
    }
}

/// The level computed from two means.
proof fn lemma_level<W: WideArithmetic>(
    w: &W,
    lg: spec_fn(real) -> real,
    signal: Wide,
    noise: Wide,
    vs: real,
    vn: real,
    e: real,
    r: Wide,
)
    requires
        wide_rounding(w),
        decimal_logarithm(lg),
        takes_logarithms(w, lg),
        wide_finite(signal),
        wide_finite(noise),
        relative(wide_value(signal), vs, e),
        relative(wide_value(noise), vn, e),
        0real <= e <= 1real / 64real,
        1real / ceiling() <= vs / vn <= ceiling(),
        16real * (ceiling() * ceiling()) < wide_limit(),
        decibels(w, signal, noise, r),
    ensures
        wide_finite(r),
        size(wide_value(r) - 10real * lg(vs / vn)) <= 20real * (4real * e + 3real * wide_grain())
            + 71real * (wide_grain() * (size(lg(vs / vn)) + 1real)),
{
    lemma_wide_numbers();
    let g = wide_grain();
    let (q, l) = choose|q: Wide, l: Wide| #[trigger]
        wide_quotient(w, signal, noise, q) && #[trigger] logarithm(w, q, l) && wide_product(
            w,
            wide_ten(),
            l,
            r,
        );
    let z = vs / vn;
    let d = wide_value(signal) / wide_value(noise);
    lemma_relative_quotient(wide_value(signal), vs, wide_value(noise), vn, e);
    lemma_times(4real * e, 1real / 16real, z);
    lemma_size(d - z, z);
    assert(size(d) <= 2real * z);
    assert(wide_finite(q));
    lemma_times(size(d), 2real * z, g);
    lemma_times(wide_speck(), z, g);
    lemma_size(wide_value(q) - d, d - z);
    let h = 4real * e + 3real * g;
    assert(h * z == (4real * e) * z + g * (2real * z) + g * z) by (nonlinear_arith)
        requires
            h == 4real * e + 3real * g,
    ;
    assert(relative(wide_value(q), z, h));
    lemma_log_close(lg, wide_value(q), z, h);
    let ll = lg(z);
    let lq = lg(wide_value(q));
    lemma_log_bound(lg, z);
    lemma_log_size(wide_value(l), lq, ll, h, g);
    assert(wide_finite(r)) by {
        lemma_size(10real, wide_value(l));
    }
    lemma_level_bound(wide_value(r), wide_value(l), lq, ll, h, g, wide_speck());
}

/// How large a rounded logarithm is.
proof fn lemma_log_size(v: real, lq: real, ll: real, h: real, g: real)
    requires
        size(lq - ll) <= 2real * h,
        0real <= h <= 1real / 8real,
        size(v - lq) <= 4real * (g * (size(lq) + 1real)),
        0real <= g <= 1real / 64real,
    ensures
        size(v) <= 2real * size(ll) + 1real,
        size(v - ll) <= 2real * h + 5real * (g * (size(ll) + 1real)),
{
    lemma_size(lq - ll, ll);
    lemma_size(ll, 0real);
    lemma_times(size(lq) + 1real, 5real / 4real * (size(ll) + 1real), g);
    let m = g * (size(ll) + 1real);
    assert(g * (5real / 4real * (size(ll) + 1real)) == 5real / 4real * m) by (nonlinear_arith)
        requires
            m == g * (size(ll) + 1real),
    ;
    lemma_size(v - lq, lq);
    lemma_size(v - lq, lq - ll);
    lemma_times(g, 1real / 64real, size(ll) + 1real);
}

/// How far a level is off.
proof fn lemma_level_bound(r: real, v: real, lq: real, ll: real, h: real, g: real, s: real)
    requires
        size(v) <= 2real * size(ll) + 1real,
        size(v - ll) <= 2real * h + 5real * (g * (size(ll) + 1real)),
        close(r, 10real * v, g, s),
        0real <= h,
        0real <= g,
        0real <= s <= 1real,
    ensures
        size(r - 10real * ll) <= 20real * h + 71real * (g * (size(ll) + 1real)),
{
    let m = g * (size(ll) + 1real);
    lemma_size(ll, 0real);
    lemma_size(10real, v);
    lemma_size(10real, v - ll);
    lemma_times(10real * size(v), 20real * (size(ll) + 1real), g);
    assert(g * (20real * (size(ll) + 1real)) == 20real * m) by (nonlinear_arith)
        requires
            m == g * (size(ll) + 1real),
    ;
    lemma_times(s, size(ll) + 1real, g);
    lemma_size(r - 10real * v, 10real * (v - ll));
    assert(10real * v - 10real * ll == 10real * (v - ll)) by (nonlinear_arith);
}

/// Logarithms are far below the largest number.
proof fn lemma_log_bound(lg: spec_fn(real) -> real, z: real)
    requires
        decimal_logarithm(lg),
        1real / ceiling() <= z <= ceiling(),
    ensures
        size(lg(z)) <= ceiling(),
{
    reveal(decimal_logarithm);
    if z < 1real {
        let i = 1real / z;
        assert(z > 0real);
        lemma_quotient(1real, z);
        assert(1real == z * i) by {
            lemma_swap(i, z, i, z);
        }
        assert(1real == 1real * 1real);
        assert(lg(1real) == lg(1real) + lg(1real));
        assert(i > 0real) by {
            lemma_divide_out(0real, i, z);
            if i == 0real {
                assert(0real * z == 0real);
            }
        }
        assert(lg(1real) == lg(z) + lg(i));
        lemma_divide_out(1real, i, z);
        lemma_times(1real / ceiling(), z, ceiling());
        assert(i <= ceiling()) by {
            lemma_swap(ceiling(), z, ceiling(), z);
            lemma_divide_out(i, ceiling(), z);
        }
    }
}

/// A mean that is not next to nothing, relative to it.
proof fn lemma_mean_relative(m: Measure, a: Seq<Scalar>, b: Seq<Scalar>, r: real)
    requires
        paired(a, b),
        ({
            let n = a.len();
            let f = contributions(m, a, b);
            size(r - sum(f, n) / n as real) <= (wide_drift(n) + 3real * wide_grain()) * (sum(
                wide_weights(f),
                n,
            ) / n as real)
        }),
        sum(contributions(m, a, b), a.len()) >= 1real / 0x1_0000_0000_0000_0000real,
    ensures
        relative(
            r,
            sum(contributions(m, a, b), a.len()) / a.len() as real,
            2real * wide_drift(a.len()) + 6real * wide_grain(),
        ),
{
    let n = a.len();
    let f = contributions(m, a, b);
    let c = n as real;
    lemma_wide_numbers();
    lemma_wide_drift(n);
    lemma_weights(m, a, b, n);
    lemma_times(c, 0x100_0000_0000real, wide_speck());
    let k = wide_drift(n) + 3real * wide_grain();
    let v = sum(f, n);
    let t = sum(wide_weights(f), n);
    lemma_quotient(v, c);
    lemma_quotient(t, c);
    assert(v / c > 0real) by {
        lemma_divide_out(0real, v / c, c);
        if v / c == 0real {
            assert(0real * c == 0real);
        }
    }
    assert((2real * (v / c)) * c == 2real * ((v / c) * c)) by (nonlinear_arith);
    lemma_divide_out(t / c, 2real * (v / c), c);
    lemma_times(t / c, 2real * (v / c), k);
    assert(k * (2real * (v / c)) == (2real * k) * (v / c)) by (nonlinear_arith);
}

/// The quotient of two means over as many values is that of the sums.
proof fn lemma_means(s: real, v: real, n: real)
    requires
        n > 0real,
        v > 0real,
    ensures
        (s / n) / (v / n) == s / v,
{
    let p = s / n;
    let q = v / n;
    lemma_quotient(s, n);
    lemma_quotient(v, n);
    assert(q > 0real) by (nonlinear_arith)
        requires
            q * n == v,
            v > 0real,
            n > 0real,
    ;
    let z = s / v;
    lemma_quotient(s, v);
    lemma_quotient(p, q);
    let y = p / q;
    // both times v give s
    assert(y * v == s) by (nonlinear_arith)
        requires
            y * q == p,
            p * n == s,
            q * n == v,
    ;
    lemma_divide_out(y, z, v);
    lemma_divide_out(z, y, v);
}

/// Signal and noise neither next to nothing nor farther apart than numbers can be.
pub open spec fn audible(a: Seq<Scalar>, b: Seq<Scalar>) -> bool {
    let n = a.len() as real;
    &&& paired(a, b)
    &&& apart(a, b) >= 2real / 1_000_000_000_000real
    &&& inner(a, a) / n >= 2real / 1_000_000_000_000real
    &&& 1real / 0x1_0000_0000_0000_0000_0000_0000_0000_0000real <= inner(a, a) / apart(a, b)
        <= 0x1_0000_0000_0000_0000_0000_0000_0000_0000real
}

proof fn lemma_level_of_sums<W: WideArithmetic>(
    w: &W,
    lg: spec_fn(real) -> real,
    a: Seq<Scalar>,
    b: Seq<Scalar>,
    signal: Wide,
    sum_noise: Wide,
    noise: Wide,
    r: Wide,
)
    requires
        wide_rounding(w),
        decimal_logarithm(lg),
        takes_logarithms(w, lg),
        audible(a, b),
        average_to(w, Measure::Signal, a, b, signal),
        measured_to(w, Measure::Square, a, b, a.len(), sum_noise),
        divided(w, sum_noise, a.len() as u64, noise),
        level_to(w, signal, noise, r),
    ensures
        wide_finite(r),
        size(wide_value(r) - 10real * lg(inner(a, a) / apart(a, b))) <= level_slack(
            a.len(),
            lg(inner(a, a) / apart(a, b)),
        ),
{
    let n = a.len();
    let c = n as real;
    let vs = inner(a, a);
    let vn = apart(a, b);
    lemma_wide_tiny();
    lemma_wide_drift(n);
    lemma_room(Measure::Square, a, b, n);
    lemma_one_average(w, Measure::Signal, a, b, signal);
    lemma_average(w, Measure::Square, a, b, sum_noise, noise);
    lemma_quotient(vs, c);
    lemma_times(1real, c, vs / c);
    assert(vs >= 2real / 1_000_000_000_000real);
    lemma_mean_relative(Measure::Signal, a, b, wide_value(signal));
    lemma_mean_relative(Measure::Square, a, b, wide_value(noise));
    let e = 2real * wide_drift(n) + 6real * wide_grain();
    lemma_times(e, 1real / 64real, vs / c);
    law_order_of_wide_values(signal, wide_tiny());
    lemma_means(vs, vn, c);
    lemma_level(w, lg, signal, noise, vs / c, vn / c, e, r);
    let l = lg(vs / vn);
    lemma_size(l, 0real);
    lemma_positive(wide_grain(), size(l));
    lemma_expand(wide_grain(), 0real, size(l), 1real);
}

/// The level of signal above noise that a report gives is ten times the decimal logarithm of the
/// sum of squares divided by the sum of squared errors, up to rounding.
pub proof fn law_report_level<W: WideArithmetic>(
    w: &W,
    lg: spec_fn(real) -> real,
    a: Seq<Scalar>,
    b: Seq<Scalar>,
    r: Wide,
)
    requires
        wide_rounding(w),
        decimal_logarithm(lg),
        takes_logarithms(w, lg),
        audible(a, b),
        total_level_to(w, a, b, r),
    ensures
        wide_finite(r),
        size(wide_value(r) - 10real * lg(inner(a, a) / apart(a, b))) <= level_slack(
            a.len(),
            lg(inner(a, a) / apart(a, b)),
        ),
{
    let n = a.len();
    lemma_wide_numbers();
    lemma_wide_tiny();
    lemma_wide_drift(n);
    let noise = choose|noise: Wide| #[trigger]
        measured_to(w, Measure::Square, a, b, n, noise) && if noise.below(wide_tiny()) {
            r == wide_infinity()
        } else {
            spread_level_to(w, a, b, noise, r)
        };
    lemma_measured(w, Measure::Square, a, b, n, noise);
    lemma_weights(Measure::Square, a, b, n);
    lemma_times(n as real, 0x100_0000_0000real, wide_speck());
    let t = sum(wide_weights(gaps(a, b)), n);
    lemma_times(wide_drift(n), 1real / 1024real, t);
    law_order_of_wide_values(noise, wide_tiny());
    let (signal, mean) = choose|signal: Wide, mean: Wide| #[trigger]
        average_to(w, Measure::Signal, a, b, signal) && #[trigger] divided(
            w,
            noise,
            n as u64,
            mean,
        ) && level_to(w, signal, mean, r);
    lemma_level_of_sums(w, lg, a, b, signal, noise, mean, r);
}

/// The level of signal above noise of two vectors is ten times the decimal logarithm of the sum of
/// squares divided by the sum of squared errors, up to rounding.
pub proof fn law_vector_level<W: WideArithmetic>(
    w: &W,
    lg: spec_fn(real) -> real,
    a: Seq<Scalar>,
    b: Seq<Scalar>,
    r: Wide,
)
    requires
        wide_rounding(w),
        decimal_logarithm(lg),
        takes_logarithms(w, lg),
        audible(a, b),
        apart(a, b) / (a.len() as real) >= 2real / 1_000_000_000_000real,
        mean_level_to(w, a, b, r),
    ensures
        wide_finite(r),
        size(wide_value(r) - 10real * lg(inner(a, a) / apart(a, b))) <= level_slack(
            a.len(),
            lg(inner(a, a) / apart(a, b)),
        ),
{
    let n = a.len();
    lemma_wide_tiny();
    lemma_wide_drift(n);
    let (signal, noise) = choose|signal: Wide, noise: Wide| #[trigger]
        average_to(w, Measure::Signal, a, b, signal) && #[trigger] average_to(
            w,
            Measure::Square,
            a,
            b,
            noise,
        ) && if noise.below(wide_tiny()) {
            r == wide_infinity()
        } else {
            level_to(w, signal, noise, r)
        };
    let s = choose|s: Wide| #[trigger]
        measured_to(w, Measure::Square, a, b, n, s) && divided(w, s, n as u64, noise);
    lemma_average(w, Measure::Square, a, b, s, noise);
    lemma_mean_relative(Measure::Square, a, b, wide_value(noise));
    let e = 2real * wide_drift(n) + 6real * wide_grain();
    let v = apart(a, b) / n as real;
    lemma_times(e, 1real / 64real, v);
    law_order_of_wide_values(noise, wide_tiny());
    lemma_level_of_sums(w, lg, a, b, signal, s, noise, r);
}

/// A report and a comparison of the same numbers give the same level, up to rounding.
pub proof fn law_levels_agree<W: WideArithmetic>(
    w: &W,
    lg: spec_fn(real) -> real,
    a: Seq<Scalar>,
    b: Seq<Scalar>,
    r: Wide,
    s: Wide,
)
    requires
        wide_rounding(w),
        decimal_logarithm(lg),
        takes_logarithms(w, lg),
        audible(a, b),
        apart(a, b) / (a.len() as real) >= 2real / 1_000_000_000_000real,
        total_level_to(w, a, b, r),
        mean_level_to(w, a, b, s),
    ensures
        size(wide_value(r) - wide_value(s)) <= 2real * level_slack(
            a.len(),
            lg(inner(a, a) / apart(a, b)),
        ),
{
    law_report_level(w, lg, a, b, r);
    law_vector_level(w, lg, a, b, s);
    let v = 10real * lg(inner(a, a) / apart(a, b));
    lemma_size(wide_value(r) - v, wide_value(s) - v);
}

/// The sum over values that are repeated.
proof fn lemma_sum_repeated(f: spec_fn(int) -> real, h: spec_fn(int) -> real, n: nat, m: nat)
    requires
        forall|i: int| 0 <= i < m ==> f(n + i) == #[trigger] h(i),
    ensures
        sum(f, n + m) == sum(f, n) + sum(h, m),
    decreases m,
{
    if m > 0 {
        lemma_sum_repeated(f, h, n, (m - 1) as nat);
        assert(f(n + (m - 1)) == h(m - 1));
        assert((n + m - 1) as nat == n + (m - 1) as nat);
    }
}

/// Vectors that are evaluated twice over have the same level, up to rounding.
pub proof fn law_repeating_keeps_the_level<W: WideArithmetic>(
    w: &W,
    lg: spec_fn(real) -> real,
    a: Seq<Scalar>,
    b: Seq<Scalar>,
    r: Wide,
    s: Wide,
)
    requires
        wide_rounding(w),
        decimal_logarithm(lg),
        takes_logarithms(w, lg),
        audible(a, b),
        2 * a.len() <= 0x100_0000_0000,
        total_level_to(w, a, b, r),
        total_level_to(w, a + a, b + b, s),
    ensures
        ({
            let l = lg(inner(a, a) / apart(a, b));
            size(wide_value(r) - wide_value(s)) <= level_slack(a.len(), l) + level_slack(
                2 * a.len(),
                l,
            )
        }),
{
    let n = a.len();
    let c = n as real;
    let aa = a + a;
    let bb = b + b;
    assert(aa.len() == 2 * n);
    assert forall|i: int| 0 <= i < aa.len() implies (#[trigger] aa[i]).finite() by {
        if i < n {
            assert(aa[i] == a[i]);
        } else {
            assert(aa[i] == a[i - n]);
        }
    }
    assert forall|i: int| 0 <= i < bb.len() implies (#[trigger] bb[i]).finite() by {
        if i < n {
            assert(bb[i] == b[i]);
        } else {
            assert(bb[i] == b[i - n]);
        }
    }
    lemma_sum_repeated(products(aa, aa), products(a, a), n, n);
    lemma_sum_same(products(aa, aa), products(a, a), n);
    lemma_sum_repeated(gaps(aa, bb), gaps(a, b), n, n);
    lemma_sum_same(gaps(aa, bb), gaps(a, b), n);
    let vs = inner(a, a);
    let vn = apart(a, b);
    assert(n + n == 2 * n);
    assert(inner(aa, aa) == 2real * vs);
    assert(apart(aa, bb) == 2real * vn);
    lemma_twice(vs, vn);
    lemma_twice(vs, c);
    assert((2 * n) as real == 2real * c);
    law_report_level(w, lg, a, b, r);
    law_report_level(w, lg, aa, bb, s);
    let v = 10real * lg(vs / vn);
    lemma_size(wide_value(r) - v, wide_value(s) - v);
}

proof fn lemma_twice(a: real, b: real)
    requires
        b > 0real,
    ensures
        (2real * a) / (2real * b) == a / b,
{
    let q = a / b;
    let p = (2real * a) / (2real * b);
    lemma_quotient(a, b);
    lemma_quotient(2real * a, 2real * b);
    assert(p * (2real * b) == 2real * (p * b)) by (nonlinear_arith);
    lemma_divide_out(p, q, b);
    lemma_divide_out(q, p, b);
}

/// With next to no noise altogether, the level that a report gives is infinite.
pub proof fn law_silent_noise<W: WideArithmetic>(w: &W, a: Seq<Scalar>, b: Seq<Scalar>, r: Wide)
    requires
        wide_rounding(w),
        paired(a, b),
        apart(a, b) <= 1real / 2_000_000_000_000real,
        total_level_to(w, a, b, r),
    ensures
        r == wide_infinity(),
{
    let n = a.len();
    lemma_wide_numbers();
    lemma_wide_tiny();
    lemma_wide_drift(n);
    let noise = choose|noise: Wide| #[trigger]
        measured_to(w, Measure::Square, a, b, n, noise) && if noise.below(wide_tiny()) {
            r == wide_infinity()
        } else {
            spread_level_to(w, a, b, noise, r)
        };
    lemma_measured(w, Measure::Square, a, b, n, noise);
    lemma_weights(Measure::Square, a, b, n);
    lemma_times(n as real, 0x100_0000_0000real, wide_speck());
    lemma_times(wide_drift(n), 1real / 1024real, sum(wide_weights(gaps(a, b)), n));
    law_order_of_wide_values(noise, wide_tiny());
}

} // verus!
