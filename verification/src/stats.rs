//! How much is lost and gained by storing vectors as bytes.
use crate::bins::{dequantizes_to, dequantizing_fails, input_fault, quantizes_to};
use crate::errors::{ErrorModel, Result};
use crate::numerals::{fixed_reads, fixed_text, wide_reads, wide_text, Numerals};
use crate::quant::{column, joined, rows, Bounds, Quantizer};
use crate::scalar::{difference, quotient, Arithmetic, Scalar};
use crate::scalar::{top_bin, zero};
use crate::text::{decimal, push_decimal};
use crate::wide::{logarithm, narrowed, share, share_of, wide_counted, wide_difference};
use crate::wide::{wide_infinity, wide_ten, wide_tiny, wide_top_bin, wide_twelve, wide_zero};
use crate::wide::{wide_product, wide_quotient, wide_sum, widened, Wide, WideArithmetic};
use vstd::prelude::*;

pub mod laws;

verus! {

/// Losses and gains of storing vectors as bytes.
#[derive(Debug, PartialEq)]
pub struct QuantizationReport {
    pub dims: usize,
    pub num_vectors: usize,
    /// Mean squared error.
    pub mse: Wide,
    /// Mean absolute error.
    pub mae: Wide,
    pub max_abs_error: Scalar,
    /// Signal-to-noise ratio in decibels.
    pub snr_db: Wide,
    pub per_dim_mse: Vec<Wide>,
    pub per_dim_range: Vec<Scalar>,
    pub compression_ratio: Wide,
    pub original_bytes: usize,
    pub compressed_bytes: usize,
}

/// The numbers of a report may read as these texts.
pub open spec fn report_numbers_read<N: Numerals>(
    n: &N,
    r: QuantizationReport,
    mse: Seq<char>,
    mae: Seq<char>,
    worst: Seq<char>,
    snr: Seq<char>,
    ratio: Seq<char>,
) -> bool {
    &&& wide_reads(n, r.mse, 6, mse)
    &&& wide_reads(n, r.mae, 6, mae)
    &&& fixed_reads(n, r.max_abs_error, 6, worst)
    &&& wide_reads(n, r.snr_db, 2, snr)
    &&& wide_reads(n, r.compression_ratio, 2, ratio)
}

/// `text` is the summary of a report.
pub open spec fn report_reads<N: Numerals>(
    n: &N,
    r: QuantizationReport,
    text: Seq<char>,
) -> bool {
    exists|
        mse: Seq<char>,
        mae: Seq<char>,
        worst: Seq<char>,
        snr: Seq<char>,
        ratio: Seq<char>,
    | #[trigger]
        report_numbers_read(n, r, mse, mae, worst, snr, ratio) && text == "dims="@ + decimal(
            r.dims as nat,
        ) + " n="@ + decimal(r.num_vectors as nat) + " mse="@ + mse + " mae="@ + mae + " max_err="@
            + worst + " snr="@ + snr + "dB ratio="@ + ratio + "x ("@ + decimal(
            r.original_bytes as nat,
        ) + "B -> "@ + decimal(r.compressed_bytes as nat) + "B)"@
}

impl QuantizationReport {
    /// The report in one line.
    pub fn summary<N: Numerals>(&self, n: &N) -> (s: String)
        ensures
            report_reads(n, *self, s@),
    {
        let mse = wide_text(self.mse, 6, n);
        let mae = wide_text(self.mae, 6, n);
        let worst = fixed_text(self.max_abs_error, 6, n);
        let snr = wide_text(self.snr_db, 2, n);
        let ratio = wide_text(self.compression_ratio, 2, n);
        let mut s: String = String::new();
        s.append("dims=");
        push_decimal(&mut s, self.dims as u64);
        s.append(" n=");
        push_decimal(&mut s, self.num_vectors as u64);
        s.append(" mse=");
        s.append(mse.as_str());
        s.append(" mae=");
        s.append(mae.as_str());
        s.append(" max_err=");
        s.append(worst.as_str());
        s.append(" snr=");
        s.append(snr.as_str());
        s.append("dB ratio=");
        s.append(ratio.as_str());
        s.append("x (");
        push_decimal(&mut s, self.original_bytes as u64);
        s.append("B -> ");
        push_decimal(&mut s, self.compressed_bytes as u64);
        s.append("B)");
        proof {
            assert(report_numbers_read(n, *self, mse@, mae@, worst@, snr@, ratio@));
            assert(s@ =~= "dims="@ + decimal(self.dims as nat) + " n="@ + decimal(
                self.num_vectors as nat,
            ) + " mse="@ + mse@ + " mae="@ + mae@ + " max_err="@ + worst@ + " snr="@ + snr@
                + "dB ratio="@ + ratio@ + "x ("@ + decimal(self.original_bytes as nat) + "B -> "@
                + decimal(self.compressed_bytes as nat) + "B)"@);
        }
        s
    }
}

// ---------------------------------------------------------------------------
// Sums over pairs of numbers
// ---------------------------------------------------------------------------

/// What is summed up over the pairs.
#[derive(Debug, Clone, Copy, PartialEq, Eq, Structural)]
pub enum Measure {
    /// The square of the difference.
    Square,
    /// The difference without its sign.
    Absolute,
    /// The square of the first number.
    Signal,
}

/// The difference of `a` and `b` in double precision may come out as `d`.
pub open spec fn gap_to<W: WideArithmetic>(w: &W, a: Scalar, b: Scalar, d: Wide) -> bool {
    exists|u: Wide, v: Wide| #[trigger]
        widened(w, a, u) && #[trigger] widened(w, b, v) && wide_difference(w, u, v, d)
}

/// The squared difference may come out as `p`.
pub open spec fn squared_gap<W: WideArithmetic>(w: &W, a: Scalar, b: Scalar, p: Wide) -> bool {
    exists|d: Wide| #[trigger] gap_to(w, a, b, d) && wide_product(w, d, d, p)
}

/// The absolute difference may come out as `p`.
pub open spec fn absolute_gap<W: WideArithmetic>(w: &W, a: Scalar, b: Scalar, p: Wide) -> bool {
    exists|d: Wide| #[trigger] gap_to(w, a, b, d) && p == d.abs_spec()
}

/// The square of `a` may come out as `p`.
pub open spec fn signal_to<W: WideArithmetic>(w: &W, a: Scalar, p: Wide) -> bool {
    exists|u: Wide, v: Wide| #[trigger]
        widened(w, a, u) && #[trigger] widened(w, a, v) && wide_product(w, u, v, p)
}

/// What one pair contributes may come out as `p`.
pub open spec fn measure_to<W: WideArithmetic>(
    w: &W,
    m: Measure,
    a: Scalar,
    b: Scalar,
    p: Wide,
) -> bool {
    match m {
        Measure::Square => squared_gap(w, a, b, p),
        Measure::Absolute => absolute_gap(w, a, b, p),
        Measure::Signal => signal_to(w, a, p),
    }
}

/// `s0` and what one pair contributes may add up to `s`.
pub open spec fn measure_added<W: WideArithmetic>(
    w: &W,
    m: Measure,
    a: Scalar,
    b: Scalar,
    s0: Wide,
    s: Wide,
) -> bool {
    exists|p: Wide| #[trigger] measure_to(w, m, a, b, p) && wide_sum(w, s0, p, s)
}

/// What the first `n` pairs contribute, one after another, may add up to `s`.
pub open spec fn measured_to<W: WideArithmetic>(
    w: &W,
    m: Measure,
    a: Seq<Scalar>,
    b: Seq<Scalar>,
    n: nat,
    s: Wide,
) -> bool
    decreases n,
{
    if n == 0 {
        s == wide_zero()
    } else {
        exists|s0: Wide|
            measured_to(w, m, a, b, (n - 1) as nat, s0) && #[trigger] measure_added(
                w,
                m,
                a[n - 1],
                b[n - 1],
                s0,
                s,
            )
    }
}

proof fn lemma_measured_step<W: WideArithmetic>(
    w: &W,
    m: Measure,
    a: Seq<Scalar>,
    b: Seq<Scalar>,
    n: nat,
    s0: Wide,
    s: Wide,
)
    requires
        n > 0,
        measured_to(w, m, a, b, (n - 1) as nat, s0),
        measure_added(w, m, a[n - 1], b[n - 1], s0, s),
    ensures
        measured_to(w, m, a, b, n, s),
{
}

fn gap<W: WideArithmetic>(a: Scalar, b: Scalar, w: &W) -> (d: Wide)
    ensures
        gap_to(w, a, b, d),
{
    let u = w.widen(a);
    let v = w.widen(b);
    let d = w.minus(u, v);
    assert(widened(w, a, u) && widened(w, b, v) && wide_difference(w, u, v, d));
    d
}

fn contribution<W: WideArithmetic>(m: Measure, a: Scalar, b: Scalar, w: &W) -> (p: Wide)
    ensures
        measure_to(w, m, a, b, p),
{
    match m {
        Measure::Square => {
            let d = gap(a, b, w);
            let p = w.times(d, d);
            assert(gap_to(w, a, b, d) && wide_product(w, d, d, p));
            p
        },
        Measure::Absolute => {
            let d = gap(a, b, w);
            let p = d.abs();
            assert(gap_to(w, a, b, d) && p == d.abs_spec());
            p
        },
        Measure::Signal => {
            let u = w.widen(a);
            let v = w.widen(a);
            let p = w.times(u, v);
            assert(widened(w, a, u) && widened(w, a, v) && wide_product(w, u, v, p));
            p
        },
    }
}

/// What all pairs contribute, added up.
pub fn sum_of<W: WideArithmetic>(m: Measure, a: &[Scalar], b: &[Scalar], w: &W) -> (s: Wide)
    requires
        a@.len() == b@.len(),
    ensures
        measured_to(w, m, a@, b@, a@.len(), s),
{
    let mut s: Wide = wide_zero();
    let mut i: usize = 0;
    while i < a.len()
        invariant
            i <= a@.len() == b@.len(),
            measured_to(w, m, a@, b@, i as nat, s),
        decreases a@.len() - i,
    {
        let p = contribution(m, a[i], b[i], w);
        let next = w.plus(s, p);
        proof {
            assert(measure_to(w, m, a@[i as int], b@[i as int], p) && wide_sum(w, s, p, next));
            assert(measure_added(w, m, a@[i as int], b@[i as int], s, next));
            lemma_measured_step(w, m, a@, b@, (i + 1) as nat, s, next);
        }
        s = next;
        i += 1;
    }
    s
}

/// `s` divided by `n` may come out as `r`.
pub open spec fn divided<W: WideArithmetic>(w: &W, s: Wide, n: u64, r: Wide) -> bool {
    exists|c: Wide| #[trigger] wide_counted(w, n, c) && wide_quotient(w, s, c, r)
}

/// `s` divided by `n`.
pub fn divide<W: WideArithmetic>(s: Wide, n: u64, w: &W) -> (r: Wide)
    ensures
        divided(w, s, n, r),
{
    let c = w.wide_count(n);
    let r = w.over(s, c);
    assert(wide_counted(w, n, c) && wide_quotient(w, s, c, r));
    r
}

/// What the pairs contribute on average may come out as `r`.
pub open spec fn average_to<W: WideArithmetic>(
    w: &W,
    m: Measure,
    a: Seq<Scalar>,
    b: Seq<Scalar>,
    r: Wide,
) -> bool {
    exists|s: Wide| #[trigger]
        measured_to(w, m, a, b, a.len(), s) && divided(w, s, a.len() as u64, r)
}

fn average<W: WideArithmetic>(m: Measure, a: &[Scalar], b: &[Scalar], w: &W) -> (r: Wide)
    requires
        a@.len() == b@.len(),
    ensures
        average_to(w, m, a@, b@, r),
{
    let s = sum_of(m, a, b, w);
    let r = divide(s, a.len() as u64, w);
    assert(measured_to(w, m, a@, b@, a@.len(), s) && divided(w, s, a@.len() as u64, r));
    r
}

/// The average in single precision may come out as `r`.
pub open spec fn narrow_average_to<W: WideArithmetic>(
    w: &W,
    m: Measure,
    a: Seq<Scalar>,
    b: Seq<Scalar>,
    r: Scalar,
) -> bool {
    if a.len() == 0 {
        r == zero()
    } else {
        exists|v: Wide| #[trigger] average_to(w, m, a, b, v) && narrowed(w, v, r)
    }
}

fn narrow_average<W: WideArithmetic>(m: Measure, a: &[Scalar], b: &[Scalar], w: &W) -> (r: Scalar)
    requires
        a@.len() == b@.len(),
    ensures
        narrow_average_to(w, m, a@, b@, r),
{
    if a.len() == 0 {
        return zero();
    }
    let v = average(m, a, b, w);
    let r = w.narrow(v);
    assert(average_to(w, m, a@, b@, v) && narrowed(w, v, r));
    r
}

/// Mean squared error between two vectors; zero if they are empty.
pub fn mse<W: WideArithmetic>(original: &[Scalar], dequantized: &[Scalar], w: &W) -> (r: Scalar)
    requires
        original@.len() == dequantized@.len(),
    ensures
        narrow_average_to(w, Measure::Square, original@, dequantized@, r),
{
    narrow_average(Measure::Square, original, dequantized, w)
}

/// Mean absolute error between two vectors; zero if they are empty.
pub fn mae<W: WideArithmetic>(original: &[Scalar], dequantized: &[Scalar], w: &W) -> (r: Scalar)
    requires
        original@.len() == dequantized@.len(),
    ensures
        narrow_average_to(w, Measure::Absolute, original@, dequantized@, r),
{
    narrow_average(Measure::Absolute, original, dequantized, w)
}

// ---------------------------------------------------------------------------
// The largest error
// ---------------------------------------------------------------------------

/// The larger of two numbers; `m` unless `v` is above it.
pub open spec fn larger(m: Scalar, v: Scalar) -> Scalar {
    if m.below(v) {
        v
    } else {
        m
    }
}

/// After `m0`, the pair `a`, `b` may raise the largest error to `m`.
pub open spec fn raised<A: Arithmetic>(
    x: &A,
    a: Scalar,
    b: Scalar,
    m0: Scalar,
    m: Scalar,
) -> bool {
    exists|d: Scalar| #[trigger] difference(x, a, b, d) && m == larger(m0, d.abs_spec())
}

/// The largest error of the first `n` pairs may come out as `m`.
pub open spec fn worst_to<A: Arithmetic>(
    x: &A,
    a: Seq<Scalar>,
    b: Seq<Scalar>,
    n: nat,
    m: Scalar,
) -> bool
    decreases n,
{
    if n == 0 {
        m == zero()
    } else {
        exists|m0: Scalar|
            worst_to(x, a, b, (n - 1) as nat, m0) && #[trigger] raised(x, a[n - 1], b[n - 1], m0, m)
    }
}

proof fn lemma_worst_step<A: Arithmetic>(
    x: &A,
    a: Seq<Scalar>,
    b: Seq<Scalar>,
    n: nat,
    m0: Scalar,
    m: Scalar,
)
    requires
        n > 0,
        worst_to(x, a, b, (n - 1) as nat, m0),
        raised(x, a[n - 1], b[n - 1], m0, m),
    ensures
        worst_to(x, a, b, n, m),
{
}

/// The smaller of two lengths.
pub open spec fn shorter(a: nat, b: nat) -> nat {
    if a < b {
        a
    } else {
        b
    }
}

/// Largest absolute error, over as many pairs as there are; zero if there are none.
pub fn max_abs_error<A: Arithmetic>(original: &[Scalar], dequantized: &[Scalar], x: &A) -> (m:
    Scalar)
    ensures
        worst_to(x, original@, dequantized@, shorter(original@.len(), dequantized@.len()), m),
{
    let n: usize = if original.len() < dequantized.len() {
        original.len()
    } else {
        dequantized.len()
    };
    let mut m: Scalar = zero();
    let mut i: usize = 0;
    while i < n
        invariant
            i <= n <= original@.len(),
            n <= dequantized@.len(),
            worst_to(x, original@, dequantized@, i as nat, m),
        decreases n - i,
    {
        let d = x.sub(original[i], dequantized[i]);
        let v = d.abs();
        let next = if m.lt(v) {
            v
        } else {
            m
        };
        proof {
            assert(difference(x, original@[i as int], dequantized@[i as int], d));
            assert(raised(x, original@[i as int], dequantized@[i as int], m, next));
            lemma_worst_step(x, original@, dequantized@, (i + 1) as nat, m, next);
        }
        m = next;
        i += 1;
    }
    m
}

// ---------------------------------------------------------------------------
// Signal and noise
// ---------------------------------------------------------------------------

/// Ten times the decimal logarithm of `signal / noise` may come out as `r`.
pub open spec fn decibels<W: WideArithmetic>(w: &W, signal: Wide, noise: Wide, r: Wide) -> bool {
    exists|q: Wide, l: Wide| #[trigger]
        wide_quotient(w, signal, noise, q) && #[trigger] logarithm(w, q, l) && wide_product(
            w,
            wide_ten(),
            l,
            r,
        )
}

/// The level of a signal above noise may come out as `r`; zero if there is next to no signal.
pub open spec fn level_to<W: WideArithmetic>(w: &W, signal: Wide, noise: Wide, r: Wide) -> bool {
    if signal.below(wide_tiny()) {
        r == wide_zero()
    } else {
        decibels(w, signal, noise, r)
    }
}

fn level<W: WideArithmetic>(signal: Wide, noise: Wide, w: &W) -> (r: Wide)
    ensures
        level_to(w, signal, noise, r),
{
    if signal.lt(wide_tiny()) {
        return wide_zero();
    }
    let q = w.over(signal, noise);
    let l = w.log10(q);
    let r = w.times(wide_ten(), l);
    assert(wide_quotient(w, signal, noise, q) && logarithm(w, q, l) && wide_product(
        w,
        wide_ten(),
        l,
        r,
    ));
    r
}

/// The level of signal and noise may come out as `r`; infinite if there is next to no noise on
/// average.
pub open spec fn mean_level_to<W: WideArithmetic>(
    w: &W,
    a: Seq<Scalar>,
    b: Seq<Scalar>,
    r: Wide,
) -> bool {
    exists|signal: Wide, noise: Wide| #[trigger]
        average_to(w, Measure::Signal, a, b, signal) && #[trigger] average_to(
            w,
            Measure::Square,
            a,
            b,
            noise,
        ) && if noise.below(wide_tiny()) {
            r == wide_infinity()
        } else {
            level_to(w, signal, noise, r)
        }
}

/// Signal-to-noise ratio in decibels; infinite if there are no numbers or next to no noise.
pub fn snr_db<W: WideArithmetic>(original: &[Scalar], dequantized: &[Scalar], w: &W) -> (r: Wide)
    requires
        original@.len() == dequantized@.len(),
    ensures
        if original@.len() == 0 {
            r == wide_infinity()
        } else {
            mean_level_to(w, original@, dequantized@, r)
        },
{
    if original.len() == 0 {
        return wide_infinity();
    }
    let signal = average(Measure::Signal, original, dequantized, w);
    let noise = average(Measure::Square, original, dequantized, w);
    let r = if noise.lt(wide_tiny()) {
        wide_infinity()
    } else {
        level(signal, noise, w)
    };
    assert(average_to(w, Measure::Signal, original@, dequantized@, signal) && average_to(
        w,
        Measure::Square,
        original@,
        dequantized@,
        noise,
    ));
    r
}

/// `original / compressed` may come out as `r`; infinite if nothing is left.
pub open spec fn ratio_to<W: WideArithmetic>(
    w: &W,
    original: usize,
    compressed: usize,
    r: Wide,
) -> bool {
    if compressed == 0 {
        r == wide_infinity()
    } else {
        share(w, original as u64, compressed as u64, r)
    }
}

/// How many times smaller the compressed form is.
pub fn compression_ratio<W: WideArithmetic>(
    original_bytes: usize,
    compressed_bytes: usize,
    w: &W,
) -> (r: Wide)
    ensures
        ratio_to(w, original_bytes, compressed_bytes, r),
{
    if compressed_bytes == 0 {
        return wide_infinity();
    }
    share_of(original_bytes as u64, compressed_bytes as u64, w)
}

// ---------------------------------------------------------------------------
// A whole dataset
// ---------------------------------------------------------------------------

/// `v` stored as bytes may be read back as `u`.
pub open spec fn returns_as<A: Arithmetic>(
    x: &A,
    b: Bounds,
    v: Seq<Scalar>,
    u: Seq<Scalar>,
) -> bool {
    exists|q: Seq<u8>| #[trigger] quantizes_to(x, b, v, q) && dequantizes_to(x, b, q, u)
}

/// `v` stored as bytes may fail to be read back, with `e`.
pub open spec fn returning_fails<A: Arithmetic>(
    x: &A,
    b: Bounds,
    v: Seq<Scalar>,
    e: ErrorModel,
) -> bool {
    exists|q: Seq<u8>| #[trigger] quantizes_to(x, b, v, q) && dequantizing_fails(x, b, q, e)
}

/// Vector `i` stored as bytes may be read back.
pub open spec fn returnable<A: Arithmetic>(
    x: &A,
    b: Bounds,
    data: Seq<Seq<Scalar>>,
    i: int,
) -> bool {
    exists|u: Seq<Scalar>| #[trigger] returns_as(x, b, data[i], u)
}

/// Vector `i` is the first that may fail to be read back, with `e`.
pub open spec fn evaluation_fails_at<A: Arithmetic>(
    x: &A,
    b: Bounds,
    data: Seq<Seq<Scalar>>,
    i: int,
    e: ErrorModel,
) -> bool {
    &&& 0 <= i < data.len()
    &&& returning_fails(x, b, data[i], e)
    &&& forall|j: int| 0 <= j < i ==> #[trigger] returnable(x, b, data, j)
}

/// Every vector stored as bytes may be read back as the one in `back`.
pub open spec fn all_return<A: Arithmetic>(
    x: &A,
    b: Bounds,
    data: Seq<Seq<Scalar>>,
    back: Seq<Seq<Scalar>>,
) -> bool {
    back.len() == data.len() && forall|i: int|
        0 <= i < data.len() ==> returns_as(x, b, data[i], #[trigger] back[i])
}

/// The level of signal and noise over a dataset may come out as `r`; infinite if there is next
/// to no noise altogether.
pub open spec fn total_level_to<W: WideArithmetic>(
    w: &W,
    a: Seq<Scalar>,
    b: Seq<Scalar>,
    r: Wide,
) -> bool {
    exists|noise: Wide| #[trigger]
        measured_to(w, Measure::Square, a, b, a.len(), noise) && if noise.below(wide_tiny()) {
            r == wide_infinity()
        } else {
            spread_level_to(w, a, b, noise, r)
        }
}

/// The level of a signal above the summed up noise may come out as `r`.
pub open spec fn spread_level_to<W: WideArithmetic>(
    w: &W,
    a: Seq<Scalar>,
    b: Seq<Scalar>,
    noise: Wide,
    r: Wide,
) -> bool {
    exists|signal: Wide, mean: Wide| #[trigger]
        average_to(w, Measure::Signal, a, b, signal) && #[trigger] divided(
            w,
            noise,
            a.len() as u64,
            mean,
        ) && level_to(w, signal, mean, r)
}

/// The extent of every dimension.
pub open spec fn ranges_to<A: Arithmetic>(x: &A, b: Bounds, r: Seq<Scalar>) -> bool {
    r.len() == b.dims() && forall|d: int|
        0 <= d < b.dims() ==> difference(x, b.max[d], b.min[d], #[trigger] r[d])
}

/// A report on no vectors.
pub open spec fn empty_report<A: Arithmetic>(x: &A, b: Bounds, r: QuantizationReport) -> bool {
    &&& r.dims == b.dims()
    &&& r.num_vectors == 0
    &&& r.mse == wide_zero()
    &&& r.mae == wide_zero()
    &&& r.max_abs_error == zero()
    &&& r.snr_db == wide_infinity()
    &&& r.per_dim_mse@ == Seq::new(b.dims(), |d: int| wide_zero())
    &&& ranges_to(x, b, r.per_dim_range@)
    &&& r.compression_ratio == wide_zero()
    &&& r.original_bytes == 0
    &&& r.compressed_bytes == 0
}

/// A report on vectors that were read back as `back`.
pub open spec fn full_report<A: Arithmetic, W: WideArithmetic>(
    x: &A,
    w: &W,
    b: Bounds,
    data: Seq<Seq<Scalar>>,
    back: Seq<Seq<Scalar>>,
    r: QuantizationReport,
) -> bool {
    let f = joined(data);
    let g = joined(back);
    &&& r.dims == b.dims()
    &&& r.num_vectors == data.len()
    &&& average_to(w, Measure::Square, f, g, r.mse)
    &&& average_to(w, Measure::Absolute, f, g, r.mae)
    &&& worst_to(x, f, g, f.len(), r.max_abs_error)
    &&& total_level_to(w, f, g, r.snr_db)
    &&& r.per_dim_mse@.len() == b.dims()
    &&& forall|d: int|
        0 <= d < b.dims() ==> average_to(
            w,
            Measure::Square,
            column(data, d),
            column(back, d),
            #[trigger] r.per_dim_mse@[d],
        )
    &&& ranges_to(x, b, r.per_dim_range@)
    &&& r.compressed_bytes == data.len() * b.dims()
    &&& r.original_bytes == 4 * r.compressed_bytes
    &&& ratio_to(w, r.original_bytes, r.compressed_bytes, r.compression_ratio)
}

/// `r` may be the report on `data`.
pub open spec fn reported<A: Arithmetic, W: WideArithmetic>(
    x: &A,
    w: &W,
    b: Bounds,
    data: Seq<Seq<Scalar>>,
    r: QuantizationReport,
) -> bool {
    if data.len() == 0 {
        empty_report(x, b, r)
    } else {
        exists|back: Seq<Seq<Scalar>>| #[trigger]
            all_return(x, b, data, back) && full_report(x, w, b, data, back, r)
    }
}

fn ranges<A: Arithmetic>(quantizer: &Quantizer, x: &A) -> (r: Vec<Scalar>)
    ensures
        ranges_to(x, quantizer@, r@),
{
    let dims: usize = quantizer.dims();
    let mins = quantizer.min_bounds();
    let maxs = quantizer.max_bounds();
    let ghost b = quantizer@;
    let mut r: Vec<Scalar> = Vec::new();
    while r.len() < dims
        invariant
            r@.len() <= dims == b.dims(),
            mins@ == b.min,
            maxs@ == b.max,
            b.valid(),
            forall|d: int|
                0 <= d < r@.len() ==> difference(x, b.max[d], b.min[d], #[trigger] r@[d]),
        decreases dims - r@.len(),
    {
        let i: usize = r.len();
        let v = x.sub(maxs[i], mins[i]);
        assert(difference(x, b.max[i as int], b.min[i as int], v));
        r.push(v);
    }
    r
}

/// Store every vector and read it back.
fn read_all_back<A: Arithmetic>(quantizer: &Quantizer, dataset: &[Vec<Scalar>], x: &A) -> (r:
    Result<Vec<Vec<Scalar>>>)
    requires
        forall|i: int|
            0 <= i < dataset@.len() ==> input_fault(
                quantizer@,
                #[trigger] rows(dataset@)[i],
            ) is None,
    ensures
        match r {
            Ok(back) => all_return(x, quantizer@, rows(dataset@), rows(back@)),
            Err(e) => exists|i: int| #[trigger]
                evaluation_fails_at(x, quantizer@, rows(dataset@), i, e@),
        },
{
    let ghost b = quantizer@;
    let ghost data = rows(dataset@);
    let mut back: Vec<Vec<Scalar>> = Vec::new();
    let mut i: usize = 0;
    while i < dataset.len()
        invariant
            b == quantizer@,
            data == rows(dataset@),
            forall|k: int|
                0 <= k < dataset@.len() ==> input_fault(b, #[trigger] data[k]) is None,
            i <= dataset@.len(),
            back@.len() == i,
            forall|k: int|
                0 <= k < i ==> returns_as(x, b, data[k], #[trigger] rows(back@)[k]),
            forall|k: int| 0 <= k < i ==> #[trigger] returnable(x, b, data, k),
        decreases dataset@.len() - i,
    {
        assert(data[i as int] == dataset@[i as int]@);
        let q = match quantizer.quantize_vector(dataset[i].as_slice(), x) {
            Ok(q) => q,
            Err(e) => {
                assert(false);
                return Err(e);
            },
        };
        match quantizer.dequantize_vector(q.as_slice(), x) {
            Ok(u) => {
                let ghost before = back@;
                let ghost view = u@;
                proof {
                    assert(quantizes_to(x, b, data[i as int], q@) && dequantizes_to(x, b, q@, u@));
                    assert(returns_as(x, b, data[i as int], u@));
                    assert(returnable(x, b, data, i as int));
                }
                back.push(u);
                assert forall|k: int| 0 <= k < i + 1 implies returns_as(
                    x,
                    b,
                    data[k],
                    #[trigger] rows(back@)[k],
                ) by {
                    if k < i {
                        assert(rows(back@)[k] == rows(before)[k]);
                    } else {
                        assert(rows(back@)[k] == view);
                    }
                }
            },
            Err(e) => {
                assert(quantizes_to(x, b, data[i as int], q@) && dequantizing_fails(x, b, q@, e@));
                assert(returning_fails(x, b, data[i as int], e@));
                assert(evaluation_fails_at(x, b, data, i as int, e@));
                return Err(e);
            },
        }
        i += 1;
    }
    Ok(back)
}

fn flatten(data: &[Vec<Scalar>]) -> (r: Vec<Scalar>)
    ensures
        r@ == joined(rows(data@)),
{
    let ghost all = rows(data@);
    let mut r: Vec<Scalar> = Vec::new();
    let mut i: usize = 0;
    assert(r@ =~= joined(all.take(0)));
    while i < data.len()
        invariant
            all == rows(data@),
            i <= data@.len(),
            r@ == joined(all.take(i as int)),
        decreases data@.len() - i,
    {
        let row = data[i].as_slice();
        let ghost start = r@;
        let mut d: usize = 0;
        while d < row.len()
            invariant
                d <= row@.len(),
                r@ == start + row@.take(d as int),
            decreases row@.len() - d,
        {
            r.push(row[d]);
            d += 1;
            assert(r@ =~= start + row@.take(d as int));
        }
        i += 1;
        proof {
            assert(row@.take(d as int) =~= row@);
            assert(all.take(i as int).drop_last() =~= all.take(i - 1));
            assert(all.take(i as int).last() == row@);
        }
    }
    assert(all.take(i as int) =~= all);
    r
}

proof fn lemma_flat_len(data: Seq<Seq<Scalar>>, dims: nat)
    requires
        forall|i: int| 0 <= i < data.len() ==> (#[trigger] data[i]).len() == dims,
    ensures
        joined(data).len() == data.len() * dims,
    decreases data.len(),
{
    if data.len() > 0 {
        lemma_flat_len(data.drop_last(), dims);
        let n = (data.len() - 1) as nat;
        assert(n * dims + dims == (n + 1) * dims) by (nonlinear_arith);
    } else {
        assert(0 * dims == 0) by (nonlinear_arith);
    }
}

fn pick(data: &[Vec<Scalar>], d: usize) -> (r: Vec<Scalar>)
    requires
        forall|i: int| 0 <= i < data@.len() ==> (#[trigger] data@[i])@.len() > d,
    ensures
        r@ == column(rows(data@), d as int),
{
    let mut r: Vec<Scalar> = Vec::new();
    let mut i: usize = 0;
    while i < data.len()
        invariant
            forall|k: int| 0 <= k < data@.len() ==> (#[trigger] data@[k])@.len() > d,
            i <= data@.len(),
            r@.len() == i,
            forall|k: int| 0 <= k < i ==> #[trigger] r@[k] == rows(data@)[k][d as int],
        decreases data@.len() - i,
    {
        assert(data@[i as int]@.len() > d);
        r.push(data[i][d]);
        i += 1;
    }
    assert(r@ =~= column(rows(data@), d as int));
    r
}

/// Signal and noise over a dataset.
fn total_level<W: WideArithmetic>(a: &[Scalar], b: &[Scalar], w: &W) -> (r: Wide)
    requires
        a@.len() == b@.len(),
    ensures
        total_level_to(w, a@, b@, r),
{
    let noise = sum_of(Measure::Square, a, b, w);
    if noise.lt(wide_tiny()) {
        assert(measured_to(w, Measure::Square, a@, b@, a@.len(), noise));
        return wide_infinity();
    }
    let signal = average(Measure::Signal, a, b, w);
    let mean = divide(noise, a.len() as u64, w);
    let r = level(signal, mean, w);
    proof {
        assert(average_to(w, Measure::Signal, a@, b@, signal) && divided(
            w,
            noise,
            a@.len() as u64,
            mean,
        ));
        assert(spread_level_to(w, a@, b@, noise, r));
        assert(measured_to(w, Measure::Square, a@, b@, a@.len(), noise));
    }
    r
}

/// Store a dataset as bytes, read it back, and report losses and gains: four bytes become one.
pub fn evaluate<A: Arithmetic, W: WideArithmetic>(
    quantizer: &Quantizer,
    dataset: &[Vec<Scalar>],
    x: &A,
    w: &W,
) -> (r: Result<QuantizationReport>)
    requires
        4 * dataset@.len() * quantizer@.dims() <= usize::MAX,
        forall|i: int|
            0 <= i < dataset@.len() ==> input_fault(
                quantizer@,
                #[trigger] rows(dataset@)[i],
            ) is None,
    ensures
        match r {
            Ok(report) => reported(x, w, quantizer@, rows(dataset@), report),
            Err(e) => exists|i: int| #[trigger]
                evaluation_fails_at(x, quantizer@, rows(dataset@), i, e@),
        },
{
    let dims: usize = quantizer.dims();
    let n: usize = dataset.len();
    let ghost b = quantizer@;
    let ghost data = rows(dataset@);
    let per_dim_range = ranges(quantizer, x);
    if n == 0 {
        let mut per_dim_mse: Vec<Wide> = Vec::new();
        while per_dim_mse.len() < dims
            invariant
                per_dim_mse@.len() <= dims,
                forall|k: int| 0 <= k < per_dim_mse@.len() ==> per_dim_mse@[k] == wide_zero(),
            decreases dims - per_dim_mse@.len(),
        {
            per_dim_mse.push(wide_zero());
        }
        assert(per_dim_mse@ =~= Seq::new(b.dims(), |d: int| wide_zero()));
        return Ok(
            QuantizationReport {
                dims,
                num_vectors: n,
                mse: wide_zero(),
                mae: wide_zero(),
                max_abs_error: zero(),
                snr_db: wide_infinity(),
                per_dim_mse,
                per_dim_range,
                compression_ratio: wide_zero(),
                original_bytes: 0,
                compressed_bytes: 0,
            },
        );
    }
    let back = match read_all_back(quantizer, dataset, x) {
        Ok(back) => back,
        Err(e) => return Err(e),
    };
    let ghost returned = rows(back@);
    proof {
        assert forall|i: int| 0 <= i < data.len() implies (#[trigger] data[i]).len() == dims by {
            assert(input_fault(b, data[i]) is None);
        }
        assert forall|i: int| 0 <= i < returned.len() implies (#[trigger] returned[i]).len()
            == dims by {
            assert(returns_as(x, b, data[i], returned[i]));
        }
        lemma_flat_len(data, dims as nat);
        lemma_flat_len(returned, dims as nat);
        assert(4 * n * dims == 4 * (n * dims)) by (nonlinear_arith);
    }
    let f = flatten(dataset);
    let g = flatten(back.as_slice());
    let compressed_bytes: usize = n * dims;
    let original_bytes: usize = compressed_bytes * 4;
    let mse = average(Measure::Square, f.as_slice(), g.as_slice(), w);
    let mae = average(Measure::Absolute, f.as_slice(), g.as_slice(), w);
    let worst = max_abs_error(f.as_slice(), g.as_slice(), x);
    let snr = total_level(f.as_slice(), g.as_slice(), w);
    let mut per_dim_mse: Vec<Wide> = Vec::new();
    while per_dim_mse.len() < dims
        invariant
            per_dim_mse@.len() <= dims,
            data == rows(dataset@),
            returned == rows(back@),
            data.len() == returned.len(),
            forall|i: int| 0 <= i < data.len() ==> (#[trigger] data[i]).len() == dims,
            forall|i: int| 0 <= i < returned.len() ==> (#[trigger] returned[i]).len() == dims,
            forall|k: int|
                0 <= k < per_dim_mse@.len() ==> average_to(
                    w,
                    Measure::Square,
                    column(data, k),
                    column(returned, k),
                    #[trigger] per_dim_mse@[k],
                ),
        decreases dims - per_dim_mse@.len(),
    {
        let d: usize = per_dim_mse.len();
        proof {
            assert forall|i: int| 0 <= i < dataset@.len() implies (#[trigger] dataset@[i])@.len()
                > d by {
                assert(data[i].len() == dims);
            }
            assert forall|i: int| 0 <= i < back@.len() implies (#[trigger] back@[i])@.len()
                > d by {
                assert(returned[i].len() == dims);
            }
        }
        let u = pick(dataset, d);
        let v = pick(back.as_slice(), d);
        let m = average(Measure::Square, u.as_slice(), v.as_slice(), w);
        per_dim_mse.push(m);
    }
    let ratio = compression_ratio(original_bytes, compressed_bytes, w);
    let report = QuantizationReport {
        dims,
        num_vectors: n,
        mse,
        mae,
        max_abs_error: worst,
        snr_db: snr,
        per_dim_mse,
        per_dim_range,
        compression_ratio: ratio,
        original_bytes,
        compressed_bytes,
    };
    proof {
        assert(all_return(x, b, data, returned));
        assert(full_report(x, w, b, data, returned, report));
    }
    Ok(report)
}

/// The largest error of one dimension of extent `range`: one bin.
pub fn theoretical_max_error<A: Arithmetic>(range: Scalar, x: &A) -> (r: Scalar)
    ensures
        quotient(x, range, top_bin(), r),
{
    let r = x.div(range, top_bin());
    assert(quotient(x, range, top_bin(), r));
    r
}

/// One bin of a dimension of extent `range` may come out as `step`.
pub open spec fn step_to<W: WideArithmetic>(w: &W, range: Scalar, step: Wide) -> bool {
    exists|v: Wide| #[trigger] widened(w, range, v) && wide_quotient(w, v, wide_top_bin(), step)
}

/// A twelfth of the square of one bin may come out as `r`.
pub open spec fn uniform_error_to<W: WideArithmetic>(w: &W, range: Scalar, r: Wide) -> bool {
    exists|step: Wide, p: Wide| #[trigger]
        step_to(w, range, step) && #[trigger] wide_product(w, step, step, p) && wide_quotient(
            w,
            p,
            wide_twelve(),
            r,
        )
}

/// Mean squared error of an error spread evenly over one bin.
pub fn theoretical_mse_uniform<W: WideArithmetic>(range: Scalar, w: &W) -> (r: Wide)
    ensures
        uniform_error_to(w, range, r),
{
    let v = w.widen(range);
    let step = w.over(v, wide_top_bin());
    let p = w.times(step, step);
    let r = w.over(p, wide_twelve());
    proof {
        assert(widened(w, range, v) && wide_quotient(w, v, wide_top_bin(), step));
        assert(step_to(w, range, step) && wide_product(w, step, step, p) && wide_quotient(
            w,
            p,
            wide_twelve(),
            r,
        ));
    }
    r
}

} // verus!
