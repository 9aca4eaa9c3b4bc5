//! Where made-up numbers lie, under an arithmetic that rounds to nearest.
use crate::dataset::{between_to, draws, fraction_to, held, noise_to, scatters, within_to};
use crate::rounding::wide::{
    lemma_wide_numbers, wide_finite, wide_grain, wide_rounding, wide_speck, wide_value,
};
use crate::rounding::{close, grain, limit, rounding, size, speck, value};
use crate::rounding::{
    law_order_of_values, lemma_expand, lemma_numbers, lemma_positive, lemma_quotient_of_units,
    lemma_size, lemma_times,
};
use crate::bins::error::{lemma_constants, unit};
use crate::scalar::{
    counted, difference, one, product, quotient, thousand, total, Arithmetic, Scalar,
};
use crate::wide::{narrowed, share, wide_counted, wide_quotient, Wide, WideArithmetic};
use vstd::arithmetic::power2::{lemma2_to64, lemma_pow2_adds, pow2};
use vstd::prelude::*;

verus! {

proof fn lemma_thousand()
    ensures
        thousand().finite(),
        value(thousand()) == 1000real,
{
    lemma_constants();
    lemma2_to64();
    lemma_pow2_adds(14, 135);
    assert(thousand().magnitude() / 0x80_0000 == 136);
    assert(thousand().magnitude() % 0x80_0000 == 0x7a_0000);
    let (a, b) = (pow2(14), pow2(135));
    assert(a * b == 0x4000 * b) by (nonlinear_arith)
        requires
            a == 0x4000,
    ;
    assert(thousand().units() == 1000 * unit());
    lemma_quotient_of_units(1000real, unit() as real);
}

/// The noise of a state: its remainder in thousandths, less one.
pub open spec fn noise_of(state: u64) -> real {
    ((state % 2000) as int) as real / 1000real - 1real
}

/// A number scattered around a center is the center and as many spreads as the noise of the state
/// says, which is between minus one and one, up to rounding.
pub proof fn law_scattering<A: Arithmetic>(
    x: &A,
    center: Scalar,
    state: u64,
    spread: Scalar,
    v: Scalar,
)
    requires
        rounding(x),
        center.finite(),
        spread.finite(),
        8real * (size(value(center)) + size(value(spread)) + 1real) <= limit(),
        scatters(x, center, state, spread, v),
    ensures
        v.finite(),
        -1real <= noise_of(state) < 1real,
        size(value(v) - (value(center) + noise_of(state) * value(spread))) <= 16real * (grain() * (
        size(value(center)) + size(value(spread)) + 1real)),
{
    lemma_numbers();
    lemma_thousand();
    let g = grain();
    let n = choose|n: Scalar| #[trigger] noise_to(x, state, spread, n) && total(x, center, n, v);
    let (c, q, d) = choose|c: Scalar, q: Scalar, d: Scalar| #[trigger]
        counted(x, (state % 2000) as usize, c) && #[trigger] quotient(x, c, thousand(), q)
            && #[trigger] difference(x, q, one(), d) && product(x, d, spread, n);
    let t = noise_of(state);
    let e = ((state % 2000) as int) as real / 1000real;
    assert(value(c) == ((state % 2000) as int) as real);
    lemma_times(size(e), 2real, g);
    lemma_times(speck(), 1real, g);
    assert(q.finite() && size(value(q) - e) <= 3real * g);
    lemma_size(value(q) - e, t);
    lemma_times(size(value(q) - 1real), 2real, g);
    assert(d.finite());
    lemma_size(value(d) - (value(q) - 1real), value(q) - e);
    assert(size(value(d) - t) <= 6real * g);
    lemma_noise(
        value(center),
        value(spread),
        t,
        value(d),
        value(n),
        value(v),
        g,
        speck(),
        n.finite(),
        v.finite(),
    );
}

proof fn lemma_noise(
    c: real,
    s: real,
    t: real,
    d: real,
    n: real,
    v: real,
    g: real,
    p: real,
    nf: bool,
    vf: bool,
)
    requires
        size(t) <= 1real,
        size(d - t) <= 6real * g,
        0real <= g <= 1real / 64real,
        0real <= p <= 1real,
        8real * (size(c) + size(s) + 1real) <= limit(),
        size(d * s) < limit() ==> nf,
        nf ==> close(n, d * s, g, p),
        nf && size(c + n) < limit() ==> vf,
        nf && vf ==> close(v, c + n, g, p),
    ensures
        nf,
        vf,
        size(v - (c + t * s)) <= 16real * (g * (size(c) + size(s) + 1real)),
{
    let m = size(s);
    lemma_size(s, 0real);
    lemma_size(c, 0real);
    lemma_size(d - t, t);
    lemma_size(d, s);
    lemma_times(size(d), 2real, m);
    assert(nf);
    lemma_expand(d, t, s, 0real);
    lemma_size(d - t, s);
    lemma_times(size(d - t), 6real * g, m);
    assert((6real * g) * m == 6real * (g * m)) by (nonlinear_arith);
    lemma_times(size(d * s), 2real * m, g);
    assert(g * (2real * m) == 2real * (g * m)) by (nonlinear_arith);
    lemma_times(p, 1real, g);
    lemma_size(n - d * s, d * s - t * s);
    assert(size(n - t * s) <= 8real * (g * m) + g);
    lemma_times(g, 1real / 64real, m);
    lemma_size(n - d * s, d * s);
    assert(size(n) <= 3real * m + 1real);
    lemma_size(c, n);
    assert(vf);
    lemma_times(size(c + n), size(c) + 3real * m + 1real, g);
    assert(g * (size(c) + 3real * m + 1real) == g * size(c) + 3real * (g * m) + g)
        by (nonlinear_arith);
    lemma_size(v - (c + n), n - t * s);
    assert(g * (size(c) + m + 1real) == g * size(c) + g * m + g) by (nonlinear_arith);
    lemma_positive(g, size(c));
    lemma_positive(g, m);
}

/// The part of the largest state that a state is.
pub open spec fn fraction_of(state: u64) -> real {
    state as real / 0xffff_ffff_ffff_ffffreal
}

/// A state as a fraction, up to rounding.
proof fn lemma_fraction<W: WideArithmetic>(w: &W, state: u64, u: Scalar)
    requires
        wide_rounding(w),
        fraction_to(w, state, u),
    ensures
        u.finite(),
        0real <= fraction_of(state) <= 1real,
        size(value(u) - fraction_of(state)) <= 4real * grain(),
{
    lemma_wide_numbers();
    lemma_numbers();
    let h = wide_grain();
    let q = choose|q: Wide| #[trigger] share(w, state, u64::MAX, q) && narrowed(w, q, u);
    let (a, b) = choose|a: Wide, b: Wide| #[trigger]
        wide_counted(w, state, a) && #[trigger] wide_counted(w, u64::MAX, b) && wide_quotient(
            w,
            a,
            b,
            q,
        );
    let m = 0xffff_ffff_ffff_ffffreal;
    let s = state as real;
    let f = fraction_of(state);
    lemma_times(s, m, h);
    lemma_times(wide_speck(), m, h);
    lemma_times(h, 1real / 16real, m);
    crate::rounding::lemma_ratio(
        wide_value(a),
        wide_value(b),
        s,
        m,
        2real * h,
        2real * h,
    );
    let d = wide_value(a) / wide_value(b);
    lemma_size(d - f, f);
    lemma_times(size(d), 2real, h);
    lemma_times(wide_speck(), 1real, h);
    assert(wide_finite(q));
    lemma_size(wide_value(q) - d, d - f);
    assert(size(wide_value(q) - f) <= 12real * h);
    lemma_size(wide_value(q) - f, f);
    lemma_times(size(wide_value(q)), 2real, grain());
    lemma_times(speck(), 1real / 2real, grain());
    lemma_size(value(u) - wide_value(q), wide_value(q) - f);
}

/// A number drawn between `low` and `high` lies as far from `low` as the state is a part of the
/// largest one, up to rounding, unless that rounds to `high`: then it is the number before it.
pub proof fn law_drawing<A: Arithmetic, W: WideArithmetic>(
    x: &A,
    w: &W,
    low: Scalar,
    high: Scalar,
    state: u64,
    v: Scalar,
)
    requires
        rounding(x),
        wide_rounding(w),
        low.finite(),
        high.finite(),
        low.below(high),
        16real * (size(value(low)) + size(value(high)) + 1real) <= limit(),
        draws(x, w, low, high, state, v),
    ensures
        ({
            let span = value(high) - value(low);
            let target = value(low) + fraction_of(state) * span;
            ||| v == high.previous_spec()
            ||| v.finite() && size(value(v) - target) <= 16real * (grain() * (size(value(low))
                + span + 1real))
        }),
{
    lemma_numbers();
    let u = choose|u: Scalar| #[trigger]
        fraction_to(w, state, u) && within_to(x, low, high, u, v);
    lemma_fraction(w, state, u);
    let n = choose|n: Scalar| #[trigger] between_to(x, low, high, u, n) && v == held(n, low, high);
    let (range, p) = choose|range: Scalar, p: Scalar| #[trigger]
        difference(x, high, low, range) && #[trigger] product(x, u, range, p) && total(
            x,
            low,
            p,
            n,
        );
    law_order_of_values(low, high);
    let g = grain();
    let s = value(high) - value(low);
    let f = fraction_of(state);
    lemma_size(value(high), value(low));
    assert(range.finite());
    lemma_between(
        value(low),
        s,
        f,
        value(u),
        value(range),
        value(p),
        value(n),
        g,
        speck(),
        p.finite(),
        n.finite(),
    );
    law_order_of_values(low, n);
    law_order_of_values(n, high);
    lemma_positive(f, s);
    if !low.at_most(n) {
        let t = value(low) + f * s;
        assert(value(n) < value(low) <= t);
    }
}

pub(crate) proof fn lemma_between(
    l: real,
    s: real,
    f: real,
    u: real,
    r: real,
    p: real,
    n: real,
    g: real,
    e: real,
    pf: bool,
    nf: bool,
)
    requires
        s >= 0real,
        0real <= f <= 1real,
        size(u - f) <= 4real * g,
        0real <= g <= 1real / 64real,
        0real <= e <= 1real,
        close(r, s, g, e),
        8real * (size(l) + s + 1real) <= limit(),
        size(u * r) < limit() ==> pf,
        pf ==> close(p, u * r, g, e),
        pf && size(l + p) < limit() ==> nf,
        pf && nf ==> close(n, l + p, g, e),
    ensures
        nf,
        size(n - (l + f * s)) <= 16real * (g * (size(l) + s + 1real)),
{
    let m = s + 1real;
    lemma_size(l, 0real);
    // r is off from s by at most g * m, and u * r from f * s by at most 6 * g * m
    lemma_times(e, 1real, g);
    lemma_expand(g, 0real, s, 1real);
    assert(size(r - s) <= g * m);
    lemma_times(g, 1real / 64real, m);
    lemma_size(r - s, s);
    assert(size(r) <= 2real * m);
    lemma_size(u - f, f);
    lemma_size(u, r);
    lemma_times(size(u), 2real, size(r));
    assert(pf);
    assert(u * r - f * s == (u - f) * r + f * (r - s)) by {
        lemma_expand(u, f, r, 0real);
        lemma_expand(f, 0real, r, s);
    }
    lemma_size((u - f) * r, f * (r - s));
    lemma_size(u - f, r);
    lemma_size(f, r - s);
    lemma_times(size(u - f), 4real * g, size(r));
    lemma_times(size(r), 65real / 64real * m, 4real * g);
    assert((4real * g) * (65real / 64real * m) == 65real / 16real * (g * m)) by (nonlinear_arith);
    lemma_times(f, 1real, size(r - s));
    lemma_positive(g, m);
    assert(size(u * r - f * s) <= 6real * (g * m));
    lemma_times(size(u * r), 4real * m, g);
    assert(g * (4real * m) == 4real * (g * m)) by (nonlinear_arith);
    lemma_times(e, m, g);
    lemma_size(p - u * r, u * r - f * s);
    assert(size(p - f * s) <= 11real * (g * m));
    lemma_positive(f, s);
    lemma_times(f, 1real, s);
    lemma_size(p - f * s, f * s);
    assert(size(p) <= 2real * m);
    lemma_size(l, p);
    assert(nf);
    lemma_times(size(l + p), size(l) + 2real * m, g);
    assert(g * (size(l) + 2real * m) == g * size(l) + 2real * (g * m)) by (nonlinear_arith);
    lemma_size(n - (l + p), p - f * s);
    assert(g * (size(l) + s + 1real) == g * size(l) + g * m) by (nonlinear_arith)
        requires
            m == s + 1real,
    ;
    lemma_positive(g, size(l));
}

} // verus!
