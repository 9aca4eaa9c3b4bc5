//! Which bytes stand for which values, under an arithmetic that rounds to nearest.
use crate::bins::error::{lemma_constants, unit};
use crate::bins::{
    bins_to, flat, flat_bin, flat_to, linear_to, mixes_to, packs_to, stands_for, unit_clamped,
};
use crate::dataset::laws::lemma_between;
use crate::rounding::{close, grain, limit, rounding, size, speck, value};
use crate::rounding::{
    law_order_of_values, law_signs, lemma_divide_out, lemma_expand, lemma_numbers, lemma_quotient,
    lemma_ratio, lemma_size, lemma_thresholds, lemma_times, lemma_whole,
};
use crate::scalar::{
    counted, difference, epsilon, law_order_is_value_order, millionth, one, product, quotient,
    top_bin, total, zero, Arithmetic, Scalar,
};
use vstd::arithmetic::power2::{lemma2_to64, lemma_pow2_adds, pow2};
use vstd::prelude::*;

verus! {

proof fn lemma_epsilon()
    ensures
        epsilon().finite(),
        value(epsilon()) == 1real / 0x80_0000real,
{
    lemma_constants();
    lemma2_to64();
    lemma_pow2_adds(23, 103);
    lemma_pow2_adds(23, 126);
    assert(epsilon().magnitude() / 0x80_0000 == 104);
    assert(epsilon().magnitude() % 0x80_0000 == 0);
    let (a, b) = (pow2(23), pow2(126));
    assert(a * b == 0x80_0000 * b) by (nonlinear_arith)
        requires
            a == 0x80_0000,
    ;
    let (c, d) = (pow2(23), pow2(103));
    assert(c * d == 0x80_0000 * d) by (nonlinear_arith)
        requires
            c == 0x80_0000,
    ;
    assert(0x80_0000 * epsilon().units() == unit());
    let u = unit() as real;
    let e = epsilon().units() as real;
    lemma_quotient(e, u);
    lemma_divide_out(e / u, 1real / 0x80_0000real, u);
    lemma_divide_out(1real / 0x80_0000real, e / u, u);
}

/// Bounds in order that stay far below the largest number.
pub open spec fn bounded(min: Scalar, max: Scalar) -> bool {
    &&& min.finite()
    &&& max.finite()
    &&& value(min) <= value(max)
    &&& 16real * (size(value(min)) + size(value(max)) + 1real) <= limit()
}

/// A dimension whose bounds are at least one part in four million apart has an extent, and one
/// whose bounds are less than one part in ten million apart has none.
pub proof fn law_extent<A: Arithmetic>(x: &A, min: Scalar, max: Scalar, range: Scalar)
    requires
        rounding(x),
        bounded(min, max),
        difference(x, max, min, range),
    ensures
        range.finite(),
        close(value(range), value(max) - value(min), grain(), speck()),
        value(max) - value(min) >= 1real / 4_000_000real ==> !flat(range) && value(range) > 0real,
        value(max) - value(min) <= 1real / 10_000_000real ==> flat(range),
{
    lemma_numbers();
    lemma_epsilon();
    let e = value(max) - value(min);
    let g = grain();
    lemma_size(value(max), value(min));
    assert(range.finite());
    law_signs(range);
    law_order_of_values(range.abs_spec(), epsilon());
    lemma_size(value(range) - e, e);
    lemma_size(value(range) - e, 0real);
    if e >= 1real / 4_000_000real {
        lemma_times(speck(), e, g);
        lemma_times(g, 1real / 64real, e);
    }
    if e <= 1real / 10_000_000real {
        lemma_times(e, 1real / 10_000_000real, g);
        lemma_times(speck(), 1real / 0x1_0000_0000_0000_0000real, g);
    }
}

/// `q` is the whole part of 255 times `t`, up to rounding.
pub open spec fn whole_part(q: u8, t: real) -> bool {
    &&& q as real <= 255real * t + 3200real * grain()
    &&& 255real * t - 3200real * grain() < q as real + 1real
}

proof fn lemma_linear<A: Arithmetic>(x: &A, val: Scalar, min: Scalar, max: Scalar, range: Scalar, q: u8)
    requires
        rounding(x),
        bounded(min, max),
        val.finite(),
        value(min) <= value(val) <= value(max),
        value(max) - value(min) >= 1real / 4_000_000real,
        difference(x, max, min, range),
        linear_to(x, val, min, range, q),
    ensures
        whole_part(q, (value(val) - value(min)) / (value(max) - value(min))),
{
    lemma_numbers();
    let g = grain();
    let e = value(max) - value(min);
    let w = value(val) - value(min);
    let t = w / e;
    law_extent(x, min, max, range);
    let (away, n, s) = choose|away: Scalar, n: Scalar, s: Scalar| #[trigger]
        difference(x, val, min, away) && #[trigger] quotient(x, away, range, n)
            && #[trigger] product(x, unit_clamped(n), top_bin(), s) && q == s.byte_spec();
    lemma_size(value(max), value(min));
    lemma_size(value(val), value(min));
    assert(size(w) <= e);
    assert(away.finite());
    lemma_times(w, e, g);
    lemma_times(speck(), e, g);
    assert((2real * g) * e == g * e + g * e) by (nonlinear_arith);
    lemma_ratio(value(away), value(range), w, e, 2real * g, 2real * g);
    let d = value(away) / value(range);
    lemma_quotient(w, e);
    lemma_divide_out(0real, t, e);
    lemma_divide_out(t, 1real, e);
    lemma_size(d - t, t);
    assert(n.finite());
    lemma_times(size(d), 2real, g);
    lemma_times(speck(), 1real, g);
    lemma_size(value(n) - d, d - t);
    assert(size(value(n) - t) <= 11real * g);
    law_order_of_values(n, zero());
    law_order_of_values(one(), n);
    let c = value(unit_clamped(n));
    assert(0real <= c <= 1real && size(c - t) <= 11real * g);
    assert(s.finite());
    lemma_times(c * 255real, 255real, g);
    assert(size(value(s) - 255real * c) <= 256real * g);
    assert(size(value(s) - 255real * t) <= 3061real * g) by {
        lemma_size(value(s) - 255real * c, 255real * (c - t));
        lemma_size(255real, c - t);
        lemma_expand(255real, 0real, c, t);
    }
    law_order_of_values(s, zero());
    law_order_of_values(top_bin(), s);
    if !s.below(zero()) {
        law_order_is_value_order(s, zero());
        assert(zero().units() == 0);
        lemma_whole(s);
        if !top_bin().below(s) {
            assert(s.units() / unit() <= 255);
        }
    }
}

/// A value between the bounds gets the whole part of 255 times its relative position as its byte,
/// up to rounding.
pub proof fn law_byte_of_a_value<A: Arithmetic>(
    x: &A,
    val: Scalar,
    min: Scalar,
    max: Scalar,
    q: u8,
    p: u8,
)
    requires
        rounding(x),
        bounded(min, max),
        val.finite(),
        value(min) <= value(val) <= value(max),
        value(max) - value(min) >= 1real / 4_000_000real,
        bins_to(x, val, min, max, q),
        packs_to(x, val, min, max, p),
    ensures
        whole_part(q, (value(val) - value(min)) / (value(max) - value(min))),
        whole_part(p, (value(val) - value(min)) / (value(max) - value(min))),
{
    let r = choose|range: Scalar| #[trigger]
        difference(x, max, min, range) && if flat(range) {
            flat_to(x, val, min, max, q)
        } else {
            linear_to(x, val, min, range, q)
        };
    law_extent(x, min, max, r);
    lemma_linear(x, val, min, max, r, q);
    let s = choose|range: Scalar| #[trigger]
        difference(x, max, min, range) && if flat(range) {
            p == 0
        } else {
            linear_to(x, val, min, range, p)
        };
    law_extent(x, min, max, s);
    lemma_linear(x, val, min, max, s, p);
}

/// A byte stands for the lower bound and its share, in 255 parts, of the extent, up to rounding.
pub proof fn law_value_of_a_byte<A: Arithmetic>(
    x: &A,
    q: u8,
    min: Scalar,
    max: Scalar,
    v: Scalar,
)
    requires
        rounding(x),
        bounded(min, max),
        value(max) - value(min) >= 1real / 4_000_000real,
        stands_for(x, q, min, max, v),
    ensures
        v.finite(),
        ({
            let e = value(max) - value(min);
            size(value(v) - (value(min) + q as real / 255real * e)) <= 16real * (grain() * (size(
                value(min),
            ) + e + 1real))
        }),
{
    lemma_numbers();
    let g = grain();
    let range = choose|range: Scalar| #[trigger]
        difference(x, max, min, range) && if flat(range) {
            v == min
        } else {
            mixes_to(x, min, q, range, v)
        };
    law_extent(x, min, max, range);
    let (c, share, part) = choose|c: Scalar, share: Scalar, part: Scalar| #[trigger]
        counted(x, q as usize, c) && #[trigger] quotient(x, c, top_bin(), share)
            && #[trigger] product(x, share, range, part) && total(x, min, part, v);
    let f = q as real / 255real;
    assert(value(c) == q as real);
    lemma_times(f, 1real, g);
    lemma_times(speck(), 1real, g);
    assert(share.finite());
    lemma_size(value(max), value(min));
    lemma_between(
        value(min),
        value(max) - value(min),
        f,
        value(share),
        value(range),
        value(part),
        value(v),
        g,
        speck(),
        part.finite(),
        v.finite(),
    );
}

/// In a dimension whose bounds are hardly apart, every byte stands for the lower bound. Values up
/// to the upper bound get the first byte, and values well above it the last.
pub proof fn law_dimension_without_extent<A: Arithmetic>(
    x: &A,
    val: Scalar,
    min: Scalar,
    max: Scalar,
    q: u8,
    b: u8,
    v: Scalar,
)
    requires
        rounding(x),
        bounded(min, max),
        val.finite(),
        16real * (size(value(val)) + size(value(min)) + 1real) <= limit(),
        value(max) - value(min) <= 1real / 10_000_000real,
        bins_to(x, val, min, max, q),
        stands_for(x, b, min, max, v),
    ensures
        v == min,
        value(val) <= value(max) ==> q == 0,
        value(val) >= value(min) + 2real / 1_000_000real ==> q == 255,
{
    lemma_numbers();
    lemma_thresholds();
    let g = grain();
    let r = choose|range: Scalar| #[trigger]
        difference(x, max, min, range) && if flat(range) {
            v == min
        } else {
            mixes_to(x, min, b, range, v)
        };
    law_extent(x, min, max, r);
    let s = choose|range: Scalar| #[trigger]
        difference(x, max, min, range) && if flat(range) {
            flat_to(x, val, min, max, q)
        } else {
            linear_to(x, val, min, range, q)
        };
    law_extent(x, min, max, s);
    let away = choose|away: Scalar| #[trigger]
        difference(x, val, min, away) && q == flat_bin(val, min, max, away);
    law_order_of_values(max, val);
    law_order_of_values(val, min);
    let e = value(val) - value(min);
    lemma_size(value(val), value(min));
    assert(away.finite());
    law_signs(away);
    law_order_of_values(away.abs_spec(), millionth());
    if e >= 2real / 1_000_000real {
        lemma_times(speck(), e, g);
        lemma_times(g, 1real / 64real, e);
        lemma_size(value(away) - e, 0real);
    }
}

} // verus!
