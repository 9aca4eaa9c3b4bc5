//! Exact values of double-precision numbers, and arithmetic on them that rounds to nearest.
use crate::rounding::{close, rounded, size, value, within};
use crate::rounding::{
    lemma_added, lemma_divide_out, lemma_inverse, lemma_quotient, lemma_quotient_of_units,
    lemma_size, lemma_times,
};
use crate::scalar::Scalar;
use crate::wide::{
    narrowed, share, wide_counted, wide_difference, wide_infinity, wide_one, wide_product, wide_quotient,
    wide_sum, wide_ten, wide_tiny, wide_top_bin, wide_twelve, wide_zero, widened, Wide,
    WideArithmetic,
};
use vstd::arithmetic::mul::*;
use vstd::arithmetic::power2::*;
use vstd::prelude::*;

verus! {

/// Neither infinite nor not-a-number.
pub open spec fn wide_finite(a: Wide) -> bool {
    a.magnitude() < 0x7ff0_0000_0000_0000
}

/// The value of a finite magnitude, in units of the smallest positive number.
pub open spec fn wide_units_of(magnitude: int) -> int {
    let exponent = magnitude / 0x10_0000_0000_0000;
    let fraction = magnitude % 0x10_0000_0000_0000;
    if exponent == 0 {
        fraction
    } else {
        (0x10_0000_0000_0000 + fraction) * pow2((exponent - 1) as nat)
    }
}

/// The exact value of a finite number, in units of the smallest positive number.
pub open spec fn wide_units(a: Wide) -> int {
    if a.negative() {
        -wide_units_of(a.magnitude())
    } else {
        wide_units_of(a.magnitude())
    }
}

/// One, in units.
pub open spec fn wide_unit() -> int {
    pow2(1074) as int
}

/// The exact value of a finite number.
pub open spec fn wide_value(a: Wide) -> real {
    wide_units(a) as real / wide_unit() as real
}

/// One part in `2^53`.
pub open spec fn wide_grain() -> real {
    1real / 0x20_0000_0000_0000real
}

/// The smallest positive number whose fraction has full precision.
pub open spec fn wide_speck() -> real {
    1real / pow2(1022) as real
}

/// Results below this are finite.
pub open spec fn wide_limit() -> real {
    pow2(1000) as real
}

/// `r` is the number for `exact`: close to it, and finite unless it is too large.
pub open spec fn wide_rounded(r: Wide, exact: real) -> bool {
    &&& size(exact) < wide_limit() ==> wide_finite(r)
    &&& wide_finite(r) ==> close(wide_value(r), exact, wide_grain(), wide_speck())
}

/// An arithmetic whose operations round to nearest. Single-precision numbers keep their values in
/// double precision, and so do small counts.
pub open spec fn wide_rounding<W: WideArithmetic>(w: &W) -> bool {
    &&& forall|a: Scalar, r: Wide|
        a.finite() && #[trigger] widened(w, a, r) ==> wide_finite(r) && wide_value(r) == value(a)
    &&& forall|a: Wide, r: Scalar|
        wide_finite(a) && #[trigger] narrowed(w, a, r) ==> rounded(r, wide_value(a))
    &&& forall|n: u64, r: Wide| #[trigger]
        wide_counted(w, n, r) ==> wide_finite(r) && close(
            wide_value(r),
            n as real,
            wide_grain(),
            wide_speck(),
        ) && (n <= 0x20_0000_0000_0000 ==> wide_value(r) == n as real)
    &&& forall|a: Wide, b: Wide, r: Wide|
        wide_finite(a) && wide_finite(b) && #[trigger] wide_sum(w, a, b, r) ==> wide_rounded(
            r,
            wide_value(a) + wide_value(b),
        )
    &&& forall|a: Wide, b: Wide, r: Wide|
        wide_finite(a) && wide_finite(b) && #[trigger] wide_difference(w, a, b, r)
            ==> wide_rounded(r, wide_value(a) - wide_value(b))
    &&& forall|a: Wide, b: Wide, r: Wide|
        wide_finite(a) && wide_finite(b) && #[trigger] wide_product(w, a, b, r) ==> wide_rounded(
            r,
            wide_value(a) * wide_value(b),
        )
    &&& forall|a: Wide, b: Wide, r: Wide|
        wide_finite(a) && wide_finite(b) && wide_value(b) != 0real && #[trigger] wide_quotient(
            w,
            a,
            b,
            r,
        ) ==> wide_rounded(r, wide_value(a) / wide_value(b))
}

proof fn lemma_wide_units_increase(a: int, b: int)
    requires
        0 <= a < b < 0x7ff0_0000_0000_0000,
    ensures
        0 <= wide_units_of(a) < wide_units_of(b),
{
    let h = 0x10_0000_0000_0000int;
    let ea = a / 0x10_0000_0000_0000;
    let fa = a % 0x10_0000_0000_0000;
    let eb = b / 0x10_0000_0000_0000;
    let fb = b % 0x10_0000_0000_0000;
    if eb > 0 {
        let pb = pow2((eb - 1) as nat) as int;
        lemma_pow2_pos((eb - 1) as nat);
        if ea == 0 {
            lemma_mul_inequality(1, pb, h + fb);
            lemma_mul_is_commutative(pb, h + fb);
        } else {
            let pa = pow2((ea - 1) as nat) as int;
            lemma_pow2_pos((ea - 1) as nat);
            lemma_mul_nonnegative(h + fa, pa);
            if ea == eb {
                lemma_mul_strict_inequality(h + fa, h + fb, pa);
            } else {
                lemma_pow2_unfold(ea as nat);
                lemma_mul_strict_inequality(h + fa, 0x20_0000_0000_0000, pa);
                if ea < eb - 1 {
                    lemma_pow2_strictly_increases(ea as nat, (eb - 1) as nat);
                }
                lemma_mul_inequality(h, h + fb, pb);
            }
        }
    }
}

/// Comparing finite numbers is comparing their values.
pub proof fn law_order_of_wide_values(a: Wide, b: Wide)
    requires
        wide_finite(a),
        wide_finite(b),
    ensures
        a.below(b) <==> wide_value(a) < wide_value(b),
{
    let ma = a.magnitude();
    let mb = b.magnitude();
    if ma < mb {
        lemma_wide_units_increase(ma, mb);
    }
    if mb < ma {
        lemma_wide_units_increase(mb, ma);
    }
    if 0 < ma {
        lemma_wide_units_increase(0, ma);
    }
    if 0 < mb {
        lemma_wide_units_increase(0, mb);
    }
    assert(a.below(b) <==> wide_units(a) < wide_units(b));
    lemma_pow2_pos(1074);
    let u = wide_unit() as real;
    let p = wide_units(a) as real;
    let q = wide_units(b) as real;
    assert(p < q <==> p / u < q / u) by (nonlinear_arith)
        requires
            u > 0real,
    ;
}

/// The number without its sign has the distance from zero as its value.
pub proof fn law_wide_abs(a: Wide)
    requires
        wide_finite(a),
    ensures
        wide_finite(a.abs_spec()),
        wide_value(a.abs_spec()) == size(wide_value(a)),
{
    let m = a.abs_spec();
    assert(m.magnitude() == a.magnitude());
    if 0 < m.magnitude() {
        lemma_wide_units_increase(0, m.magnitude());
    }
    lemma_pow2_pos(1074);
    let u = wide_unit() as real;
    let p = wide_units(m) as real;
    assert((-p) / u == -(p / u)) by (nonlinear_arith)
        requires
            u > 0real,
    ;
    assert(p / u >= 0real) by (nonlinear_arith)
        requires
            u > 0real,
            p >= 0real,
    ;
    assert(wide_units(a) == wide_units(m) || wide_units(a) == -wide_units(m));
    if wide_units(m) == 0 {
        assert(0real / u == 0real) by (nonlinear_arith)
            requires
                u > 0real,
        ;
    }
}

/// A number with a small exponent.
proof fn lemma_wide_number(a: Wide, e: nat, n: int, c: int)
    requires
        !a.negative(),
        a.magnitude() / 0x10_0000_0000_0000 == 1023 + e,
        0x10_0000_0000_0000 + a.magnitude() % 0x10_0000_0000_0000 == n * c,
        0 < e <= 8,
        c * pow2(e) == 0x10_0000_0000_0000,
        n >= 0,
    ensures
        wide_finite(a),
        wide_units(a) == n * wide_unit(),
{
    assert(wide_units(a) == (n * c) * pow2((1022 + e) as nat));
    lemma_pow2_adds(e, 1022);
    lemma_pow2_adds(52, 1022);
    lemma2_to64();
    lemma_pow2_adds(32, 20);
    let p = pow2(1022) as int;
    let q = pow2(e) as int;
    assert((n * c) * (q * p) == n * ((c * q) * p)) by (nonlinear_arith);
}

pub(crate) proof fn lemma_wide_numbers()
    ensures
        wide_finite(wide_zero()) && wide_value(wide_zero()) == 0real,
        wide_finite(wide_ten()) && wide_value(wide_ten()) == 10real,
        wide_finite(wide_twelve()) && wide_value(wide_twelve()) == 12real,
        wide_finite(wide_top_bin()) && wide_value(wide_top_bin()) == 255real,
        !wide_finite(wide_infinity()),
        0real < wide_speck() < 1real / 0x1_0000_0000_0000_0000_0000_0000_0000_0000real,
        wide_limit() > 0x1_0000_0000_0000_0000_0000_0000_0000_0000real,
{
    lemma2_to64();
    lemma_pow2_pos(1074);
    let u = wide_unit() as real;
    lemma_quotient_of_units(0real, u);
    lemma_quotient_of_units(10real, u);
    lemma_quotient_of_units(12real, u);
    lemma_quotient_of_units(255real, u);
    lemma_wide_number(wide_ten(), 3, 10, 0x2_0000_0000_0000);
    lemma_wide_number(wide_twelve(), 3, 12, 0x2_0000_0000_0000);
    lemma_wide_number(wide_top_bin(), 7, 255, 0x2000_0000_0000);
    lemma_pow2_adds(64, 64);
    lemma_pow2_strictly_increases(128, 1022);
    lemma_pow2_strictly_increases(128, 1000);
    assert(pow2(128) == 0x1_0000_0000_0000_0000_0000_0000_0000_0000);
    lemma_inverse(pow2(1022) as real, 0x1_0000_0000_0000_0000_0000_0000_0000_0000real);
}

pub(crate) proof fn lemma_wide_one()
    ensures
        wide_finite(wide_one()),
        wide_value(wide_one()) == 1real,
{
    lemma_pow2_pos(1074);
    lemma_pow2_adds(52, 1022);
    lemma2_to64();
    lemma_pow2_adds(32, 20);
    assert(wide_one().magnitude() / 0x10_0000_0000_0000 == 1023);
    assert(wide_one().magnitude() % 0x10_0000_0000_0000 == 0);
    assert(wide_units(wide_one()) == wide_unit());
    lemma_quotient_of_units(1real, wide_unit() as real);
}

/// The number that levels are held against.
pub(crate) proof fn lemma_wide_tiny()
    ensures
        wide_finite(wide_tiny()),
        9real / 10_000_000_000_000real <= wide_value(wide_tiny()) <= 11real
            / 10_000_000_000_000real,
{
    lemma2_to64();
    lemma_pow2_pos(982);
    lemma_pow2_adds(982, 92);
    lemma_pow2_adds(64, 28);
    assert(wide_tiny().magnitude() / 0x10_0000_0000_0000 == 983);
    assert(wide_tiny().magnitude() % 0x10_0000_0000_0000 == 0x1_9799_812d_ea11);
    let (a, b) = (pow2(982), pow2(92));
    assert(b == 0x1000_0000_0000_0000_0000_0000);
    assert(a * b == 0x1000_0000_0000_0000_0000_0000 * a) by (nonlinear_arith)
        requires
            b == 0x1000_0000_0000_0000_0000_0000,
    ;
    assert(wide_units(wide_tiny()) == 0x11_9799_812d_ea11 * a);
    let u = wide_unit() as real;
    let t = wide_units(wide_tiny()) as real;
    lemma_quotient(t, u);
    lemma_divide_out(t / u, 11real / 10_000_000_000_000real, u);
    lemma_divide_out(9real / 10_000_000_000_000real, t / u, u);
}

/// A share is the quotient of its counts, up to rounding.
pub proof fn law_share<W: WideArithmetic>(w: &W, n: u64, d: u64, r: Wide)
    requires
        wide_rounding(w),
        n <= 0x20_0000_0000_0000,
        0 < d <= 0x20_0000_0000_0000,
        share(w, n, d, r),
    ensures
        wide_finite(r),
        close(wide_value(r), n as real / d as real, wide_grain(), wide_speck()),
{
    lemma_wide_numbers();
    let (a, b) = choose|a: Wide, b: Wide| #[trigger]
        wide_counted(w, n, a) && #[trigger] wide_counted(w, d, b) && wide_quotient(w, a, b, r);
    let c = d as real;
    let q = n as real / c;
    lemma_quotient(n as real, c);
    lemma_divide_out(0real, q, c);
    lemma_times(1real, c, q);
    assert(q * 1real == q);
    assert(wide_value(a) == n as real && wide_value(b) == c);
}

/// A rounded sum of two numbers that are off is off by three grains more.
pub(crate) proof fn lemma_wide_total<W: WideArithmetic>(
    w: &W,
    a: Wide,
    va: real,
    ta: real,
    b: Wide,
    vb: real,
    tb: real,
    r: Wide,
    k: real,
)
    requires
        wide_rounding(w),
        wide_finite(a),
        wide_finite(b),
        wide_sum(w, a, b, r),
        within(wide_value(a), va, ta, k),
        within(wide_value(b), vb, tb, k),
        0real <= k <= 1real / 2real,
        wide_speck() <= ta + tb,
        4real * (ta + tb) <= wide_limit(),
    ensures
        wide_finite(r),
        within(wide_value(r), va + vb, ta + tb, k + 3real * wide_grain()),
{
    lemma_wide_numbers();
    let e = wide_value(a) + wide_value(b);
    lemma_size(va, vb);
    lemma_size(wide_value(a) - va, wide_value(b) - vb);
    lemma_size(e - (va + vb), va + vb);
    lemma_times(k, 1real / 2real, ta);
    lemma_times(k, 1real / 2real, tb);
    lemma_added(
        wide_value(a),
        va,
        ta,
        wide_value(b),
        vb,
        tb,
        wide_value(r),
        k,
        wide_grain(),
        wide_speck(),
    );
}

} // verus!
