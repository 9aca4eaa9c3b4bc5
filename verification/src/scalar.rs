//! Single-precision coordinates, carried as their IEEE 754 bit patterns.
//!
//! Everything a coordinate decides by itself (finite or not, smaller or larger, sign and
//! magnitude, whole part) is settled here on the bits. Arithmetic between coordinates is
//! handed in by the caller as an [`Arithmetic`].
use vstd::arithmetic::power2::*;
use vstd::arithmetic::div_mod::*;
use vstd::arithmetic::mul::*;
use vstd::bits::*;
use vstd::prelude::*;

verus! {

/// A single-precision number, given by its 32 bits: sign, eight exponent bits, 23 fraction bits.
#[derive(Clone, Copy, Debug, PartialEq, Eq, Hash, Structural)]
pub struct Scalar {
    pub bits: u32,
}

/// Positive zero.
#[verifier::allow_in_spec]
pub fn zero() -> Scalar
    returns
        (Scalar { bits: 0 }),
{
    Scalar { bits: 0 }
}

/// One.
#[verifier::allow_in_spec]
pub fn one() -> Scalar
    returns
        (Scalar { bits: 0x3f80_0000 }),
{
    Scalar { bits: 0x3f80_0000 }
}

/// Minus one.
#[verifier::allow_in_spec]
pub fn minus_one() -> Scalar
    returns
        (Scalar { bits: 0xbf80_0000 }),
{
    Scalar { bits: 0xbf80_0000 }
}

/// The number nearest to one millionth of a millionth.
#[verifier::allow_in_spec]
pub fn tiny() -> Scalar
    returns
        (Scalar { bits: 0x2b8c_bccc }),
{
    Scalar { bits: 0x2b8c_bccc }
}

/// One hundred.
#[verifier::allow_in_spec]
pub fn hundred() -> Scalar
    returns
        (Scalar { bits: 0x42c8_0000 }),
{
    Scalar { bits: 0x42c8_0000 }
}

/// One thousand.
#[verifier::allow_in_spec]
pub fn thousand() -> Scalar
    returns
        (Scalar { bits: 0x447a_0000 }),
{
    Scalar { bits: 0x447a_0000 }
}

/// The largest bin, 255.
#[verifier::allow_in_spec]
pub fn top_bin() -> Scalar
    returns
        (Scalar { bits: 0x437f_0000 }),
{
    Scalar { bits: 0x437f_0000 }
}

/// Positive infinity.
#[verifier::allow_in_spec]
pub fn infinity() -> Scalar
    returns
        (Scalar { bits: 0x7f80_0000 }),
{
    Scalar { bits: 0x7f80_0000 }
}

/// Negative infinity.
#[verifier::allow_in_spec]
pub fn neg_infinity() -> Scalar
    returns
        (Scalar { bits: 0xff80_0000 }),
{
    Scalar { bits: 0xff80_0000 }
}

/// Distance from one to the next larger number.
#[verifier::allow_in_spec]
pub fn epsilon() -> Scalar
    returns
        (Scalar { bits: 0x3400_0000 }),
{
    Scalar { bits: 0x3400_0000 }
}

/// The number nearest to one millionth.
#[verifier::allow_in_spec]
pub fn millionth() -> Scalar
    returns
        (Scalar { bits: 0x3586_37bd }),
{
    Scalar { bits: 0x3586_37bd }
}

/// The value of a finite magnitude, in units of the smallest positive number.
pub open spec fn units_of(magnitude: int) -> int {
    let exponent = magnitude / 0x80_0000;
    let fraction = magnitude % 0x80_0000;
    if exponent == 0 {
        fraction
    } else {
        (0x80_0000 + fraction) * pow2((exponent - 1) as nat)
    }
}

impl Scalar {
    /// The bits without the sign.
    pub open spec fn magnitude(self) -> int {
        self.bits as int % 0x8000_0000
    }

    pub open spec fn negative(self) -> bool {
        self.bits >= 0x8000_0000
    }

    /// Neither infinite nor not-a-number.
    pub open spec fn finite(self) -> bool {
        self.magnitude() < 0x7f80_0000
    }

    pub open spec fn nan(self) -> bool {
        self.magnitude() > 0x7f80_0000
    }

    /// Position in the order of numbers; both zeros share position zero.
    pub open spec fn key(self) -> int {
        if self.negative() {
            -self.magnitude()
        } else {
            self.magnitude()
        }
    }

    /// The exact value of a finite number, in units of the smallest positive number.
    pub open spec fn units(self) -> int {
        if self.negative() {
            -units_of(self.magnitude())
        } else {
            units_of(self.magnitude())
        }
    }

    /// `self < other`; never true of not-a-number.
    pub open spec fn below(self, other: Scalar) -> bool {
        !self.nan() && !other.nan() && self.key() < other.key()
    }

    /// `self <= other`; never true of not-a-number.
    pub open spec fn at_most(self, other: Scalar) -> bool {
        !self.nan() && !other.nan() && self.key() <= other.key()
    }

    pub open spec fn abs_spec(self) -> Scalar {
        Scalar { bits: self.magnitude() as u32 }
    }

    pub open spec fn neg_spec(self) -> Scalar {
        if self.negative() {
            Scalar { bits: (self.bits - 0x8000_0000) as u32 }
        } else {
            Scalar { bits: (self.bits + 0x8000_0000) as u32 }
        }
    }

    /// The byte a number is converted to: its whole part, held in `0..=255`; zero for
    /// not-a-number.
    pub open spec fn byte_spec(self) -> u8 {
        if self.nan() || self.below(zero()) {
            0
        } else if top_bin().below(self) {
            255
        } else {
            (self.units() / pow2(149) as int) as u8
        }
    }

    /// The index a number is converted to: its whole part, or with `up` the next whole number if
    /// it has a fraction, held in `0..=last`; zero for not-a-number.
    pub open spec fn index_spec(self, last: nat, up: bool) -> nat {
        if self.nan() || self.below(zero()) {
            0
        } else if !self.finite() {
            last
        } else {
            let whole = self.units() / pow2(149) as int;
            let i = if up && self.units() % pow2(149) as int != 0 {
                whole + 1
            } else {
                whole
            };
            if i < last {
                i as nat
            } else {
                last
            }
        }
    }

    /// The largest number below one that is neither negative infinity nor not-a-number.
    pub open spec fn previous_spec(self) -> Scalar {
        if self.key() > 0 {
            Scalar { bits: (self.bits - 1) as u32 }
        } else {
            Scalar { bits: (0x8000_0001 - self.key()) as u32 }
        }
    }

    pub fn is_finite(self) -> (r: bool)
        ensures
            r == self.finite(),
    {
        self.bits % 0x8000_0000 < 0x7f80_0000
    }

    pub fn is_nan(self) -> (r: bool)
        ensures
            r == self.nan(),
    {
        self.bits % 0x8000_0000 > 0x7f80_0000
    }

    /// Whether `self < other`.
    pub fn lt(self, other: Scalar) -> (r: bool)
        ensures
            r == self.below(other),
    {
        if self.is_nan() || other.is_nan() {
            return false;
        }
        let a: u32 = self.bits % 0x8000_0000;
        let b: u32 = other.bits % 0x8000_0000;
        if self.bits >= 0x8000_0000 {
            if other.bits >= 0x8000_0000 {
                b < a
            } else {
                a > 0 || b > 0
            }
        } else if other.bits >= 0x8000_0000 {
            false
        } else {
            a < b
        }
    }

    /// Whether `self <= other`.
    pub fn le(self, other: Scalar) -> (r: bool)
        ensures
            r == self.at_most(other),
    {
        !self.is_nan() && !other.is_nan() && !other.lt(self)
    }

    /// The number without its sign.
    pub fn abs(self) -> (r: Scalar)
        ensures
            r == self.abs_spec(),
    {
        Scalar { bits: self.bits % 0x8000_0000 }
    }

    /// The number with the opposite sign.
    pub fn negated(self) -> (r: Scalar)
        ensures
            r == self.neg_spec(),
    {
        if self.bits >= 0x8000_0000 {
            Scalar { bits: self.bits - 0x8000_0000 }
        } else {
            Scalar { bits: self.bits + 0x8000_0000 }
        }
    }

    /// The largest number below this one.
    pub fn previous(self) -> (r: Scalar)
        requires
            neg_infinity().below(self),
        ensures
            r == self.previous_spec(),
            r.below(self),
            forall|s: Scalar| #[trigger] s.below(self) ==> s.at_most(r),
    {
        let m: u32 = self.bits % 0x8000_0000;
        if self.bits >= 0x8000_0000 || m == 0 {
            Scalar { bits: 0x8000_0001 + m }
        } else {
            Scalar { bits: m - 1 }
        }
    }

    /// The whole part as a byte, held in `0..=255`.
    pub fn to_byte(self) -> (r: u8)
        ensures
            r == self.byte_spec(),
    {
        if self.is_nan() || self.lt(zero()) {
            return 0;
        }
        if top_bin().lt(self) {
            return 255;
        }
        let m: u32 = self.bits % 0x8000_0000;
        let e: u32 = m / 0x80_0000;
        let f: u32 = m % 0x80_0000;
        proof {
            lemma_whole_part(self);
            lemma2_to64();
        }
        if e < 127 {
            return 0;
        }
        let whole: u32 = 0x80_0000 + f;
        let r: u32 = match e {
            127 => whole / 0x80_0000,
            128 => whole / 0x40_0000,
            129 => whole / 0x20_0000,
            130 => whole / 0x10_0000,
            131 => whole / 0x8_0000,
            132 => whole / 0x4_0000,
            133 => whole / 0x2_0000,
            _ => whole / 0x1_0000,
        };
        r as u8
    }

    /// The whole part, or with `up` the next whole number if there is a fraction, held in
    /// `0..=last`.
    pub fn to_index(self, last: usize, up: bool) -> (r: usize)
        ensures
            r == self.index_spec(last as nat, up),
            r <= last,
    {
        if self.is_nan() || self.lt(zero()) {
            return 0;
        }
        if !self.is_finite() {
            return last;
        }
        let m: u32 = self.bits % 0x8000_0000;
        let e: u32 = m / 0x80_0000;
        let f: u32 = m % 0x80_0000;
        proof {
            lemma_whole_part(self);
            lemma2_to64();
            lemma2_to64_rest();
        }
        let whole: u64 = (0x80_0000 + f) as u64;
        let (i, fraction): (u64, bool) = if e < 127 {
            (0, m > 0)
        } else if e < 150 {
            let shift: u64 = (150 - e) as u64;
            proof {
                lemma_u64_shr_is_div(whole, shift);
                lemma_pow2_strictly_increases(shift as nat, 24);
                lemma_u64_pow2_no_overflow(shift as nat);
                lemma_u64_shl_is_mul(1, shift);
                lemma_pow2_pos(shift as nat);
            }
            (whole >> shift, whole % (1u64 << shift) != 0)
        } else if e <= 190 {
            let shift: u64 = (e - 150) as u64;
            proof {
                if shift < 40 {
                    lemma_pow2_strictly_increases(shift as nat, 40);
                }
                lemma_pow2_pos(shift as nat);
                assert(whole * pow2(shift as nat) <= 0xff_ffff * 0x100_0000_0000)
                    by (nonlinear_arith)
                    requires
                        whole <= 0xff_ffff,
                        pow2(shift as nat) <= 0x100_0000_0000,
                ;
                lemma_u64_shl_is_mul(whole, shift);
            }
            (whole << shift, false)
        } else {
            proof {
                lemma_pow2_adds(41, (e - 191) as nat);
                lemma_pow2_pos((e - 191) as nat);
                assert((0x80_0000 + f) * pow2((e - 150) as nat) >= 0x1_0000_0000_0000_0000)
                    by (nonlinear_arith)
                    requires
                        pow2((e - 150) as nat) == 0x200_0000_0000 * pow2((e - 191) as nat),
                        pow2((e - 191) as nat) >= 1,
                ;
            }
            return last;
        };
        if i < last as u64 {
            if up && fraction {
                i as usize + 1
            } else {
                i as usize
            }
        } else {
            last
        }
    }
}

/// The whole part of a finite number, and whether it has a fraction, read off exponent and
/// fraction bits.
proof fn lemma_whole_part(s: Scalar)
    requires
        s.finite(),
        !s.below(zero()),
    ensures
        ({
            let e = s.magnitude() / 0x80_0000;
            let f = s.magnitude() % 0x80_0000;
            let p = pow2(149) as int;
            &&& e < 127 ==> s.units() / p == 0 && (s.units() % p == 0 <==> s.magnitude() == 0)
            &&& 127 <= e < 150 ==> s.units() / p == (0x80_0000 + f) / pow2(
                (150 - e) as nat,
            ) as int && (s.units() % p == 0 <==> (0x80_0000 + f) % pow2((150 - e) as nat) as int
                == 0)
            &&& 150 <= e ==> s.units() / p == (0x80_0000 + f) * pow2((e - 150) as nat)
                && s.units() % p == 0
        }),
{
    let m = s.magnitude();
    let e = m / 0x80_0000;
    let f = m % 0x80_0000;
    assert(s.units() == units_of(m));
    lemma_pow2_pos(149);
    if e < 127 {
        assert(units_of(m) < pow2(149)) by {
            if e == 0 {
                lemma_pow2_strictly_increases(23, 149);
                lemma2_to64();
            } else {
                lemma_pow2_adds(24, (e - 1) as nat);
                lemma2_to64();
                lemma_pow2_pos((e - 1) as nat);
                lemma_mul_strict_inequality(
                    0x80_0000 + f,
                    0x100_0000,
                    pow2((e - 1) as nat) as int,
                );
                if e < 126 {
                    lemma_pow2_strictly_increases((e + 23) as nat, 149);
                }
            }
        }
        assert(units_of(m) >= 0) by {
            if e > 0 {
                lemma_pow2_pos((e - 1) as nat);
                lemma_mul_nonnegative(0x80_0000 + f, pow2((e - 1) as nat) as int);
            }
        }
        lemma_basic_div(units_of(m), pow2(149) as int);
        lemma_small_mod(units_of(m) as nat, pow2(149));
        if m > 0 {
            lemma_units_increase(0, m);
        }
    } else if e >= 150 {
        let p = pow2(149) as int;
        let k = (0x80_0000 + f) * pow2((e - 150) as nat);
        lemma_pow2_adds((e - 150) as nat, 149);
        assert(units_of(m) == k * p) by (nonlinear_arith)
            requires
                units_of(m) == (0x80_0000 + f) * pow2((e - 1) as nat),
                pow2((e - 1) as nat) == pow2((e - 150) as nat) * p,
                k == (0x80_0000 + f) * pow2((e - 150) as nat),
        ;
        lemma_div_multiples_vanish(k, p);
        lemma_mul_is_commutative(k, p);
        lemma_mod_multiples_basic(k, p);
    } else {
        let p = pow2((e - 1) as nat) as int;
        let q = pow2((150 - e) as nat) as int;
        lemma_pow2_pos((e - 1) as nat);
        lemma_pow2_pos((150 - e) as nat);
        lemma_pow2_adds((150 - e) as nat, (e - 1) as nat);
        assert(pow2(149) == q * p);
        lemma_mul_is_commutative(0x80_0000 + f, p);
        lemma_mul_is_commutative(q, p);
        lemma_truncate_middle_free(0x80_0000 + f, p, q);
        lemma_truncate_middle(0x80_0000 + f, p, q);
        let r = (0x80_0000 + f) % q;
        assert(p * r == 0 <==> r == 0) by (nonlinear_arith)
            requires
                p > 0,
        ;
    }
}

proof fn lemma_truncate_middle_free(x: int, p: int, q: int)
    requires
        x >= 0,
        p > 0,
        q > 0,
    ensures
        (x * p) / (q * p) == x / q,
{
    lemma_mul_strictly_positive(q, p);
    lemma_mul_is_commutative(q, p);
    lemma_mul_is_commutative(x, p);
    lemma_mul_nonnegative(x, p);
    lemma_div_denominator(x * p, p, q);
    lemma_div_multiples_vanish(x, p);
}

proof fn lemma_units_increase(a: int, b: int)
    requires
        0 <= a < b < 0x7f80_0000,
    ensures
        0 <= units_of(a) < units_of(b),
{
    let ea = a / 0x80_0000;
    let fa = a % 0x80_0000;
    let eb = b / 0x80_0000;
    let fb = b % 0x80_0000;
    if eb > 0 {
        let pb = pow2((eb - 1) as nat) as int;
        lemma_pow2_pos((eb - 1) as nat);
        if ea == 0 {
            lemma_mul_inequality(1, pb, 0x80_0000 + fb);
            lemma_mul_is_commutative(pb, 0x80_0000 + fb);
        } else {
            let pa = pow2((ea - 1) as nat) as int;
            lemma_pow2_pos((ea - 1) as nat);
            lemma_mul_nonnegative(0x80_0000 + fa, pa);
            if ea == eb {
                lemma_mul_strict_inequality(0x80_0000 + fa, 0x80_0000 + fb, pa);
            } else {
                lemma_pow2_unfold(ea as nat);
                lemma_mul_strict_inequality(0x80_0000 + fa, 0x100_0000, pa);
                if ea < eb - 1 {
                    lemma_pow2_strictly_increases(ea as nat, (eb - 1) as nat);
                }
                lemma_mul_inequality(0x80_0000, 0x80_0000 + fb, pb);
            }
        }
    }
}

/// Comparing finite numbers by their bits is comparing their values.
pub proof fn law_order_is_value_order(a: Scalar, b: Scalar)
    requires
        a.finite(),
        b.finite(),
    ensures
        a.below(b) <==> a.units() < b.units(),
        a.at_most(b) <==> a.units() <= b.units(),
        a.key() == b.key() <==> a.units() == b.units(),
{
    let ma = a.magnitude();
    let mb = b.magnitude();
    if ma < mb {
        lemma_units_increase(ma, mb);
    }
    if mb < ma {
        lemma_units_increase(mb, ma);
    }
    if 0 < ma {
        lemma_units_increase(0, ma);
    }
    if 0 < mb {
        lemma_units_increase(0, mb);
    }
}

/// Single-precision arithmetic, as the machine at hand performs it.
///
/// Nothing is promised about the results: what the library does with them is stated for every
/// value that an operation may return.
pub trait Arithmetic {
    /// `a - b`.
    fn sub(&self, a: Scalar, b: Scalar) -> Scalar;

    /// `a + b`.
    fn add(&self, a: Scalar, b: Scalar) -> Scalar;

    /// `a * b`.
    fn mul(&self, a: Scalar, b: Scalar) -> Scalar;

    /// `a / b`.
    fn div(&self, a: Scalar, b: Scalar) -> Scalar;

    /// The square root of `a`.
    fn sqrt(&self, a: Scalar) -> Scalar;

    /// The number nearest to `n`.
    fn of_count(&self, n: usize) -> Scalar;
}

/// `a - b` may come out as `r`.
pub open spec fn difference<A: Arithmetic>(x: &A, a: Scalar, b: Scalar, r: Scalar) -> bool {
    call_ensures(A::sub, (x, a, b), r)
}

/// `a + b` may come out as `r`.
pub open spec fn total<A: Arithmetic>(x: &A, a: Scalar, b: Scalar, r: Scalar) -> bool {
    call_ensures(A::add, (x, a, b), r)
}

/// `a * b` may come out as `r`.
pub open spec fn product<A: Arithmetic>(x: &A, a: Scalar, b: Scalar, r: Scalar) -> bool {
    call_ensures(A::mul, (x, a, b), r)
}

/// The square root of `a` may come out as `r`.
pub open spec fn root<A: Arithmetic>(x: &A, a: Scalar, r: Scalar) -> bool {
    call_ensures(A::sqrt, (x, a), r)
}

/// `n` may come out as `r`.
pub open spec fn counted<A: Arithmetic>(x: &A, n: usize, r: Scalar) -> bool {
    call_ensures(A::of_count, (x, n), r)
}

/// `a / b` may come out as `r`.
pub open spec fn quotient<A: Arithmetic>(x: &A, a: Scalar, b: Scalar, r: Scalar) -> bool {
    call_ensures(A::div, (x, a, b), r)
}

} // verus!
