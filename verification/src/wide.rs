//! Double-precision numbers, carried as their IEEE 754 bit patterns.
//!
//! Comparisons and signs are settled here on the bits. Arithmetic is handed in by the caller as
//! a [`WideArithmetic`].
use crate::scalar::Scalar;
use vstd::prelude::*;

verus! {

/// A double-precision number, given by its 64 bits: sign, eleven exponent bits, 52 fraction
/// bits.
#[derive(Clone, Copy, Debug, PartialEq, Eq, Hash, Structural)]
pub struct Wide {
    pub bits: u64,
}

/// Positive zero.
#[verifier::allow_in_spec]
pub fn wide_zero() -> Wide
    returns
        (Wide { bits: 0 }),
{
    Wide { bits: 0 }
}

/// One.
#[verifier::allow_in_spec]
pub fn wide_one() -> Wide
    returns
        (Wide { bits: 0x3ff0_0000_0000_0000 }),
{
    Wide { bits: 0x3ff0_0000_0000_0000 }
}

/// Ten.
#[verifier::allow_in_spec]
pub fn wide_ten() -> Wide
    returns
        (Wide { bits: 0x4024_0000_0000_0000 }),
{
    Wide { bits: 0x4024_0000_0000_0000 }
}

/// Twelve.
#[verifier::allow_in_spec]
pub fn wide_twelve() -> Wide
    returns
        (Wide { bits: 0x4028_0000_0000_0000 }),
{
    Wide { bits: 0x4028_0000_0000_0000 }
}

/// The largest bin, 255.
#[verifier::allow_in_spec]
pub fn wide_top_bin() -> Wide
    returns
        (Wide { bits: 0x406f_e000_0000_0000 }),
{
    Wide { bits: 0x406f_e000_0000_0000 }
}

/// The number nearest to one millionth of a millionth.
#[verifier::allow_in_spec]
pub fn wide_tiny() -> Wide
    returns
        (Wide { bits: 0x3d71_9799_812d_ea11 }),
{
    Wide { bits: 0x3d71_9799_812d_ea11 }
}

/// Positive infinity.
#[verifier::allow_in_spec]
pub fn wide_infinity() -> Wide
    returns
        (Wide { bits: 0x7ff0_0000_0000_0000 }),
{
    Wide { bits: 0x7ff0_0000_0000_0000 }
}

impl Wide {
    /// The bits without the sign.
    pub open spec fn magnitude(self) -> int {
        self.bits as int % 0x8000_0000_0000_0000
    }

    pub open spec fn negative(self) -> bool {
        self.bits >= 0x8000_0000_0000_0000
    }

    pub open spec fn nan(self) -> bool {
        self.magnitude() > 0x7ff0_0000_0000_0000
    }

    /// Position in the order of numbers; both zeros share position zero.
    pub open spec fn key(self) -> int {
        if self.negative() {
            -self.magnitude()
        } else {
            self.magnitude()
        }
    }

    /// `self < other`; never true of not-a-number.
    pub open spec fn below(self, other: Wide) -> bool {
        !self.nan() && !other.nan() && self.key() < other.key()
    }

    pub open spec fn abs_spec(self) -> Wide {
        Wide { bits: self.magnitude() as u64 }
    }

    pub fn is_nan(self) -> (r: bool)
        ensures
            r == self.nan(),
    {
        self.bits % 0x8000_0000_0000_0000 > 0x7ff0_0000_0000_0000
    }

    /// Whether `self < other`.
    pub fn lt(self, other: Wide) -> (r: bool)
        ensures
            r == self.below(other),
    {
        if self.is_nan() || other.is_nan() {
            return false;
        }
        let a: u64 = self.bits % 0x8000_0000_0000_0000;
        let b: u64 = other.bits % 0x8000_0000_0000_0000;
        if self.bits >= 0x8000_0000_0000_0000 {
            if other.bits >= 0x8000_0000_0000_0000 {
                b < a
            } else {
                a > 0 || b > 0
            }
        } else if other.bits >= 0x8000_0000_0000_0000 {
            false
        } else {
            a < b
        }
    }

    /// The number without its sign.
    pub fn abs(self) -> (r: Wide)
        ensures
            r == self.abs_spec(),
    {
        Wide { bits: self.bits % 0x8000_0000_0000_0000 }
    }
}

/// Double-precision arithmetic, as the machine at hand performs it. Nothing is promised about
/// the results.
pub trait WideArithmetic {
    /// `a` in double precision.
    fn widen(&self, a: Scalar) -> Wide;

    /// `a` in single precision.
    fn narrow(&self, a: Wide) -> Scalar;

    /// The number nearest to `n`.
    fn wide_count(&self, n: u64) -> Wide;

    /// `a + b`.
    fn plus(&self, a: Wide, b: Wide) -> Wide;

    /// `a - b`.
    fn minus(&self, a: Wide, b: Wide) -> Wide;

    /// `a * b`.
    fn times(&self, a: Wide, b: Wide) -> Wide;

    /// `a / b`.
    fn over(&self, a: Wide, b: Wide) -> Wide;

    /// The decimal logarithm of `a`.
    fn log10(&self, a: Wide) -> Wide;
}

/// `a` may come out as `r` in double precision.
pub open spec fn widened<W: WideArithmetic>(w: &W, a: Scalar, r: Wide) -> bool {
    call_ensures(W::widen, (w, a), r)
}

/// `a` may come out as `r` in single precision.
pub open spec fn narrowed<W: WideArithmetic>(w: &W, a: Wide, r: Scalar) -> bool {
    call_ensures(W::narrow, (w, a), r)
}

/// `n` may come out as `r`.
pub open spec fn wide_counted<W: WideArithmetic>(w: &W, n: u64, r: Wide) -> bool {
    call_ensures(W::wide_count, (w, n), r)
}

/// `a + b` may come out as `r`.
pub open spec fn wide_sum<W: WideArithmetic>(w: &W, a: Wide, b: Wide, r: Wide) -> bool {
    call_ensures(W::plus, (w, a, b), r)
}

/// `a - b` may come out as `r`.
pub open spec fn wide_difference<W: WideArithmetic>(w: &W, a: Wide, b: Wide, r: Wide) -> bool {
    call_ensures(W::minus, (w, a, b), r)
}

/// `a * b` may come out as `r`.
pub open spec fn wide_product<W: WideArithmetic>(w: &W, a: Wide, b: Wide, r: Wide) -> bool {
    call_ensures(W::times, (w, a, b), r)
}

/// `a / b` may come out as `r`.
pub open spec fn wide_quotient<W: WideArithmetic>(w: &W, a: Wide, b: Wide, r: Wide) -> bool {
    call_ensures(W::over, (w, a, b), r)
}

/// The decimal logarithm of `a` may come out as `r`.
pub open spec fn logarithm<W: WideArithmetic>(w: &W, a: Wide, r: Wide) -> bool {
    call_ensures(W::log10, (w, a), r)
}

/// `n / d` may come out as `r`.
pub open spec fn share<W: WideArithmetic>(w: &W, n: u64, d: u64, r: Wide) -> bool {
    exists|a: Wide, b: Wide| #[trigger]
        wide_counted(w, n, a) && #[trigger] wide_counted(w, d, b) && wide_quotient(w, a, b, r)
}

/// `n / d`.
pub fn share_of<W: WideArithmetic>(n: u64, d: u64, w: &W) -> (r: Wide)
    ensures
        share(w, n, d, r),
{
    let a = w.wide_count(n);
    let b = w.wide_count(d);
    let r = w.over(a, b);
    assert(wide_counted(w, n, a) && wide_counted(w, d, b) && wide_quotient(w, a, b, r));
    r
}

} // verus!
