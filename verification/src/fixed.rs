//! Signed decimal fixed-point numbers with eight fractional digits and
//! saturating arithmetic.
//!
//! A [`Fixed`] holds a raw `i64`; the number it stands for is the raw value
//! divided by [`SCALE`]. Sums, differences, products and quotients that leave
//! the representable range stop at its nearest end, so the two ends behave as
//! the infinities of the scale: nothing here overflows or aborts.

use vstd::prelude::*;

verus! {

/// Raw units per whole: a raw value `r` stands for `r / SCALE`.
pub const SCALE: i64 = 100_000_000;

/// The nearest representable raw value to `x`.
pub open spec fn clamp(x: int) -> int {
    if x < i64::MIN {
        i64::MIN as int
    } else if x > i64::MAX {
        i64::MAX as int
    } else {
        x
    }
}

/// The magnitude of `x`.
pub open spec fn magnitude(x: int) -> int {
    if x < 0 {
        -x
    } else {
        x
    }
}

/// `a / b` rounded toward zero; 0 where `b` is 0.
pub open spec fn quotient(a: int, b: int) -> int {
    if b == 0 {
        0
    } else if (a >= 0) == (b > 0) {
        magnitude(a) / magnitude(b)
    } else {
        -(magnitude(a) / magnitude(b))
    }
}

/// Raw value of the saturating sum.
pub open spec fn sum_raw(a: int, b: int) -> int {
    clamp(a + b)
}

/// Raw value of the saturating difference.
pub open spec fn difference_raw(a: int, b: int) -> int {
    clamp(a - b)
}

/// Raw value of the saturating product, rounded toward zero.
pub open spec fn product_raw(a: int, b: int) -> int {
    clamp(quotient(a * b, SCALE as int))
}

/// Raw value of the saturating quotient, rounded toward zero. A zero divisor
/// gives the end of the range on the dividend's side, and 0 for 0 / 0.
pub open spec fn ratio_raw(a: int, b: int) -> int {
    if b == 0 {
        if a > 0 {
            i64::MAX as int
        } else if a < 0 {
            i64::MIN as int
        } else {
            0
        }
    } else {
        clamp(quotient(a * SCALE, b))
    }
}

/// A fixed-point number.
#[derive(Clone, Copy, Debug, PartialEq, Eq, Structural)]
pub struct Fixed {
    pub raw: i64,
}

impl View for Fixed {
    type V = int;

    open spec fn view(&self) -> int {
        self.raw as int
    }
}

fn magnitude_of(x: i64) -> (m: u128)
    ensures
        m == magnitude(x as int),
{
    if x < 0 {
        let wide: i128 = -(x as i128);
        wide as u128
    } else {
        x as u128
    }
}

fn with_sign(negative: bool, m: u128) -> (r: Fixed)
    ensures
        r@ == clamp(
            if negative {
                -(m as int)
            } else {
                m as int
            },
        ),
{
    if negative {
        if m >= 0x8000_0000_0000_0000u128 {
            Fixed { raw: i64::MIN }
        } else {
            let narrow: i64 = m as i64;
            Fixed { raw: -narrow }
        }
    } else {
        if m > 0x7fff_ffff_ffff_ffffu128 {
            Fixed { raw: i64::MAX }
        } else {
            Fixed { raw: m as i64 }
        }
    }
}

impl Fixed {
    /// Zero.
    pub fn zero() -> (r: Fixed)
        ensures
            r@ == 0,
    {
        Fixed { raw: 0 }
    }

    /// One.
    pub fn one() -> (r: Fixed)
        ensures
            r@ == SCALE,
    {
        Fixed { raw: SCALE }
    }

    /// One half.
    pub fn half() -> (r: Fixed)
        ensures
            r@ == SCALE / 2,
    {
        Fixed { raw: SCALE / 2 }
    }

    /// The smallest positive number of the scale.
    pub fn epsilon() -> (r: Fixed)
        ensures
            r@ == 1,
    {
        Fixed { raw: 1 }
    }

    /// The largest number of the scale.
    pub fn max_value() -> (r: Fixed)
        ensures
            r@ == i64::MAX,
    {
        Fixed { raw: i64::MAX }
    }

    /// The smallest number of the scale.
    pub fn min_value() -> (r: Fixed)
        ensures
            r@ == i64::MIN,
    {
        Fixed { raw: i64::MIN }
    }

    /// The number with the given raw value.
    pub fn from_raw(raw: i64) -> (r: Fixed)
        ensures
            r@ == raw,
    {
        Fixed { raw }
    }

    /// The whole number `n`, saturated.
    pub fn from_int(n: i64) -> (r: Fixed)
        ensures
            r@ == clamp(n * SCALE),
    {
        let wide: i128 = (n as i128) * (SCALE as i128);
        if wide > i64::MAX as i128 {
            Fixed { raw: i64::MAX }
        } else if wide < i64::MIN as i128 {
            Fixed { raw: i64::MIN }
        } else {
            Fixed { raw: wide as i64 }
        }
    }

    /// The raw value.
    pub fn raw(&self) -> (r: i64)
        ensures
            r == self@,
    {
        self.raw
    }

    /// `self + other`, saturated.
    pub fn plus(self, other: Fixed) -> (r: Fixed)
        ensures
            r@ == sum_raw(self@, other@),
    {
        let wide: i128 = (self.raw as i128) + (other.raw as i128);
        if wide > i64::MAX as i128 {
            Fixed { raw: i64::MAX }
        } else if wide < i64::MIN as i128 {
            Fixed { raw: i64::MIN }
        } else {
            Fixed { raw: wide as i64 }
        }
    }

    /// `self - other`, saturated.
    pub fn minus(self, other: Fixed) -> (r: Fixed)
        ensures
            r@ == difference_raw(self@, other@),
    {
        let wide: i128 = (self.raw as i128) - (other.raw as i128);
        if wide > i64::MAX as i128 {
            Fixed { raw: i64::MAX }
        } else if wide < i64::MIN as i128 {
            Fixed { raw: i64::MIN }
        } else {
            Fixed { raw: wide as i64 }
        }
    }

    /// `self * other`, rounded toward zero and saturated.
    pub fn times(self, other: Fixed) -> (r: Fixed)
        ensures
            r@ == product_raw(self@, other@),
    {
        let a: u128 = magnitude_of(self.raw);
        let b: u128 = magnitude_of(other.raw);
        assert(a * b <= 0x8000_0000_0000_0000 * 0x8000_0000_0000_0000) by (nonlinear_arith)
            requires
                a <= 0x8000_0000_0000_0000,
                b <= 0x8000_0000_0000_0000,
        ;
        let wide: u128 = a * b;
        let q: u128 = wide / (SCALE as u128);
        let negative: bool = (self.raw < 0) != (other.raw < 0);
        proof {
            let x = self@;
            let y = other@;
            assert(magnitude(x * y) == magnitude(x) * magnitude(y)) by (nonlinear_arith);
            assert((x * y >= 0) == !negative || x * y == 0) by (nonlinear_arith)
                requires
                    negative == ((x < 0) != (y < 0)),
            ;
        }
        with_sign(negative, q)
    }

    /// `self / other`, rounded toward zero and saturated; a zero divisor gives
    /// the end of the range on the dividend's side, and 0 / 0 is 0.
    pub fn divided_by(self, other: Fixed) -> (r: Fixed)
        ensures
            r@ == ratio_raw(self@, other@),
    {
        if other.raw == 0 {
            if self.raw > 0 {
                Fixed { raw: i64::MAX }
            } else if self.raw < 0 {
                Fixed { raw: i64::MIN }
            } else {
                Fixed { raw: 0 }
            }
        } else {
            let a: u128 = magnitude_of(self.raw);
            let b: u128 = magnitude_of(other.raw);
            assert(a * SCALE <= 0x8000_0000_0000_0000 * 100_000_000) by (nonlinear_arith)
                requires
                    a <= 0x8000_0000_0000_0000,
                    SCALE == 100_000_000,
            ;
            let wide: u128 = a * (SCALE as u128);
            let q: u128 = wide / b;
            let negative: bool = (self.raw < 0) != (other.raw < 0);
            proof {
                let x = self@;
                assert(magnitude(x * SCALE) == magnitude(x) * SCALE) by (nonlinear_arith);
                assert((x * SCALE >= 0) == (x >= 0)) by (nonlinear_arith);
                assert(x == 0 ==> x * SCALE == 0);
            }
            with_sign(negative, q)
        }
    }

    /// `self < other`.
    pub fn lt(self, other: Fixed) -> (r: bool)
        ensures
            r == (self@ < other@),
    {
        self.raw < other.raw
    }

    /// `self <= other`.
    pub fn le(self, other: Fixed) -> (r: bool)
        ensures
            r == (self@ <= other@),
    {
        self.raw <= other.raw
    }

    /// The whole part, rounded toward zero.
    pub fn trunc(self) -> (r: i64)
        ensures
            r == quotient(self@, SCALE as int),
    {
        let m: u128 = magnitude_of(self.raw);
        let q: u128 = m / (SCALE as u128);
        assert(q <= m / 100_000_000 <= 0x7fff_ffff_ffff_ffff);
        let narrow: i64 = q as i64;
        if self.raw < 0 {
            -narrow
        } else {
            narrow
        }
    }
}

} // verus!
