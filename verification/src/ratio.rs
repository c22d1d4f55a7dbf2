//! Exact rational numbers.
//!
//! Interpolated values are fractions of integers. They are kept exact, as a
//! numerator over a positive denominator, so that sample values, comparisons
//! and truncation to a pixel coordinate have one mathematical meaning.
use vstd::prelude::*;

verus! {

/// Largest denominator of a fraction that may be handed to the interpolator.
pub const MAX_DEN: i128 = 0x1_0000_0000;

/// Largest magnitude of a numerator that may be handed to the interpolator.
pub const MAX_NUM: i128 = 0x100_0000_0000;

/// Largest magnitude of a numerator of a fraction that can be compared.
pub const MAX_WIDE_NUM: i128 = 0x1_0000_0000_0000_0000;

/// Largest denominator of a fraction that can scale a colour channel.
pub const MAX_SCALE_DEN: i128 = 0x1_0000_0000_0000_0000_0000_0000;

/// Largest magnitude of a numerator of a fraction that can scale a colour
/// channel.
pub const MAX_SCALE_NUM: i128 = 0x400_0000_0000_0000_0000_0000_0000;

/// A mathematical fraction `num / den`. It is meaningful when `den > 0`.
pub struct Frac {
    pub num: int,
    pub den: int,
}

impl Frac {
    /// The fraction `x / 1`.
    pub open spec fn whole(x: int) -> Frac {
        Frac { num: x, den: 1 }
    }

    /// Small enough to be an endpoint of an interpolation.
    pub open spec fn bounded(self) -> bool {
        &&& 0 < self.den <= MAX_DEN
        &&& -MAX_NUM <= self.num <= MAX_NUM
    }

    /// Small enough to be compared with another such fraction.
    pub open spec fn comparable(self) -> bool {
        &&& 0 < self.den <= MAX_DEN
        &&& -MAX_WIDE_NUM <= self.num <= MAX_WIDE_NUM
    }

    /// `self < other` as rational numbers (both denominators positive).
    pub open spec fn less_than(self, other: Frac) -> bool {
        self.num * other.den < other.num * self.den
    }

    /// `self == other` as rational numbers (both denominators positive).
    pub open spec fn same_value(self, other: Frac) -> bool {
        self.num * other.den == other.num * self.den
    }

    /// The difference `self - other`.
    pub open spec fn minus(self, other: Frac) -> Frac {
        Frac { num: self.num * other.den - other.num * self.den, den: self.den * other.den }
    }

    /// The quotient `self / n` for a positive integer `n`.
    pub open spec fn over(self, n: int) -> Frac {
        Frac { num: self.num, den: self.den * n }
    }

    /// The fraction rounded toward zero and saturated to the range of `u32`.
    pub open spec fn truncated(self) -> int {
        if self.num <= 0 {
            0
        } else if self.num / self.den > u32::MAX {
            u32::MAX as int
        } else {
            self.num / self.den
        }
    }

    /// Small enough to scale a colour channel by.
    pub open spec fn scalable(self) -> bool {
        &&& 0 < self.den <= MAX_SCALE_DEN
        &&& -MAX_SCALE_NUM <= self.num <= MAX_SCALE_NUM
    }

    /// The colour channel `channel` at the intensity `self / full`: their
    /// product rounded toward zero and saturated to the range of `u8`.
    pub open spec fn shade(self, channel: u8, full: u8) -> u8 {
        if channel * self.num <= 0 {
            0u8
        } else if (channel * self.num) / (self.den * full) > u8::MAX {
            u8::MAX
        } else {
            ((channel * self.num) / (self.den * full)) as u8
        }
    }
}

/// An exact rational number `num / den` held in machine integers.
#[derive(Clone, Copy, Debug)]
pub struct Ratio {
    pub num: i128,
    pub den: i128,
}

impl View for Ratio {
    type V = Frac;

    open spec fn view(&self) -> Frac {
        Frac { num: self.num as int, den: self.den as int }
    }
}

impl Ratio {
    /// The integer `x` as a fraction.
    pub fn from_int(x: u32) -> (r: Ratio)
        ensures
            r@ == Frac::whole(x as int),
            r@.bounded(),
    {
        Ratio { num: x as i128, den: 1 }
    }

    /// Rounds toward zero and saturates to the range of `u32`.
    pub fn to_u32(&self) -> (r: u32)
        requires
            self.den > 0,
        ensures
            r == self@.truncated(),
    {
        if self.num <= 0 {
            0
        } else {
            let q: i128 = self.num / self.den;
            if q > u32::MAX as i128 {
                u32::MAX
            } else {
                q as u32
            }
        }
    }

    /// Scales a colour channel by the intensity `self / full`, rounding
    /// toward zero and saturating to the range of `u8`.
    pub fn shade(&self, channel: u8, full: u8) -> (r: u8)
        requires
            self@.scalable(),
            full > 0,
        ensures
            r == self@.shade(channel, full),
    {
        proof {
            lemma_product_bound(channel as int, self.num as int, 255, MAX_SCALE_NUM as int);
            lemma_product_bound(self.den as int, full as int, MAX_SCALE_DEN as int, 255);
            assert(self.den * full > 0) by (nonlinear_arith)
                requires
                    self.den > 0,
                    full > 0,
            ;
        }
        let product: i128 = channel as i128 * self.num;
        if product <= 0 {
            0
        } else {
            let q: i128 = product / (self.den * full as i128);
            if q > u8::MAX as i128 {
                u8::MAX
            } else {
                q as u8
            }
        }
    }

    /// Whether `self` is strictly smaller than `other` as a rational number.
    pub fn lt(&self, other: &Ratio) -> (r: bool)
        requires
            self@.comparable(),
            other@.comparable(),
        ensures
            r == self@.less_than(other@),
    {
        proof {
            lemma_product_bound(self.num as int, other.den as int, MAX_WIDE_NUM as int, MAX_DEN as int);
            lemma_product_bound(other.num as int, self.den as int, MAX_WIDE_NUM as int, MAX_DEN as int);
        }
        self.num * other.den < other.num * self.den
    }
}

/// A product is bounded by the product of the bounds of its factors.
pub proof fn lemma_product_bound(a: int, b: int, bound_a: int, bound_b: int)
    by (nonlinear_arith)
    requires
        -bound_a <= a <= bound_a,
        -bound_b <= b <= bound_b,
    ensures
        -(bound_a * bound_b) <= a * b <= bound_a * bound_b,
{
}

} // verus!
