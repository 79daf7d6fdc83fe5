//! Scores as bit patterns.
//!
//! A similarity or document score is an IEEE 754 single-precision number. The index
//! never calculates with scores: it ranks them, keeps the best and hands them on. So it
//! holds them by their bits, whose order is an order on integers.
#[allow(unused_imports)]
use vstd::arithmetic::power2::pow2;
use vstd::prelude::*;

verus! {

/// The first bit pattern with the sign bit set.
pub const SIGN_BIT: u32 = 0x8000_0000;

/// The bits of positive infinity; a larger magnitude is a NaN.
pub const INFINITY_BITS: u32 = 0x7f80_0000;

/// The bits of negative infinity.
pub const NEG_INFINITY_BITS: u32 = 0xff80_0000;

/// A single-precision score, by its IEEE 754 bits. `==` compares the bits.
#[derive(Clone, Copy, Debug, PartialEq, Eq, Structural)]
pub struct Score {
    pub bits: u32,
}

impl Score {
    /// The exponent and fraction bits: the score without its sign.
    pub open spec fn magnitude(self) -> int {
        if self.bits >= SIGN_BIT {
            self.bits - SIGN_BIT
        } else {
            self.bits as int
        }
    }

    /// The score is not a number.
    pub open spec fn nan(self) -> bool {
        self.magnitude() > INFINITY_BITS
    }

    /// The integer that orders scores as their numeric values are ordered: the magnitude,
    /// negated below zero. Both zeros are 0.
    pub open spec fn rank(self) -> int {
        if self.bits >= SIGN_BIT {
            -self.magnitude()
        } else {
            self.magnitude()
        }
    }

    /// `self > other` as numbers; false where either is a NaN.
    pub open spec fn above(self, other: Score) -> bool {
        !self.nan() && !other.nan() && self.rank() > other.rank()
    }

    /// `self >= other` as numbers; false where either is a NaN.
    pub open spec fn at_least(self, other: Score) -> bool {
        !self.nan() && !other.nan() && self.rank() >= other.rank()
    }

    /// The larger of two scores; a NaN loses against a number, and `self` stays on a tie.
    pub open spec fn larger(self, other: Score) -> Score {
        if self.nan() || other.above(self) {
            other
        } else {
            self
        }
    }

    /// The smaller of two scores; a NaN loses against a number, and `self` stays on a tie.
    pub open spec fn smaller(self, other: Score) -> Score {
        if self.nan() || self.above(other) {
            other
        } else {
            self
        }
    }

    /// A key that is smaller the better the score.
    pub open spec fn descending_key(self) -> int {
        SIGN_BIT - 1 - self.rank()
    }

    /// A score from its bits.
    pub fn from_bits(bits: u32) -> (s: Score)
        ensures
            s.bits == bits,
    {
        Score { bits }
    }

    /// The bits of the score.
    pub fn to_bits(self) -> (bits: u32)
        ensures
            bits == self.bits,
    {
        self.bits
    }

    /// Positive infinity, the start of a minimum.
    pub fn infinity() -> (s: Score)
        ensures
            s.bits == INFINITY_BITS,
    {
        Score { bits: INFINITY_BITS }
    }

    /// Negative infinity, the score of an absent result.
    pub fn neg_infinity() -> (s: Score)
        ensures
            s.bits == NEG_INFINITY_BITS,
    {
        Score { bits: NEG_INFINITY_BITS }
    }

    /// Whether the score is not a number.
    pub fn is_nan(self) -> (r: bool)
        ensures
            r == self.nan(),
    {
        if self.bits >= SIGN_BIT {
            self.bits - SIGN_BIT > INFINITY_BITS
        } else {
            self.bits > INFINITY_BITS
        }
    }

    fn signed_rank(self) -> (r: i64)
        ensures
            r == self.rank(),
            -(SIGN_BIT as int) < r < SIGN_BIT,
    {
        if self.bits >= SIGN_BIT {
            SIGN_BIT as i64 - self.bits as i64
        } else {
            self.bits as i64
        }
    }

    /// Whether `self > other`.
    pub fn is_above(self, other: Score) -> (r: bool)
        ensures
            r == self.above(other),
    {
        !self.is_nan() && !other.is_nan() && self.signed_rank() > other.signed_rank()
    }

    /// Whether `self >= other`.
    pub fn is_at_least(self, other: Score) -> (r: bool)
        ensures
            r == self.at_least(other),
    {
        !self.is_nan() && !other.is_nan() && self.signed_rank() >= other.signed_rank()
    }

    /// The larger of two scores, as `larger` says.
    pub fn max(self, other: Score) -> (r: Score)
        ensures
            r == self.larger(other),
    {
        if self.is_nan() || other.is_above(self) {
            other
        } else {
            self
        }
    }

    /// The smaller of two scores, as `smaller` says.
    pub fn min(self, other: Score) -> (r: Score)
        ensures
            r == self.smaller(other),
    {
        if self.is_nan() || self.is_above(other) {
            other
        } else {
            self
        }
    }

    /// The key by which better scores sort first.
    pub fn to_descending_key(self) -> (key: u32)
        ensures
            key == self.descending_key(),
    {
        (SIGN_BIT as i64 - 1 - self.signed_rank()) as u32
    }
}

/// A score is not a number exactly if its exponent bits are all set and some fraction bit is.
pub proof fn nan_has_a_fraction(s: Score)
    ensures
        s.nan() <==> (s.bits as int / 0x80_0000) % 256 == 255 && s.bits as int % 0x80_0000 != 0,
{
    let b = s.bits;
    assert((b as int / 0x80_0000) % 256 == 255 && b as int % 0x80_0000 != 0 <==> (if b
        >= 0x8000_0000 {
        b - 0x8000_0000
    } else {
        b as int
    }) > 0x7f80_0000);
}

/// The order of scores is that of the numbers that their bits write: a fraction of 23 bits, to
/// which exponents above 0 add a leading one, doubled once for each exponent above 1, and negative
/// under the sign bit.
pub proof fn scores_order_as_numbers(a: Score, b: Score)
    requires
        !a.nan(),
        !b.nan(),
    ensures
        ({
            let number = |s: Score|
                {
                    let exponent = (s.bits as int / 0x80_0000) % 256;
                    let fraction = s.bits as int % 0x80_0000;
                    let size = if exponent == 0 {
                        fraction
                    } else {
                        (0x80_0000 + fraction) * pow2((exponent - 1) as nat)
                    };
                    if s.bits as int / 0x8000_0000 == 1 {
                        -size
                    } else {
                        size
                    }
                };
            &&& a.above(b) <==> number(a) > number(b)
            &&& a.at_least(b) <==> number(a) >= number(b)
        }),
{
    let (x, y) = (a.magnitude(), b.magnitude());
    lemma_size_of_magnitude(a);
    lemma_size_of_magnitude(b);
    lemma_size_grows(x, y);
    lemma_size_grows(y, x);
    lemma_size_sign(x);
    lemma_size_sign(y);
}

/// The size of the number that the bits without sign write.
spec fn size_of(magnitude: int) -> int {
    let exponent = magnitude / 0x80_0000;
    let fraction = magnitude % 0x80_0000;
    if exponent == 0 {
        fraction
    } else {
        (0x80_0000 + fraction) * pow2((exponent - 1) as nat)
    }
}

proof fn lemma_size_of_magnitude(s: Score)
    ensures
        0 <= s.magnitude() < 0x8000_0000,
        s.magnitude() / 0x80_0000 == (s.bits as int / 0x80_0000) % 256,
        s.magnitude() % 0x80_0000 == s.bits as int % 0x80_0000,
        s.bits as int / 0x8000_0000 == 1 <==> s.bits >= SIGN_BIT,
{
}

proof fn lemma_size_sign(x: int)
    requires
        0 <= x,
    ensures
        size_of(x) >= 0,
        size_of(x) == 0 <==> x == 0,
{
    let (e, f) = (x / 0x80_0000, x % 0x80_0000);
    if e > 0 {
        vstd::arithmetic::power2::lemma_pow2_pos((e - 1) as nat);
        let p = pow2((e - 1) as nat) as int;
        assert((0x80_0000 + f) * p > 0) by (nonlinear_arith)
            requires
                f >= 0,
                p > 0,
        ;
    }
}

proof fn lemma_size_grows(x: int, y: int)
    requires
        0 <= x,
        0 <= y,
    ensures
        x < y ==> size_of(x) < size_of(y),
{
    if x < y {
        let (e, f) = (x / 0x80_0000, x % 0x80_0000);
        let (g, h) = (y / 0x80_0000, y % 0x80_0000);
        assert(e <= g);
        if e > 0 {
            vstd::arithmetic::power2::lemma_pow2_pos((e - 1) as nat);
        }
        if g > 0 {
            vstd::arithmetic::power2::lemma_pow2_pos((g - 1) as nat);
        }
        if e == g {
            if e > 0 {
                let p = pow2((e - 1) as nat) as int;
                assert((0x80_0000 + f) * p < (0x80_0000 + h) * p) by (nonlinear_arith)
                    requires
                        f < h,
                        p > 0,
                ;
            }
        } else if e == 0 {
            let q = pow2((g - 1) as nat) as int;
            assert((0x80_0000 + h) * q >= 0x80_0000) by (nonlinear_arith)
                requires
                    h >= 0,
                    q >= 1,
            ;
        } else {
            let p = pow2((e - 1) as nat) as int;
            let q = pow2((g - 1) as nat) as int;
            vstd::arithmetic::power2::lemma_pow2_unfold(e as nat);
            if e < g - 1 {
                vstd::arithmetic::power2::lemma_pow2_strictly_increases(e as nat, (g - 1) as nat);
            }
            assert((0x80_0000 + f) * p < (0x80_0000 + h) * q) by (nonlinear_arith)
                requires
                    0 <= f < 0x80_0000,
                    h >= 0,
                    p > 0,
                    q >= 2 * p,
            ;
        }
    }
}

/// The larger of two scores is one of them, and neither is above it; the smaller is one of them,
/// and above neither. Only where both are NaN is one given, and where they are equal the first is.
pub proof fn larger_and_smaller_bound_both(a: Score, b: Score)
    ensures
        a.larger(b) == a || a.larger(b) == b,
        a.smaller(b) == a || a.smaller(b) == b,
        !a.above(a.larger(b)) && !b.above(a.larger(b)),
        !a.smaller(b).above(a) && !a.smaller(b).above(b),
        a.larger(b).nan() <==> a.nan() && b.nan(),
        a.smaller(b).nan() <==> a.nan() && b.nan(),
        !a.nan() && !a.above(b) && !b.above(a) ==> a.larger(b) == a && a.smaller(b) == a,
{
}

/// Of two scores the better one has the smaller key, and equal scores have the same; keys fit in 32
/// bits.
pub proof fn better_scores_have_smaller_keys(a: Score, b: Score)
    requires
        !a.nan(),
        !b.nan(),
    ensures
        a.descending_key() < b.descending_key() <==> a.above(b),
        a.descending_key() == b.descending_key() <==> !a.above(b) && !b.above(a),
        0 <= a.descending_key() < 0x1_0000_0000,
{
}

/// With something that is not a number no score compares.
pub proof fn nothing_compares_with_nan(a: Score, b: Score)
    requires
        a.nan() || b.nan(),
    ensures
        !a.above(b) && !b.above(a),
        !a.at_least(b) && !b.at_least(a),
{
}

} // verus!
