//! Single-precision numbers, held by their bit patterns.
//!
//! Everything about such a number that involves no rounding is decided here: what is a number,
//! what is finite, how two of them compare, which of them is larger, what integer a number
//! truncates to. What each pattern stands for is stated once, by [`Scalar::units`].
use vstd::arithmetic::div_mod::*;
use vstd::arithmetic::mul::*;
use vstd::arithmetic::power2::*;
use vstd::bits::*;
use vstd::prelude::*;

verus! {

/// A number in the IEEE 754 single-precision format. Equality of two of them is equality of
/// their bit patterns.
#[derive(Debug, Clone, Copy, PartialEq, Eq, Structural)]
pub struct Scalar {
    pub bits: u32,
}

/// What the 31 bits below the sign stand for, counted in units of 2^-149, the smallest
/// positive number of the format. Infinity counts as 2^128, above every finite number.
pub open spec fn magnitude_units(m: int) -> int {
    let exponent = m / 0x80_0000;
    let fraction = m % 0x80_0000;
    if exponent == 0 {
        fraction
    } else {
        (fraction + 0x80_0000) * pow2((exponent - 1) as nat)
    }
}

proof fn lemma_units_step(m: int)
    requires
        0 <= m,
    ensures
        0 <= magnitude_units(m) < magnitude_units(m + 1),
{
    let e = m / 0x80_0000;
    let e1 = (m + 1) / 0x80_0000;
    let fr = m % 0x80_0000;
    let fr1 = (m + 1) % 0x80_0000;
    lemma_pow2_pos((e - 1) as nat);
    lemma_pow2_pos((e1 - 1) as nat);
    if e1 == e {
        assert(fr1 == fr + 1);
        if e > 0 {
            assert((fr + 0x80_0000) * pow2((e - 1) as nat) < (fr1 + 0x80_0000) * pow2(
                (e - 1) as nat,
            )) by (nonlinear_arith)
                requires
                    fr1 == fr + 1,
                    pow2((e - 1) as nat) > 0,
            ;
            assert(0 <= (fr + 0x80_0000) * pow2((e - 1) as nat)) by (nonlinear_arith)
                requires
                    fr >= 0,
                    pow2((e - 1) as nat) > 0,
            ;
        }
    } else {
        assert(e1 == e + 1 && fr == 0x7f_ffff && fr1 == 0);
        if e == 0 {
            lemma2_to64();
        } else {
            lemma_pow2_unfold(e as nat);
            let p = pow2((e - 1) as nat) as int;
            assert(pow2(e as nat) == 2 * p);
            assert(0 <= (fr + 0x80_0000) * p < 0x80_0000 * (2 * p)) by (nonlinear_arith)
                requires
                    fr == 0x7f_ffff,
                    p > 0,
            ;
        }
    }
}

proof fn lemma_units_monotone(a: int, b: int)
    requires
        0 <= a < b,
    ensures
        0 <= magnitude_units(a) < magnitude_units(b),
    decreases b - a,
{
    lemma_units_step(b - 1);
    lemma_units_step(a);
    if a < b - 1 {
        lemma_units_monotone(a, b - 1);
    }
}

proof fn lemma_key_orders(a: Scalar, b: Scalar)
    ensures
        a.key() < b.key() <==> a.units() < b.units(),
{
    let (ma, mb) = (a.magnitude(), b.magnitude());
    if ma < mb {
        lemma_units_monotone(ma, mb);
    }
    if mb < ma {
        lemma_units_monotone(mb, ma);
    }
    if ma > 0 {
        lemma_units_monotone(0, ma);
    }
    if mb > 0 {
        lemma_units_monotone(0, mb);
    }
    assert(magnitude_units(0) == 0);
}

/// What a pattern without its sign stands for is not negative.
pub(crate) proof fn lemma_units_not_negative(x: Scalar)
    ensures
        0 <= magnitude_units(x.magnitude()),
        x.sign_bit() ==> x.units() <= 0,
        !x.sign_bit() ==> x.units() >= 0,
{
    lemma_units_step(x.magnitude());
}

/// Two patterns compare as the numbers do that they stand for.
pub broadcast proof fn lemma_below_by_key(a: Scalar, b: Scalar)
    ensures
        #[trigger] a.below(b) <==> !a.nan() && !b.nan() && a.key() < b.key(),
{
    lemma_key_orders(a, b);
}

/// Two patterns compare as the numbers do that they stand for.
pub broadcast proof fn lemma_at_most_by_key(a: Scalar, b: Scalar)
    ensures
        #[trigger] a.at_most(b) <==> !a.nan() && !b.nan() && a.key() <= b.key(),
{
    lemma_key_orders(b, a);
}

pub broadcast group group_scalar_order {
    lemma_below_by_key,
    lemma_at_most_by_key,
}

/// The number with the given bit pattern.
#[verifier::allow_in_spec]
pub fn num(bits: u32) -> Scalar
    returns
        (Scalar { bits }),
{
    Scalar { bits }
}

/// Bit patterns of the numbers that the signal path is written with.
pub const ZERO: u32 = 0;

pub const HALF: u32 = 0x3f00_0000;

pub const ONE: u32 = 0x3f80_0000;

pub const MINUS_ONE: u32 = 0xbf80_0000;

pub const TWO: u32 = 0x4000_0000;

impl Scalar {
    /// The bit pattern without its sign.
    pub open spec fn magnitude(self) -> int {
        self.bits as int % 0x8000_0000
    }

    pub open spec fn sign_bit(self) -> bool {
        self.bits >= 0x8000_0000
    }

    pub open spec fn nan(self) -> bool {
        self.magnitude() > 0x7f80_0000
    }

    pub open spec fn finite(self) -> bool {
        self.magnitude() < 0x7f80_0000
    }

    /// The number itself, counted in units of 2^-149 (of a pattern that is a number).
    pub open spec fn units(self) -> int {
        if self.sign_bit() {
            -magnitude_units(self.magnitude())
        } else {
            magnitude_units(self.magnitude())
        }
    }

    pub open spec fn below(self, other: Scalar) -> bool {
        !self.nan() && !other.nan() && self.units() < other.units()
    }

    pub open spec fn at_most(self, other: Scalar) -> bool {
        !self.nan() && !other.nan() && self.units() <= other.units()
    }

    /// The integer between zero and the number that is nearest to the number.
    pub open spec fn truncated(self) -> int {
        let whole = magnitude_units(self.magnitude()) / pow2(149) as int;
        if self.sign_bit() {
            -whole
        } else {
            whole
        }
    }

    /// The bit pattern read as a sign and a magnitude.
    pub open spec fn key(self) -> int {
        if self.sign_bit() {
            -self.magnitude()
        } else {
            self.magnitude()
        }
    }

    fn order_key(self) -> (r: i64)
        ensures
            r == self.key(),
    {
        let m: u32 = self.bits % 0x8000_0000;
        if self.bits >= 0x8000_0000 {
            -(m as i64)
        } else {
            m as i64
        }
    }

    pub fn is_nan(self) -> (r: bool)
        ensures
            r == self.nan(),
    {
        self.bits % 0x8000_0000 > 0x7f80_0000
    }

    pub fn is_finite(self) -> (r: bool)
        ensures
            r == self.finite(),
    {
        self.bits % 0x8000_0000 < 0x7f80_0000
    }

    /// `self < other`; false where either is not a number.
    pub fn lt(self, other: Scalar) -> (r: bool)
        ensures
            r == self.below(other),
    {
        if self.is_nan() || other.is_nan() {
            return false;
        }
        broadcast use group_scalar_order;

        self.order_key() < other.order_key()
    }

    /// `self <= other`; false where either is not a number.
    pub fn le(self, other: Scalar) -> (r: bool)
        ensures
            r == self.at_most(other),
    {
        if self.is_nan() || other.is_nan() {
            return false;
        }
        broadcast use group_scalar_order;

        self.order_key() <= other.order_key()
    }

    pub open spec fn absolute(self) -> Scalar {
        Scalar { bits: self.magnitude() as u32 }
    }

    /// The number without its sign.
    pub fn abs(self) -> (r: Scalar)
        ensures
            r == self.absolute(),
    {
        Scalar { bits: self.bits % 0x8000_0000 }
    }

    pub open spec fn negated(self) -> Scalar {
        if self.sign_bit() {
            Scalar { bits: (self.bits - 0x8000_0000) as u32 }
        } else {
            Scalar { bits: (self.bits + 0x8000_0000) as u32 }
        }
    }

    /// The number with the other sign.
    pub fn neg(self) -> (r: Scalar)
        ensures
            r == self.negated(),
    {
        if self.bits >= 0x8000_0000 {
            Scalar { bits: self.bits - 0x8000_0000 }
        } else {
            Scalar { bits: self.bits + 0x8000_0000 }
        }
    }

    pub open spec fn larger(self, other: Scalar) -> Scalar {
        if self.nan() || self.below(other) {
            other
        } else {
            self
        }
    }

    /// The larger of two numbers; the other one where one is not a number.
    pub fn max(self, other: Scalar) -> (r: Scalar)
        ensures
            r == self.larger(other),
    {
        if self.is_nan() || self.lt(other) {
            other
        } else {
            self
        }
    }

    pub open spec fn smaller(self, other: Scalar) -> Scalar {
        if self.nan() || other.below(self) {
            other
        } else {
            self
        }
    }

    /// The smaller of two numbers; the other one where one is not a number.
    pub fn min(self, other: Scalar) -> (r: Scalar)
        ensures
            r == self.smaller(other),
    {
        if self.is_nan() || other.lt(self) {
            other
        } else {
            self
        }
    }

    pub open spec fn clamped(self, low: Scalar, high: Scalar) -> Scalar {
        if self.below(low) {
            low
        } else if high.below(self) {
            high
        } else {
            self
        }
    }

    /// The number of `low..=high` that is nearest to this one; what is not a number stays. The
    /// range is not empty in the uses that are meant; of an empty one, the end is given that
    /// the number falls short of or exceeds, the lower one first.
    pub fn clamp(self, low: Scalar, high: Scalar) -> (r: Scalar)
        ensures
            r == self.clamped(low, high),
    {
        if self.lt(low) {
            low
        } else if high.lt(self) {
            high
        } else {
            self
        }
    }

    fn whole_part(self) -> (r: u64)
        requires
            !self.nan(),
        ensures
            ({
                let whole = magnitude_units(self.magnitude()) / pow2(149) as int;
                r == if whole > u64::MAX {
                    u64::MAX as int
                } else {
                    whole
                }
            }),
    {
        let m: u32 = self.bits % 0x8000_0000;
        let e: u32 = m / 0x80_0000;
        let fraction: u32 = m % 0x80_0000;
        proof {
            lemma_pow2_pos(149);
        }
        if e < 127 {
            proof {
                lemma_units_monotone(m as int, 0x3f80_0000int);
                assert(magnitude_units(0x3f80_0000int) == 0x80_0000 * pow2(126));
                lemma2_to64();
                lemma_pow2_adds(23, 126);
                lemma_basic_div(magnitude_units(m as int), pow2(149) as int);
            }
            return 0;
        }
        let wide: u64 = fraction as u64 + 0x80_0000;
        proof {
            lemma_pow2_pos((e - 1) as nat);
        }
        if e >= 191 {
            proof {
                lemma_pow2_adds(149, (e - 150) as nat);
                lemma_pow2_pos((e - 150) as nat);
                let a = pow2(149) as int;
                let b = pow2((e - 150) as nat) as int;
                assert(wide * (a * b) == a * (wide * b)) by (nonlinear_arith);
                lemma_div_multiples_vanish(wide * b, a);
                if e > 191 {
                    lemma_pow2_strictly_increases(41, (e - 150) as nat);
                }
                lemma2_to64_rest();
                assert(wide * b >= 0x80_0000 * 0x200_0000_0000) by (nonlinear_arith)
                    requires
                        wide >= 0x80_0000,
                        b >= 0x200_0000_0000,
                ;
            }
            return u64::MAX;
        }
        if e >= 150 {
            let k: u32 = e - 150;
            proof {
                lemma_pow2_adds(149, k as nat);
                let a = pow2(149) as int;
                let b = pow2(k as nat) as int;
                lemma_pow2_pos(k as nat);
                assert(wide * (a * b) == a * (wide * b)) by (nonlinear_arith);
                lemma_div_multiples_vanish(wide * b, a);
                if k < 40 {
                    lemma_pow2_strictly_increases(k as nat, 40);
                }
                lemma2_to64_rest();
                assert(wide * b <= 0xff_ffff * 0x100_0000_0000) by (nonlinear_arith)
                    requires
                        0 <= wide <= 0xff_ffff,
                        0 <= b <= 0x100_0000_0000,
                ;
                lemma_u64_shl_is_mul(wide, k as u64);
            }
            wide << (k as u64)
        } else {
            let k: u32 = 150 - e;
            proof {
                lemma_pow2_adds((e - 1) as nat, k as nat);
                let a = pow2((e - 1) as nat) as int;
                let b = pow2(k as nat) as int;
                lemma_pow2_pos(k as nat);
                lemma_div_denominator(wide * a, a, b);
                assert(wide * a == a * wide) by (nonlinear_arith);
                lemma_div_multiples_vanish(wide as int, a);
                lemma_u64_shr_is_div(wide, k as u64);
                lemma_div_is_ordered(0, wide as int, b);
                lemma_div_nonincreasing(wide as int, b);
            }
            wide >> (k as u64)
        }
    }

    /// What the number is as a count: truncated, and cut to the range of the type.
    pub open spec fn count(self) -> usize {
        if self.nan() || self.truncated() < 0 {
            0
        } else if self.truncated() > usize::MAX {
            usize::MAX
        } else {
            self.truncated() as usize
        }
    }

    /// The number cut to a count: truncated, and cut to the range of the type; 0 where it is
    /// not a number.
    pub fn to_usize(self) -> (r: usize)
        ensures
            r == self.count(),
    {
        if self.is_nan() {
            return 0;
        }
        let w = self.whole_part();
        proof {
            lemma_pow2_pos(149);
            if self.magnitude() > 0 {
                lemma_units_monotone(0, self.magnitude());
            }
            lemma_div_is_ordered(0, magnitude_units(self.magnitude()), pow2(149) as int);
        }
        if self.bits >= 0x8000_0000 {
            0
        } else if w >= usize::MAX as u64 {
            usize::MAX
        } else {
            w as usize
        }
    }

    /// What the number is as an integer: truncated, and cut to the range of the type.
    pub open spec fn integer(self) -> i32 {
        if self.nan() {
            0
        } else if self.truncated() < i32::MIN {
            i32::MIN
        } else if self.truncated() > i32::MAX {
            i32::MAX
        } else {
            self.truncated() as i32
        }
    }

    /// The number cut to an integer: truncated, and cut to the range of the type; 0 where it
    /// is not a number.
    pub fn to_i32(self) -> (r: i32)
        ensures
            r == self.integer(),
    {
        if self.is_nan() {
            return 0;
        }
        let w = self.whole_part();
        proof {
            lemma_pow2_pos(149);
            if self.magnitude() > 0 {
                lemma_units_monotone(0, self.magnitude());
            }
            lemma_div_is_ordered(0, magnitude_units(self.magnitude()), pow2(149) as int);
        }
        if self.bits >= 0x8000_0000 {
            if w >= 0x8000_0000 {
                i32::MIN
            } else {
                -(w as i64) as i32
            }
        } else if w >= 0x7fff_ffff {
            i32::MAX
        } else {
            w as i32
        }
    }
}

} // verus!
