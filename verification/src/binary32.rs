//! `u32` as the bit pattern of an IEEE-754 `binary32` (`f32`) value: one
//! sign bit, eight exponent bits with bias 127 and 23 stored mantissa bits.
//! The scaled value of a finite pattern is its number times `2^149`.
use crate::arith32::{
    add_32, div_32, lemma_finite_below_overflow_32, lemma_overflow_large_32, mul_32, overflow_32, product_32, quotient_32, rounds_to_ext_32,
    sum_32,
};
use crate::float::{distance, is_in_signed_unit, is_in_unit, UnitIntervalFloat};
use crate::ieee::{lemma_mag_value_monotone, lemma_mag_value_sig, lemma_mag_value_zero, mag_value};
use vstd::arithmetic::power2::*;
use vstd::prelude::*;

verus! {

/// The sign bit.
pub const SIGN_BIT_32: u32 = 0x8000_0000;

/// The pattern of `+inf`, the smallest magnitude that is not finite.
pub const INFINITY_32: u32 = 0x7F80_0000;

/// The pattern of `1.0`.
pub const ONE_32: u32 = 0x3F80_0000;

/// The pattern of `0.5`.
pub const HALF_32: u32 = 0x3F00_0000;

/// The pattern of `2.0`.
pub const TWO_32: u32 = 0x4000_0000;

/// The pattern of `-1.0`.
pub const NEG_ONE_32: u32 = 0xBF80_0000;

/// The pattern without its sign bit.
pub open spec fn magnitude_32(b: u32) -> nat {
    (b % SIGN_BIT_32) as nat
}

/// The scaled number of a pattern (see [`UnitIntervalFloat::spec_value`]).
pub open spec fn value_32(b: u32) -> int {
    if b >= SIGN_BIT_32 {
        -mag_value(magnitude_32(b), 23)
    } else {
        mag_value(magnitude_32(b), 23) as int
    }
}

/// The scaled number of `1.0`.
pub open spec fn unit_32() -> int {
    mag_value(ONE_32 as nat, 23) as int
}

proof fn lemma_one_and_half_32()
    ensures
        mag_value(0, 23) == 0,
        mag_value(ONE_32 as nat, 23) > 0,
        2 * mag_value(HALF_32 as nat, 23) == mag_value(ONE_32 as nat, 23),
        mag_value(TWO_32 as nat, 23) == 2 * mag_value(ONE_32 as nat, 23),
{
    lemma2_to64();
    lemma_mag_value_zero(0, 23);
    lemma_mag_value_zero(ONE_32 as nat, 23);
    assert(ONE_32 as nat / pow2(23) == 127);
    assert(ONE_32 as nat % pow2(23) == 0);
    assert(HALF_32 as nat / pow2(23) == 126);
    assert(HALF_32 as nat % pow2(23) == 0);
    lemma_pow2_unfold(126);
    let p = pow2(23);
    let q = pow2(125);
    assert(mag_value(HALF_32 as nat, 23) == p * q);
    assert(mag_value(ONE_32 as nat, 23) == p * (2 * q));
    assert(2 * (p * q) == p * (2 * q)) by (nonlinear_arith);
    lemma_mag_value_sig(0x80_0000, 126, 23);
    lemma_mag_value_sig(0x80_0000, 127, 23);
    lemma_pow2_unfold(127);
    assert(0x80_0000 * pow2(127) == 2 * (0x80_0000 * pow2(126))) by (nonlinear_arith)
        requires
            pow2(127) == 2 * pow2(126),
    ;
}

/// A pattern is a number in `[0, 1]` exactly when it lies between `+0.0`
/// and `1.0` as an unsigned integer, or is `-0.0`.
pub proof fn lemma_in_unit_32(b: u32)
    ensures
        is_in_unit(b) <==> (b <= ONE_32 || b == SIGN_BIT_32),
{
    lemma_unit_bits_32(b);
}

proof fn lemma_unit_bits_32(b: u32)
    ensures
        (magnitude_32(b) < INFINITY_32 && 0 <= value_32(b) <= unit_32()) <==> (b <= ONE_32
            || b == SIGN_BIT_32),
{
    lemma_one_and_half_32();
    lemma_mag_value_monotone(magnitude_32(b), ONE_32 as nat, 23);
    lemma_mag_value_zero(magnitude_32(b), 23);
}

/// A pattern is a number in `[-1, 1]` exactly when its magnitude bits are at
/// most those of `1.0`.
pub proof fn lemma_in_signed_unit_32(b: u32)
    ensures
        is_in_signed_unit(b) <==> magnitude_32(b) <= ONE_32,
{
    lemma_signed_unit_bits_32(b);
}

proof fn lemma_signed_unit_bits_32(b: u32)
    ensures
        (magnitude_32(b) < INFINITY_32 && -unit_32() <= value_32(b) <= unit_32()) <==> magnitude_32(b)
            <= ONE_32,
{
    lemma_one_and_half_32();
    lemma_mag_value_monotone(magnitude_32(b), ONE_32 as nat, 23);
}

impl UnitIntervalFloat for u32 {
    open spec fn spec_is_nan(self) -> bool {
        magnitude_32(self) > INFINITY_32
    }

    open spec fn spec_is_finite(self) -> bool {
        magnitude_32(self) < INFINITY_32
    }

    open spec fn spec_is_sign_negative(self) -> bool {
        self >= SIGN_BIT_32
    }

    open spec fn spec_value(self) -> int {
        value_32(self)
    }

    open spec fn spec_unit() -> int {
        unit_32()
    }

    open spec fn spec_negate(self) -> u32 {
        if self >= SIGN_BIT_32 {
            (self - SIGN_BIT_32) as u32
        } else {
            (self + SIGN_BIT_32) as u32
        }
    }

    open spec fn spec_is_even(self) -> bool {
        self % 2 == 0
    }

    open spec fn spec_product(self, rhs: u32) -> u32 {
        product_32(self, rhs)
    }

    open spec fn spec_sum(self, rhs: u32) -> u32 {
        sum_32(self, rhs)
    }

    open spec fn spec_quotient(self, rhs: u32) -> u32 {
        quotient_32(self, rhs)
    }

    open spec fn spec_overflow() -> int {
        overflow_32()
    }

    open spec fn spec_rounds(r: u32, num: int, den: int) -> bool {
        rounds_to_ext_32(r, num, den)
    }

    proof fn lemma_rounds(r: u32, num: int, den: int) {
        if !(num >= overflow_32() * den || -num >= overflow_32() * den) {
            assert forall|c: u32| #[trigger] c.spec_is_finite() implies distance(
                r.spec_value() * den,
                num,
            ) <= distance(c.spec_value() * den, num) by {
                assert(magnitude_32(c) < INFINITY_32);
            }
            assert forall|c: u32|
                #[trigger] c.spec_is_finite() && distance(c.spec_value() * den, num) == distance(
                    r.spec_value() * den,
                    num,
                ) && c.spec_value() != r.spec_value() implies r.spec_is_even() by {
                assert(magnitude_32(c) < INFINITY_32);
            }
        }
    }

    open spec fn spec_zero() -> u32 {
        0
    }

    open spec fn spec_one() -> u32 {
        ONE_32
    }

    open spec fn spec_half() -> u32 {
        HALF_32
    }

    open spec fn spec_two() -> u32 {
        TWO_32
    }

    open spec fn spec_neg_one() -> u32 {
        NEG_ONE_32
    }

    proof fn lemma_format() {
        lemma_one_and_half_32();
        lemma_overflow_large_32();
        assert forall|v: u32| v.spec_is_finite() implies -overflow_32() < #[trigger] v.spec_value()
            < overflow_32() by {
            lemma_finite_below_overflow_32(v);
        }
    }

    fn zero() -> (r: u32) {
        0
    }

    fn one() -> (r: u32) {
        ONE_32
    }

    fn half() -> (r: u32) {
        HALF_32
    }

    fn neg_one() -> (r: u32) {
        NEG_ONE_32
    }

    fn is_nan(self) -> (r: bool) {
        self % SIGN_BIT_32 > INFINITY_32
    }

    fn is_finite(self) -> (r: bool) {
        self % SIGN_BIT_32 < INFINITY_32
    }

    fn is_infinite(self) -> (r: bool) {
        self % SIGN_BIT_32 == INFINITY_32
    }

    fn is_sign_negative(self) -> (r: bool) {
        self >= SIGN_BIT_32
    }

    fn in_unit(self) -> (r: bool) {
        proof {
            lemma_unit_bits_32(self);
        }
        self <= ONE_32 || self == SIGN_BIT_32
    }

    fn in_signed_unit(self) -> (r: bool) {
        proof {
            lemma_signed_unit_bits_32(self);
        }
        self % SIGN_BIT_32 <= ONE_32
    }

    fn clamp_unit(self) -> (r: u32) {
        if self.is_nan() {
            0
        } else if self.in_unit() {
            self
        } else if self >= SIGN_BIT_32 {
            0
        } else {
            ONE_32
        }
    }

    fn clamp_signed_unit(self) -> (r: u32) {
        if self.is_nan() {
            0
        } else if self.in_signed_unit() {
            self
        } else if self >= SIGN_BIT_32 {
            NEG_ONE_32
        } else {
            ONE_32
        }
    }

    fn value_le(self, rhs: u32) -> (r: bool) {
        let a = self % SIGN_BIT_32;
        let b = rhs % SIGN_BIT_32;
        proof {
            lemma_mag_value_monotone(a as nat, b as nat, 23);
            lemma_mag_value_monotone(b as nat, a as nat, 23);
            lemma_mag_value_zero(a as nat, 23);
            lemma_mag_value_zero(b as nat, 23);
        }
        if self < SIGN_BIT_32 && rhs < SIGN_BIT_32 {
            a <= b
        } else if self >= SIGN_BIT_32 && rhs >= SIGN_BIT_32 {
            b <= a
        } else if self >= SIGN_BIT_32 {
            true
        } else {
            a == 0 && b == 0
        }
    }

    fn value_eq(self, rhs: u32) -> (r: bool) {
        let a = self % SIGN_BIT_32;
        let b = rhs % SIGN_BIT_32;
        proof {
            lemma_mag_value_monotone(a as nat, b as nat, 23);
            lemma_mag_value_monotone(b as nat, a as nat, 23);
            lemma_mag_value_zero(a as nat, 23);
            lemma_mag_value_zero(b as nat, 23);
        }
        a == b && ((self >= SIGN_BIT_32) == (rhs >= SIGN_BIT_32) || a == 0)
    }

    fn negate(self) -> (r: u32) {
        if self >= SIGN_BIT_32 {
            self - SIGN_BIT_32
        } else {
            self + SIGN_BIT_32
        }
    }

    fn abs(self) -> (r: u32) {
        self % SIGN_BIT_32
    }

    fn copysign(self, sign: u32) -> (r: u32) {
        if sign >= SIGN_BIT_32 {
            self % SIGN_BIT_32 + SIGN_BIT_32
        } else {
            self % SIGN_BIT_32
        }
    }

    fn product(self, rhs: u32) -> (r: u32) {
        let r = mul_32(self, rhs);
        proof {
            lemma_mag_value_zero(magnitude_32(self), 23);
            lemma_mag_value_zero(magnitude_32(rhs), 23);
        }
        r
    }

    fn sum(self, rhs: u32) -> (r: u32) {
        add_32(self, rhs)
    }

    fn quotient(self, rhs: u32) -> (r: u32) {
        let r = div_32(self, rhs);
        proof {
            lemma_mag_value_zero(magnitude_32(self), 23);
            lemma_mag_value_zero(magnitude_32(rhs), 23);
            lemma_mag_value_zero(0, 23);
            let ma = mag_value(magnitude_32(self), 23) as int;
            let u = unit_32();
            assert((-ma) * u == -(ma * u)) by (nonlinear_arith);
        }
        r
    }

    fn signum(self) -> (r: u32) {
        if self >= SIGN_BIT_32 {
            NEG_ONE_32
        } else {
            ONE_32
        }
    }
}

} // verus!
