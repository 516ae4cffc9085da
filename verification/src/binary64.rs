//! `u64` as the bit pattern of an IEEE-754 `binary64` (`f64`) value: one
//! sign bit, eleven exponent bits with bias 1023 and 52 stored mantissa bits.
//! The scaled value of a finite pattern is its number times `2^1074`.
use crate::arith64::{
    add_64, div_64, lemma_finite_below_overflow_64, lemma_overflow_large_64, mul_64, overflow_64, product_64, quotient_64, rounds_to_ext_64,
    sum_64,
};
use crate::float::{distance, is_in_signed_unit, is_in_unit, UnitIntervalFloat};
use crate::ieee::{lemma_mag_value_monotone, lemma_mag_value_sig, lemma_mag_value_zero, mag_value};
use vstd::arithmetic::power2::*;
use vstd::prelude::*;

verus! {

/// The sign bit.
pub const SIGN_BIT_64: u64 = 0x8000_0000_0000_0000;

/// The pattern of `+inf`, the smallest magnitude that is not finite.
pub const INFINITY_64: u64 = 0x7FF0_0000_0000_0000;

/// The pattern of `1.0`.
pub const ONE_64: u64 = 0x3FF0_0000_0000_0000;

/// The pattern of `0.5`.
pub const HALF_64: u64 = 0x3FE0_0000_0000_0000;

/// The pattern of `2.0`.
pub const TWO_64: u64 = 0x4000_0000_0000_0000;

/// The pattern of `-1.0`.
pub const NEG_ONE_64: u64 = 0xBFF0_0000_0000_0000;

/// The pattern without its sign bit.
pub open spec fn magnitude_64(b: u64) -> nat {
    (b % SIGN_BIT_64) as nat
}

/// The scaled number of a pattern (see [`UnitIntervalFloat::spec_value`]).
pub open spec fn value_64(b: u64) -> int {
    if b >= SIGN_BIT_64 {
        -mag_value(magnitude_64(b), 52)
    } else {
        mag_value(magnitude_64(b), 52) as int
    }
}

/// The scaled number of `1.0`.
pub open spec fn unit_64() -> int {
    mag_value(ONE_64 as nat, 52) as int
}

proof fn lemma_one_and_half_64()
    ensures
        mag_value(0, 52) == 0,
        mag_value(ONE_64 as nat, 52) > 0,
        2 * mag_value(HALF_64 as nat, 52) == mag_value(ONE_64 as nat, 52),
        mag_value(TWO_64 as nat, 52) == 2 * mag_value(ONE_64 as nat, 52),
{
    lemma2_to64();
    lemma2_to64_rest();
    lemma_mag_value_zero(0, 52);
    lemma_mag_value_zero(ONE_64 as nat, 52);
    assert(ONE_64 as nat / pow2(52) == 1023);
    assert(ONE_64 as nat % pow2(52) == 0);
    assert(HALF_64 as nat / pow2(52) == 1022);
    assert(HALF_64 as nat % pow2(52) == 0);
    lemma_pow2_unfold(1022);
    let p = pow2(52);
    let q = pow2(1021);
    assert(mag_value(HALF_64 as nat, 52) == p * q);
    assert(mag_value(ONE_64 as nat, 52) == p * (2 * q));
    assert(2 * (p * q) == p * (2 * q)) by (nonlinear_arith);
    lemma_mag_value_sig(0x10_0000_0000_0000, 1022, 52);
    lemma_mag_value_sig(0x10_0000_0000_0000, 1023, 52);
    lemma_pow2_unfold(1023);
    assert(0x10_0000_0000_0000 * pow2(1023) == 2 * (0x10_0000_0000_0000 * pow2(1022))) by (nonlinear_arith)
        requires
            pow2(1023) == 2 * pow2(1022),
    ;
}

/// A pattern is a number in `[0, 1]` exactly when it lies between `+0.0`
/// and `1.0` as an unsigned integer, or is `-0.0`.
pub proof fn lemma_in_unit_64(b: u64)
    ensures
        is_in_unit(b) <==> (b <= ONE_64 || b == SIGN_BIT_64),
{
    lemma_unit_bits_64(b);
}

proof fn lemma_unit_bits_64(b: u64)
    ensures
        (magnitude_64(b) < INFINITY_64 && 0 <= value_64(b) <= unit_64()) <==> (b <= ONE_64
            || b == SIGN_BIT_64),
{
    lemma_one_and_half_64();
    lemma_mag_value_monotone(magnitude_64(b), ONE_64 as nat, 52);
    lemma_mag_value_zero(magnitude_64(b), 52);
}

/// A pattern is a number in `[-1, 1]` exactly when its magnitude bits are at
/// most those of `1.0`.
pub proof fn lemma_in_signed_unit_64(b: u64)
    ensures
        is_in_signed_unit(b) <==> magnitude_64(b) <= ONE_64,
{
    lemma_signed_unit_bits_64(b);
}

proof fn lemma_signed_unit_bits_64(b: u64)
    ensures
        (magnitude_64(b) < INFINITY_64 && -unit_64() <= value_64(b) <= unit_64()) <==> magnitude_64(b)
            <= ONE_64,
{
    lemma_one_and_half_64();
    lemma_mag_value_monotone(magnitude_64(b), ONE_64 as nat, 52);
}

impl UnitIntervalFloat for u64 {
    open spec fn spec_is_nan(self) -> bool {
        magnitude_64(self) > INFINITY_64
    }

    open spec fn spec_is_finite(self) -> bool {
        magnitude_64(self) < INFINITY_64
    }

    open spec fn spec_is_sign_negative(self) -> bool {
        self >= SIGN_BIT_64
    }

    open spec fn spec_value(self) -> int {
        value_64(self)
    }

    open spec fn spec_unit() -> int {
        unit_64()
    }

    open spec fn spec_negate(self) -> u64 {
        if self >= SIGN_BIT_64 {
            (self - SIGN_BIT_64) as u64
        } else {
            (self + SIGN_BIT_64) as u64
        }
    }

    open spec fn spec_is_even(self) -> bool {
        self % 2 == 0
    }

    open spec fn spec_product(self, rhs: u64) -> u64 {
        product_64(self, rhs)
    }

    open spec fn spec_sum(self, rhs: u64) -> u64 {
        sum_64(self, rhs)
    }

    open spec fn spec_quotient(self, rhs: u64) -> u64 {
        quotient_64(self, rhs)
    }

    open spec fn spec_overflow() -> int {
        overflow_64()
    }

    open spec fn spec_rounds(r: u64, num: int, den: int) -> bool {
        rounds_to_ext_64(r, num, den)
    }

    proof fn lemma_rounds(r: u64, num: int, den: int) {
        if !(num >= overflow_64() * den || -num >= overflow_64() * den) {
            assert forall|c: u64| #[trigger] c.spec_is_finite() implies distance(
                r.spec_value() * den,
                num,
            ) <= distance(c.spec_value() * den, num) by {
                assert(magnitude_64(c) < INFINITY_64);
            }
            assert forall|c: u64|
                #[trigger] c.spec_is_finite() && distance(c.spec_value() * den, num) == distance(
                    r.spec_value() * den,
                    num,
                ) && c.spec_value() != r.spec_value() implies r.spec_is_even() by {
                assert(magnitude_64(c) < INFINITY_64);
            }
        }
    }

    open spec fn spec_zero() -> u64 {
        0
    }

    open spec fn spec_one() -> u64 {
        ONE_64
    }

    open spec fn spec_half() -> u64 {
        HALF_64
    }

    open spec fn spec_two() -> u64 {
        TWO_64
    }

    open spec fn spec_neg_one() -> u64 {
        NEG_ONE_64
    }

    proof fn lemma_format() {
        lemma_one_and_half_64();
        lemma_overflow_large_64();
        assert forall|v: u64| v.spec_is_finite() implies -overflow_64() < #[trigger] v.spec_value()
            < overflow_64() by {
            lemma_finite_below_overflow_64(v);
        }
    }

    fn zero() -> (r: u64) {
        0
    }

    fn one() -> (r: u64) {
        ONE_64
    }

    fn half() -> (r: u64) {
        HALF_64
    }

    fn neg_one() -> (r: u64) {
        NEG_ONE_64
    }

    fn is_nan(self) -> (r: bool) {
        self % SIGN_BIT_64 > INFINITY_64
    }

    fn is_finite(self) -> (r: bool) {
        self % SIGN_BIT_64 < INFINITY_64
    }

    fn is_infinite(self) -> (r: bool) {
        self % SIGN_BIT_64 == INFINITY_64
    }

    fn is_sign_negative(self) -> (r: bool) {
        self >= SIGN_BIT_64
    }

    fn in_unit(self) -> (r: bool) {
        proof {
            lemma_unit_bits_64(self);
        }
        self <= ONE_64 || self == SIGN_BIT_64
    }

    fn in_signed_unit(self) -> (r: bool) {
        proof {
            lemma_signed_unit_bits_64(self);
        }
        self % SIGN_BIT_64 <= ONE_64
    }

    fn clamp_unit(self) -> (r: u64) {
        if self.is_nan() {
            0
        } else if self.in_unit() {
            self
        } else if self >= SIGN_BIT_64 {
            0
        } else {
            ONE_64
        }
    }

    fn clamp_signed_unit(self) -> (r: u64) {
        if self.is_nan() {
            0
        } else if self.in_signed_unit() {
            self
        } else if self >= SIGN_BIT_64 {
            NEG_ONE_64
        } else {
            ONE_64
        }
    }

    fn value_le(self, rhs: u64) -> (r: bool) {
        let a = self % SIGN_BIT_64;
        let b = rhs % SIGN_BIT_64;
        proof {
            lemma_mag_value_monotone(a as nat, b as nat, 52);
            lemma_mag_value_monotone(b as nat, a as nat, 52);
            lemma_mag_value_zero(a as nat, 52);
            lemma_mag_value_zero(b as nat, 52);
        }
        if self < SIGN_BIT_64 && rhs < SIGN_BIT_64 {
            a <= b
        } else if self >= SIGN_BIT_64 && rhs >= SIGN_BIT_64 {
            b <= a
        } else if self >= SIGN_BIT_64 {
            true
        } else {
            a == 0 && b == 0
        }
    }

    fn value_eq(self, rhs: u64) -> (r: bool) {
        let a = self % SIGN_BIT_64;
        let b = rhs % SIGN_BIT_64;
        proof {
            lemma_mag_value_monotone(a as nat, b as nat, 52);
            lemma_mag_value_monotone(b as nat, a as nat, 52);
            lemma_mag_value_zero(a as nat, 52);
            lemma_mag_value_zero(b as nat, 52);
        }
        a == b && ((self >= SIGN_BIT_64) == (rhs >= SIGN_BIT_64) || a == 0)
    }

    fn negate(self) -> (r: u64) {
        if self >= SIGN_BIT_64 {
            self - SIGN_BIT_64
        } else {
            self + SIGN_BIT_64
        }
    }

    fn abs(self) -> (r: u64) {
        self % SIGN_BIT_64
    }

    fn copysign(self, sign: u64) -> (r: u64) {
        if sign >= SIGN_BIT_64 {
            self % SIGN_BIT_64 + SIGN_BIT_64
        } else {
            self % SIGN_BIT_64
        }
    }

    fn product(self, rhs: u64) -> (r: u64) {
        let r = mul_64(self, rhs);
        proof {
            lemma_mag_value_zero(magnitude_64(self), 52);
            lemma_mag_value_zero(magnitude_64(rhs), 52);
        }
        r
    }

    fn sum(self, rhs: u64) -> (r: u64) {
        add_64(self, rhs)
    }

    fn quotient(self, rhs: u64) -> (r: u64) {
        let r = div_64(self, rhs);
        proof {
            lemma_mag_value_zero(magnitude_64(self), 52);
            lemma_mag_value_zero(magnitude_64(rhs), 52);
            lemma_mag_value_zero(0, 52);
            let ma = mag_value(magnitude_64(self), 52) as int;
            let u = unit_64();
            assert((-ma) * u == -(ma * u)) by (nonlinear_arith);
        }
        r
    }

    fn signum(self) -> (r: u64) {
        if self >= SIGN_BIT_64 {
            NEG_ONE_64
        } else {
            ONE_64
        }
    }
}

} // verus!
