//! The floating-point support that the interval types are generic over.
//!
//! A backing value is the IEEE-754 bit pattern of a float: `u32` holds the
//! bits of a `binary32` (`f32`) value and `u64` those of a `binary64`
//! (`f64`) value. Each format gives its patterns a numeric meaning through
//! `spec_value`, the encoded number multiplied by a fixed power of two of the
//! format, so that the scaled number of `1.0` is `spec_unit()`.
use crate::sealed::Sealed;
use vstd::prelude::*;

verus! {

/// Floating-point support required by [`crate::UnitInterval`] and
/// [`crate::SignedUnitInterval`].
///
/// This trait is sealed and implemented only for the bit patterns of `f32`
/// (`u32`) and `f64` (`u64`).
pub trait UnitIntervalFloat: Sealed + Copy + Sized {
    /// The pattern encodes `NaN`.
    spec fn spec_is_nan(self) -> bool;

    /// The pattern encodes a finite number.
    spec fn spec_is_finite(self) -> bool;

    /// The sign bit of the pattern is set (this includes `-0.0`).
    spec fn spec_is_sign_negative(self) -> bool;

    /// The encoded number times the format's scale; meaningful when finite.
    spec fn spec_value(self) -> int;

    /// The scaled value of the number one.
    spec fn spec_unit() -> int;

    /// The pattern with its sign bit flipped.
    spec fn spec_negate(self) -> Self;

    /// The last stored mantissa bit of the pattern is zero.
    spec fn spec_is_even(self) -> bool;

    /// The pattern of `+0.0`.
    spec fn spec_zero() -> Self;

    /// The pattern of `1.0`.
    spec fn spec_one() -> Self;

    /// The pattern of `0.5`.
    spec fn spec_half() -> Self;

    /// The pattern of `-1.0`.
    spec fn spec_neg_one() -> Self;

    /// The pattern of `2.0`.
    spec fn spec_two() -> Self;

    /// The facts about the format that the interval types rely on.
    proof fn lemma_format()
        ensures
            Self::spec_unit() > 0,
            Self::spec_zero().spec_is_finite(),
            Self::spec_zero().spec_value() == 0,
            !Self::spec_zero().spec_is_sign_negative(),
            Self::spec_one().spec_is_finite(),
            Self::spec_one().spec_value() == Self::spec_unit(),
            !Self::spec_one().spec_is_sign_negative(),
            Self::spec_half().spec_is_finite(),
            2 * Self::spec_half().spec_value() == Self::spec_unit(),
            !Self::spec_half().spec_is_sign_negative(),
            Self::spec_neg_one().spec_is_finite(),
            Self::spec_neg_one().spec_value() == -Self::spec_unit(),
            Self::spec_neg_one().spec_is_sign_negative(),
            Self::spec_two().spec_is_finite(),
            Self::spec_two().spec_value() == 2 * Self::spec_unit(),
            Self::spec_overflow() > 4 * Self::spec_unit(),
            forall|v: Self|
                #![trigger v.spec_value()]
                v.spec_is_finite() ==> -Self::spec_overflow() < v.spec_value()
                    < Self::spec_overflow(),
            forall|v: Self| #[trigger] v.spec_is_finite() ==> !v.spec_is_nan(),
            forall|v: Self| #[trigger] v.spec_negate().spec_negate() == v,
            forall|v: Self|
                #![trigger v.spec_negate()]
                v.spec_is_finite() ==> v.spec_negate().spec_is_finite() && v.spec_negate().spec_value()
                    == -v.spec_value() && v.spec_negate().spec_is_sign_negative()
                    != v.spec_is_sign_negative(),
            forall|v: Self|
                #![trigger v.spec_value()]
                v.spec_is_finite() && v.spec_value() > 0 ==> !v.spec_is_sign_negative(),
            forall|v: Self|
                #![trigger v.spec_value()]
                v.spec_is_finite() && v.spec_value() < 0 ==> v.spec_is_sign_negative(),
    ;

    /// Returns `+0.0`.
    fn zero() -> (r: Self)
        ensures
            r == Self::spec_zero(),
    ;

    /// Returns `1.0`.
    fn one() -> (r: Self)
        ensures
            r == Self::spec_one(),
    ;

    /// Returns `0.5`.
    fn half() -> (r: Self)
        ensures
            r == Self::spec_half(),
    ;

    /// Returns `-1.0`.
    fn neg_one() -> (r: Self)
        ensures
            r == Self::spec_neg_one(),
    ;

    /// Returns whether the pattern is `NaN`.
    fn is_nan(self) -> (r: bool)
        ensures
            r == self.spec_is_nan(),
    ;

    /// Returns whether the pattern is finite.
    fn is_finite(self) -> (r: bool)
        ensures
            r == self.spec_is_finite(),
    ;

    /// Returns whether the pattern is an infinity.
    fn is_infinite(self) -> (r: bool)
        ensures
            r == (!self.spec_is_nan() && !self.spec_is_finite()),
    ;

    /// Returns whether the sign bit is set.
    fn is_sign_negative(self) -> (r: bool)
        ensures
            r == self.spec_is_sign_negative(),
    ;

    /// Returns whether the pattern is a number in `[0, 1]`.
    fn in_unit(self) -> (r: bool)
        ensures
            r == (self.spec_is_finite() && 0 <= self.spec_value() <= Self::spec_unit()),
    ;

    /// Returns whether the pattern is a number in `[-1, 1]`.
    fn in_signed_unit(self) -> (r: bool)
        ensures
            r == (self.spec_is_finite() && -Self::spec_unit() <= self.spec_value()
                <= Self::spec_unit()),
    ;

    /// Clamps a value into `[0, 1]`.
    ///
    /// `NaN` is treated as zero.
    fn clamp_unit(self) -> (r: Self)
        ensures
            r == (if self.spec_is_nan() {
                Self::spec_zero()
            } else if self.spec_is_finite() && 0 <= self.spec_value() <= Self::spec_unit() {
                self
            } else if self.spec_is_sign_negative() {
                Self::spec_zero()
            } else {
                Self::spec_one()
            }),
    ;

    /// Clamps a value into `[-1, 1]`.
    ///
    /// `NaN` is treated as zero.
    fn clamp_signed_unit(self) -> (r: Self)
        ensures
            r == (if self.spec_is_nan() {
                Self::spec_zero()
            } else if self.spec_is_finite() && -Self::spec_unit() <= self.spec_value()
                <= Self::spec_unit() {
                self
            } else if self.spec_is_sign_negative() {
                Self::spec_neg_one()
            } else {
                Self::spec_one()
            }),
    ;

    /// The float comparison `self <= rhs` on finite values.
    fn value_le(self, rhs: Self) -> (r: bool)
        requires
            self.spec_is_finite(),
            rhs.spec_is_finite(),
        ensures
            r == (self.spec_value() <= rhs.spec_value()),
    ;

    /// The float comparison `self == rhs` on finite values; `-0.0` equals
    /// `+0.0`.
    fn value_eq(self, rhs: Self) -> (r: bool)
        requires
            self.spec_is_finite(),
            rhs.spec_is_finite(),
        ensures
            r == (self.spec_value() == rhs.spec_value()),
    ;

    /// Float negation: flips the sign bit.
    fn negate(self) -> (r: Self)
        ensures
            r == self.spec_negate(),
            r.spec_is_nan() == self.spec_is_nan(),
            r.spec_is_finite() == self.spec_is_finite(),
            r.spec_is_sign_negative() == !self.spec_is_sign_negative(),
            self.spec_is_finite() ==> r.spec_value() == -self.spec_value(),
    ;

    /// Float absolute value: clears the sign bit.
    fn abs(self) -> (r: Self)
        ensures
            r.spec_is_nan() == self.spec_is_nan(),
            r.spec_is_finite() == self.spec_is_finite(),
            !r.spec_is_sign_negative(),
            self.spec_is_finite() ==> r.spec_value() == (if self.spec_value() < 0 {
                -self.spec_value()
            } else {
                self.spec_value()
            }),
    ;

    /// The magnitude of `self` with the sign bit of `sign`.
    fn copysign(self, sign: Self) -> (r: Self)
        ensures
            r.spec_is_nan() == self.spec_is_nan(),
            r.spec_is_finite() == self.spec_is_finite(),
            r.spec_is_sign_negative() == sign.spec_is_sign_negative(),
            self.spec_is_finite() && sign.spec_is_sign_negative() ==> r.spec_value() == (if self.spec_value() < 0 {
                self.spec_value()
            } else {
                -self.spec_value()
            }),
            self.spec_is_finite() && !sign.spec_is_sign_negative() ==> r.spec_value() == (if self.spec_value() < 0 {
                -self.spec_value()
            } else {
                self.spec_value()
            }),
    ;

    /// The magnitude, in the format's scale, from which on rounding to
    /// nearest overflows to infinity: the largest finite number plus half
    /// its unit in the last place.
    spec fn spec_overflow() -> int;

    /// `r` is the number `num / den` (in the format's scale, `den > 0`)
    /// rounded as IEEE-754 rounds to nearest, ties to even: an infinity when
    /// the magnitude reaches [`Self::spec_overflow`], else the nearest
    /// finite number. The sign of the result is stated by each operation.
    spec fn spec_rounds(r: Self, num: int, den: int) -> bool;

    /// What [`Self::spec_rounds`] means.
    proof fn lemma_rounds(r: Self, num: int, den: int)
        requires
            den > 0,
            Self::spec_rounds(r, num, den),
        ensures
            num >= Self::spec_overflow() * den || -num >= Self::spec_overflow() * den ==> !r.spec_is_nan()
                && !r.spec_is_finite(),
            !(num >= Self::spec_overflow() * den || -num >= Self::spec_overflow() * den) ==> {
                &&& r.spec_is_finite()
                &&& forall|c: Self|
                    #[trigger] c.spec_is_finite() ==> distance(r.spec_value() * den, num)
                        <= distance(c.spec_value() * den, num)
                &&& forall|c: Self|
                    #[trigger] c.spec_is_finite() && distance(c.spec_value() * den, num)
                        == distance(r.spec_value() * den, num) && c.spec_value() != r.spec_value()
                        ==> r.spec_is_even()
            },
    ;

    /// The IEEE-754 product of `self` and `rhs` (see [`Self::product`]).
    spec fn spec_product(self, rhs: Self) -> Self;

    /// The IEEE-754 sum of `self` and `rhs` (see [`Self::sum`]).
    spec fn spec_sum(self, rhs: Self) -> Self;

    /// The IEEE-754 quotient of `self` by `rhs` (see [`Self::quotient`]).
    spec fn spec_quotient(self, rhs: Self) -> Self;

    /// Float multiplication `self * rhs` as IEEE-754 defines it, rounding to
    /// nearest, ties to even: `NaN` for a `NaN` operand or an infinity times
    /// a zero, an infinity for another infinite operand, else the exact
    /// product rounded. The sign is the exclusive or of the operands' signs.
    fn product(self, rhs: Self) -> (r: Self)
        ensures
            r == self.spec_product(rhs),
            r == rhs.spec_product(self),
            self.spec_is_nan() || rhs.spec_is_nan() ==> r.spec_is_nan(),
            !self.spec_is_finite() && rhs.spec_is_finite() && rhs.spec_value() == 0
                ==> r.spec_is_nan(),
            self.spec_is_finite() && self.spec_value() == 0 && !rhs.spec_is_finite()
                ==> r.spec_is_nan(),
            !self.spec_is_nan() && !rhs.spec_is_nan() && (!self.spec_is_finite()
                || !rhs.spec_is_finite()) && (self.spec_is_finite() ==> self.spec_value() != 0)
                && (rhs.spec_is_finite() ==> rhs.spec_value() != 0) ==> !r.spec_is_nan()
                && !r.spec_is_finite(),
            !r.spec_is_nan() ==> r.spec_is_sign_negative() == (self.spec_is_sign_negative()
                != rhs.spec_is_sign_negative()),
            self.spec_is_finite() && rhs.spec_is_finite() ==> Self::spec_rounds(
                r,
                self.spec_value() * rhs.spec_value(),
                Self::spec_unit(),
            ),
    ;

    /// Float addition `self + rhs` as IEEE-754 defines it, rounding to
    /// nearest, ties to even: `NaN` for a `NaN` operand or infinities of
    /// opposite signs, the infinite operand for another infinite operand,
    /// else the exact sum rounded. A nonzero exact sum gives its sign; an
    /// exact zero sum is `-0.0` only when both operands carry a sign bit.
    /// Rounding is symmetric: for a finite sum, `(-rhs) + (-self)` is finite
    /// and has the negated number.
    fn sum(self, rhs: Self) -> (r: Self)
        ensures
            r == self.spec_sum(rhs),
            r == rhs.spec_sum(self),
            self.spec_is_nan() || rhs.spec_is_nan() ==> r.spec_is_nan(),
            !self.spec_is_nan() && !self.spec_is_finite() && !rhs.spec_is_nan()
                && !rhs.spec_is_finite() && self.spec_is_sign_negative()
                != rhs.spec_is_sign_negative() ==> r.spec_is_nan(),
            !self.spec_is_nan() && !self.spec_is_finite() && !rhs.spec_is_nan() && (
            rhs.spec_is_finite() || self.spec_is_sign_negative() == rhs.spec_is_sign_negative())
                ==> r == self,
            self.spec_is_finite() && !rhs.spec_is_nan() && !rhs.spec_is_finite() ==> r == rhs,
            self.spec_is_finite() && rhs.spec_is_finite() ==> r.spec_is_sign_negative() == (
            if self.spec_value() + rhs.spec_value() == 0 {
                self.spec_is_sign_negative() && rhs.spec_is_sign_negative()
            } else {
                self.spec_value() + rhs.spec_value() < 0
            }),
            self.spec_is_finite() && rhs.spec_is_finite() ==> Self::spec_rounds(
                r,
                self.spec_value() + rhs.spec_value(),
                1,
            ),
            self.spec_is_finite() && rhs.spec_is_finite() && r.spec_is_finite() ==> rhs.spec_negate().spec_sum(
                self.spec_negate(),
            ).spec_is_finite() && rhs.spec_negate().spec_sum(self.spec_negate()).spec_value()
                == -r.spec_value(),
    ;

    /// Float division `self / rhs` as IEEE-754 defines it, rounding to
    /// nearest, ties to even: `NaN` for a `NaN` operand, two infinities or
    /// two zeros, an infinity for an infinite dividend or a zero divisor, a
    /// zero for an infinite divisor or a zero dividend, else the exact
    /// quotient rounded. The sign is the exclusive or of the operands' signs.
    fn quotient(self, rhs: Self) -> (r: Self)
        ensures
            r == self.spec_quotient(rhs),
            self.spec_is_nan() || rhs.spec_is_nan() ==> r.spec_is_nan(),
            !self.spec_is_finite() && !rhs.spec_is_finite() ==> r.spec_is_nan(),
            self.spec_is_finite() && self.spec_value() == 0 && rhs.spec_is_finite()
                && rhs.spec_value() == 0 ==> r.spec_is_nan(),
            !self.spec_is_nan() && !self.spec_is_finite() && rhs.spec_is_finite()
                ==> !r.spec_is_nan() && !r.spec_is_finite(),
            self.spec_is_finite() && self.spec_value() != 0 && rhs.spec_is_finite()
                && rhs.spec_value() == 0 ==> !r.spec_is_nan() && !r.spec_is_finite(),
            self.spec_is_finite() && !rhs.spec_is_nan() && !rhs.spec_is_finite()
                ==> r.spec_is_finite() && r.spec_value() == 0,
            self.spec_is_finite() && self.spec_value() == 0 && rhs.spec_is_finite()
                && rhs.spec_value() != 0 ==> r.spec_is_finite() && r.spec_value() == 0,
            !r.spec_is_nan() ==> r.spec_is_sign_negative() == (self.spec_is_sign_negative()
                != rhs.spec_is_sign_negative()),
            self.spec_is_finite() && self.spec_value() != 0 && rhs.spec_is_finite()
                && rhs.spec_value() > 0 ==> Self::spec_rounds(
                r,
                self.spec_value() * Self::spec_unit(),
                rhs.spec_value(),
            ),
            self.spec_is_finite() && self.spec_value() != 0 && rhs.spec_is_finite()
                && rhs.spec_value() < 0 ==> Self::spec_rounds(
                r,
                -(self.spec_value() * Self::spec_unit()),
                -rhs.spec_value(),
            ),
    ;

    /// Float `signum` on a number: `-1.0` when the sign bit is set
    /// (including `-0.0`), `1.0` otherwise.
    fn signum(self) -> (r: Self)
        requires
            !self.spec_is_nan(),
        ensures
            r == (if self.spec_is_sign_negative() {
                Self::spec_neg_one()
            } else {
                Self::spec_one()
            }),
    ;
}

/// `v` is a number in the closed unit interval `[0, 1]`; `NaN` is not.
pub open spec fn is_in_unit<T: UnitIntervalFloat>(v: T) -> bool {
    v.spec_is_finite() && 0 <= v.spec_value() <= T::spec_unit()
}

/// `v` is a number in the closed signed unit interval `[-1, 1]`; `NaN` is not.
pub open spec fn is_in_signed_unit<T: UnitIntervalFloat>(v: T) -> bool {
    v.spec_is_finite() && -T::spec_unit() <= v.spec_value() <= T::spec_unit()
}

/// The distance between two integers.
pub open spec fn distance(a: int, b: int) -> int {
    if a >= b {
        a - b
    } else {
        b - a
    }
}

/// `x` with the sign `neg`.
pub open spec fn signed(neg: bool, x: int) -> int {
    if neg {
        -x
    } else {
        x
    }
}

/// The number of `r` is nearest to the number `num / den` (for `den > 0`,
/// both in the format's scale) among all finite numbers of the format.
pub open spec fn is_nearest<T: UnitIntervalFloat>(r: T, num: int, den: int) -> bool {
    forall|c: T|
        #[trigger] c.spec_is_finite() ==> distance(r.spec_value() * den, num) <= distance(
            c.spec_value() * den,
            num,
        )
}

/// When another finite number is as near to `num / den` as the number of
/// `r`, the pattern `r` is even (ties go to the even pattern).
pub open spec fn ties_to_even<T: UnitIntervalFloat>(r: T, num: int, den: int) -> bool {
    forall|c: T|
        #[trigger] c.spec_is_finite() && distance(c.spec_value() * den, num) == distance(
            r.spec_value() * den,
            num,
        ) && c.spec_value() != r.spec_value() ==> r.spec_is_even()
}

/// The absolute value of the number of `x`.
pub open spec fn abs_value<T: UnitIntervalFloat>(x: T) -> int {
    if x.spec_value() < 0 {
        -x.spec_value()
    } else {
        x.spec_value()
    }
}

/// `r` is `num / den` rounded to the nearest finite number of the format,
/// ties to even, as IEEE-754 rounds by default.
pub open spec fn rounds_to<T: UnitIntervalFloat>(r: T, num: int, den: int) -> bool {
    &&& r.spec_is_finite()
    &&& is_nearest(r, num, den)
    &&& ties_to_even(r, num, den)
}

/// The sign IEEE-754 gives the sum of `a` and `b`: that of the exact sum,
/// or for an exact zero sum a sign bit only when both operands carry one.
pub open spec fn sum_sign<T: UnitIntervalFloat>(a: T, b: T) -> bool {
    if a.spec_value() + b.spec_value() == 0 {
        a.spec_is_sign_negative() && b.spec_is_sign_negative()
    } else {
        a.spec_value() + b.spec_value() < 0
    }
}

/// `r` is the sum of `a` and `b` as IEEE-754 addition gives it: the exact
/// sum rounded to nearest, ties to even, with the sign of [`sum_sign`].
pub open spec fn is_rounded_sum<T: UnitIntervalFloat>(r: T, a: T, b: T) -> bool {
    &&& r.spec_is_sign_negative() == sum_sign(a, b)
    &&& rounds_to(r, a.spec_value() + b.spec_value(), 1)
}

/// `r` is the product of `a` and `b` as IEEE-754 multiplication gives it:
/// the exact product rounded to nearest, ties to even, carrying the
/// exclusive or of the operands' signs.
pub open spec fn is_rounded_product<T: UnitIntervalFloat>(r: T, a: T, b: T) -> bool {
    &&& r.spec_is_sign_negative() == (a.spec_is_sign_negative() != b.spec_is_sign_negative())
    &&& rounds_to(r, a.spec_value() * b.spec_value(), T::spec_unit())
}

/// `r` is the IEEE-754 product of `a` and `b`, rounding to nearest, ties to
/// even (what [`UnitIntervalFloat::product`] gives).
pub open spec fn is_ieee_product<T: UnitIntervalFloat>(r: T, a: T, b: T) -> bool {
    &&& a.spec_is_nan() || b.spec_is_nan() ==> r.spec_is_nan()
    &&& !a.spec_is_finite() && b.spec_is_finite() && b.spec_value() == 0 ==> r.spec_is_nan()
    &&& a.spec_is_finite() && a.spec_value() == 0 && !b.spec_is_finite() ==> r.spec_is_nan()
    &&& !a.spec_is_nan() && !b.spec_is_nan() && (!a.spec_is_finite() || !b.spec_is_finite()) && (
    a.spec_is_finite() ==> a.spec_value() != 0) && (b.spec_is_finite() ==> b.spec_value() != 0)
        ==> !r.spec_is_nan() && !r.spec_is_finite()
    &&& !r.spec_is_nan() ==> r.spec_is_sign_negative() == (a.spec_is_sign_negative()
        != b.spec_is_sign_negative())
    &&& a.spec_is_finite() && b.spec_is_finite() ==> T::spec_rounds(
        r,
        a.spec_value() * b.spec_value(),
        T::spec_unit(),
    )
}

/// `r` is the IEEE-754 sum of `a` and `b`, rounding to nearest, ties to
/// even (what [`UnitIntervalFloat::sum`] gives).
pub open spec fn is_ieee_sum<T: UnitIntervalFloat>(r: T, a: T, b: T) -> bool {
    &&& a.spec_is_nan() || b.spec_is_nan() ==> r.spec_is_nan()
    &&& !a.spec_is_nan() && !a.spec_is_finite() && !b.spec_is_nan() && !b.spec_is_finite()
        && a.spec_is_sign_negative() != b.spec_is_sign_negative() ==> r.spec_is_nan()
    &&& !a.spec_is_nan() && !a.spec_is_finite() && !b.spec_is_nan() && (b.spec_is_finite()
        || a.spec_is_sign_negative() == b.spec_is_sign_negative()) ==> r == a
    &&& a.spec_is_finite() && !b.spec_is_nan() && !b.spec_is_finite() ==> r == b
    &&& a.spec_is_finite() && b.spec_is_finite() ==> r.spec_is_sign_negative() == sum_sign(a, b)
    &&& a.spec_is_finite() && b.spec_is_finite() ==> T::spec_rounds(
        r,
        a.spec_value() + b.spec_value(),
        1,
    )
}

/// `r` is the IEEE-754 quotient of `a` by `b`, rounding to nearest, ties
/// to even (what [`UnitIntervalFloat::quotient`] gives).
pub open spec fn is_ieee_quotient<T: UnitIntervalFloat>(r: T, a: T, b: T) -> bool {
    &&& a.spec_is_nan() || b.spec_is_nan() ==> r.spec_is_nan()
    &&& !a.spec_is_finite() && !b.spec_is_finite() ==> r.spec_is_nan()
    &&& a.spec_is_finite() && a.spec_value() == 0 && b.spec_is_finite() && b.spec_value() == 0
        ==> r.spec_is_nan()
    &&& !a.spec_is_nan() && !a.spec_is_finite() && b.spec_is_finite() ==> !r.spec_is_nan()
        && !r.spec_is_finite()
    &&& a.spec_is_finite() && a.spec_value() != 0 && b.spec_is_finite() && b.spec_value() == 0
        ==> !r.spec_is_nan() && !r.spec_is_finite()
    &&& a.spec_is_finite() && !b.spec_is_nan() && !b.spec_is_finite() ==> r.spec_is_finite()
        && r.spec_value() == 0
    &&& a.spec_is_finite() && a.spec_value() == 0 && b.spec_is_finite() && b.spec_value() != 0
        ==> r.spec_is_finite() && r.spec_value() == 0
    &&& !r.spec_is_nan() ==> r.spec_is_sign_negative() == (a.spec_is_sign_negative()
        != b.spec_is_sign_negative())
    &&& a.spec_is_finite() && a.spec_value() != 0 && b.spec_is_finite() && b.spec_value() > 0
        ==> T::spec_rounds(r, a.spec_value() * T::spec_unit(), b.spec_value())
    &&& a.spec_is_finite() && a.spec_value() != 0 && b.spec_is_finite() && b.spec_value() < 0
        ==> T::spec_rounds(r, -(a.spec_value() * T::spec_unit()), -b.spec_value())
}

/// Away from overflow, IEEE-754 rounding is rounding to the nearest finite
/// number.
pub proof fn lemma_rounds_small<T: UnitIntervalFloat>(r: T, num: int, den: int)
    requires
        den > 0,
        T::spec_rounds(r, num, den),
        -4 * T::spec_unit() * den <= num <= 4 * T::spec_unit() * den,
    ensures
        rounds_to(r, num, den),
{
    T::lemma_format();
    let u = T::spec_unit();
    let ov = T::spec_overflow();
    assert(4 * u * den < ov * den) by (nonlinear_arith)
        requires
            4 * u < ov,
            den > 0,
    ;
    assert(-4 * u * den == -(4 * u * den)) by (nonlinear_arith);
    T::lemma_rounds(r, num, den);
    assert(!(num >= ov * den || -num >= ov * den));
    assert(is_nearest(r, num, den));
    assert(ties_to_even(r, num, den));
}

/// Rounding a target that is itself the number of a finite pattern `c`
/// gives that number back.
pub proof fn lemma_rounds_exact<T: UnitIntervalFloat>(r: T, c: T, den: int)
    requires
        den > 0,
        c.spec_is_finite(),
        T::spec_rounds(r, c.spec_value() * den, den),
    ensures
        r.spec_is_finite(),
        r.spec_value() == c.spec_value(),
{
    T::lemma_format();
    let ov = T::spec_overflow();
    let v = c.spec_value();
    assert(-ov * den < v * den < ov * den) by (nonlinear_arith)
        requires
            -ov < v < ov,
            den > 0,
    ;
    assert(-ov * den == -(ov * den)) by (nonlinear_arith);
    T::lemma_rounds(r, v * den, den);
    assert(distance(r.spec_value() * den, v * den) <= distance(c.spec_value() * den, v * den));
    assert(r.spec_value() * den == v * den ==> r.spec_value() == v) by (nonlinear_arith)
        requires
            den > 0,
    ;
}

/// Float addition of two finite numbers of magnitude at most two: the exact
/// sum rounded to nearest, ties to even, with the sign IEEE-754 gives it;
/// `(-b) + (-a)` has the negated number.
pub fn sum_small<T: UnitIntervalFloat>(a: T, b: T) -> (r: T)
    requires
        a.spec_is_finite(),
        b.spec_is_finite(),
        -2 * T::spec_unit() <= a.spec_value() <= 2 * T::spec_unit(),
        -2 * T::spec_unit() <= b.spec_value() <= 2 * T::spec_unit(),
    ensures
        r == a.spec_sum(b),
        r == b.spec_sum(a),
        is_rounded_sum(r, a, b),
        b.spec_negate().spec_sum(a.spec_negate()).spec_is_finite(),
        b.spec_negate().spec_sum(a.spec_negate()).spec_value() == -r.spec_value(),
{
    let r = a.sum(b);
    proof {
        lemma_rounds_small(r, a.spec_value() + b.spec_value(), 1);
    }
    r
}

/// Float multiplication of two finite numbers of magnitude at most two: the
/// exact product rounded to nearest, ties to even, carrying the exclusive or
/// of the signs.
pub fn product_small<T: UnitIntervalFloat>(a: T, b: T) -> (r: T)
    requires
        a.spec_is_finite(),
        b.spec_is_finite(),
        -2 * T::spec_unit() <= a.spec_value() <= 2 * T::spec_unit(),
        -2 * T::spec_unit() <= b.spec_value() <= 2 * T::spec_unit(),
    ensures
        r == a.spec_product(b),
        r == b.spec_product(a),
        is_rounded_product(r, a, b),
{
    let r = a.product(b);
    proof {
        let u = T::spec_unit();
        let va = a.spec_value();
        let vb = b.spec_value();
        T::lemma_format();
        assert(-4 * u * u <= va * vb <= 4 * u * u) by (nonlinear_arith)
            requires
                -2 * u <= va <= 2 * u,
                -2 * u <= vb <= 2 * u,
                u > 0,
        ;
        lemma_rounds_small(r, va * vb, u);
        T::lemma_rounds(r, va * vb, u);
    }
    r
}

/// Rounding to nearest a target that lies between the numbers of two finite
/// patterns gives a number between them too.
pub proof fn lemma_rounded_within<T: UnitIntervalFloat>(r: T, num: int, den: int, lo: T, hi: T)
    requires
        den > 0,
        rounds_to(r, num, den),
        lo.spec_is_finite(),
        hi.spec_is_finite(),
        lo.spec_value() * den <= num <= hi.spec_value() * den,
    ensures
        lo.spec_value() <= r.spec_value() <= hi.spec_value(),
{
    let v = r.spec_value();
    assert(distance(v * den, num) <= distance(hi.spec_value() * den, num));
    assert(distance(v * den, num) <= distance(lo.spec_value() * den, num));
    assert(v > hi.spec_value() ==> v * den > hi.spec_value() * den) by (nonlinear_arith)
        requires
            den > 0,
    ;
    assert(v < lo.spec_value() ==> v * den < lo.spec_value() * den) by (nonlinear_arith)
        requires
            den > 0,
    ;
}

/// The result of clamping `v` into `[0, 1]`: `NaN` becomes `+0.0`, values in
/// the interval are kept, values below it become `+0.0` and values above it
/// become `1.0`.
pub open spec fn clamped_unit<T: UnitIntervalFloat>(v: T) -> T {
    if v.spec_is_nan() {
        T::spec_zero()
    } else if is_in_unit(v) {
        v
    } else if v.spec_is_sign_negative() {
        T::spec_zero()
    } else {
        T::spec_one()
    }
}

/// The result of clamping `v` into `[-1, 1]`: `NaN` becomes `+0.0`, values in
/// the interval are kept, values below it become `-1.0` and values above it
/// become `1.0`.
pub open spec fn clamped_signed_unit<T: UnitIntervalFloat>(v: T) -> T {
    if v.spec_is_nan() {
        T::spec_zero()
    } else if is_in_signed_unit(v) {
        v
    } else if v.spec_is_sign_negative() {
        T::spec_neg_one()
    } else {
        T::spec_one()
    }
}

} // verus!
