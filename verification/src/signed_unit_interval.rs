//! A float constrained to the closed signed unit interval `[-1, 1]`.
use crate::float::{
    abs_value, clamped_signed_unit, distance, is_ieee_product, is_ieee_quotient, is_ieee_sum,
    is_in_signed_unit, is_rounded_product, is_rounded_sum, lemma_rounded_within,
    product_small, rounds_to, sum_small, UnitIntervalFloat,
};
use crate::unit_interval::UnitInterval;
use crate::convert::{
    narrow, narrowed, scale_32_to_64, widen, widened,
};
use vstd::prelude::*;
use vstd::std_specs::cmp::PartialEqSpecImpl;
use vstd::std_specs::convert::{FromSpecImpl, TryFromSpecImpl};
use vstd::std_specs::ops::{AddSpecImpl, DivSpecImpl, MulSpecImpl, NegSpecImpl, SubSpecImpl};

verus! {

/// A floating-point value constrained to the closed signed unit interval
/// `[-1, 1]`, held as the bit pattern of the float.
///
/// `SignedUnitInterval` is useful for normalized signed values such as
/// direction, balance, centered offsets, joystick axes, and
/// correlation-like coefficients. Its value is never `NaN`.
#[derive(Debug, Copy)]
pub struct SignedUnitInterval<T: UnitIntervalFloat>(T);

/// Error returned when converting an out-of-range value into a
/// [`SignedUnitInterval`].
#[derive(Debug, Clone, Copy, PartialEq, Eq, Structural)]
pub struct SignedUnitIntervalError;

impl SignedUnitIntervalError {
    /// The message of the error: "value is outside the signed unit interval".
    pub fn to_string(&self) -> (r: String)
        ensures
            r@ == "value is outside the signed unit interval"@,
    {
        "value is outside the signed unit interval".to_owned()
    }
}

impl<T: UnitIntervalFloat> View for SignedUnitInterval<T> {
    type V = T;

    /// The bit pattern of the value.
    closed spec fn view(&self) -> T {
        self.0
    }
}

impl<T: UnitIntervalFloat> SignedUnitInterval<T> {
    #[verifier::type_invariant]
    spec fn inv(self) -> bool {
        is_in_signed_unit(self.0)
    }

    /// The lower bound of the signed unit interval, `-1.0`.
    pub fn neg_one() -> (r: Self)
        ensures
            r@ == T::spec_neg_one(),
    {
        proof {
            T::lemma_format();
        }
        Self(T::neg_one())
    }

    /// The midpoint of the signed unit interval, `+0.0`.
    pub fn zero() -> (r: Self)
        ensures
            r@ == T::spec_zero(),
    {
        proof {
            T::lemma_format();
        }
        Self(T::zero())
    }

    /// The upper bound of the signed unit interval, `1.0`.
    pub fn one() -> (r: Self)
        ensures
            r@ == T::spec_one(),
    {
        proof {
            T::lemma_format();
        }
        Self(T::one())
    }

    /// The positive midpoint of the signed unit interval, `0.5`.
    pub fn half() -> (r: Self)
        ensures
            r@ == T::spec_half(),
    {
        proof {
            T::lemma_format();
        }
        Self(T::half())
    }

    /// Creates a value if `v` is inside `[-1, 1]`.
    ///
    /// Returns `None` for values outside the interval and for `NaN`.
    pub fn new(v: T) -> (r: Option<Self>)
        ensures
            r is Some <==> is_in_signed_unit(v),
            r matches Some(u) ==> u@ == v,
    {
        if Self::contains(v) {
            Some(Self(v))
        } else {
            None
        }
    }

    /// Returns whether `v` is inside `[-1, 1]`.
    ///
    /// `NaN` is not contained in the interval.
    pub fn contains(v: T) -> (r: bool)
        ensures
            r == is_in_signed_unit(v),
    {
        v.in_signed_unit()
    }

    /// Creates a value by clamping `v` into `[-1, 1]`.
    ///
    /// `NaN` is treated as zero.
    pub fn saturating(v: T) -> (r: Self)
        ensures
            r@ == clamped_signed_unit(v),
    {
        proof {
            T::lemma_format();
        }
        Self(v.clamp_signed_unit())
    }

    /// Returns the inner value.
    pub fn get(self) -> (r: T)
        ensures
            r == self@,
            is_in_signed_unit(r),
    {
        proof {
            use_type_invariant(&self);
        }
        self.0
    }

    /// Consumes the wrapper and returns the inner value.
    pub fn into_inner(self) -> (r: T)
        ensures
            r == self@,
            is_in_signed_unit(r),
    {
        proof {
            use_type_invariant(&self);
        }
        self.0
    }

    /// Returns whether this value is exactly zero (`+0.0` or `-0.0`).
    pub fn is_zero(self) -> (r: bool)
        ensures
            r == (self@.spec_value() == 0),
    {
        proof {
            use_type_invariant(&self);
            T::lemma_format();
        }
        self.0.value_eq(T::zero())
    }

    /// Returns whether this value is exactly one.
    pub fn is_one(self) -> (r: bool)
        ensures
            r == (self@.spec_value() == T::spec_unit()),
    {
        proof {
            use_type_invariant(&self);
            T::lemma_format();
        }
        self.0.value_eq(T::one())
    }

    /// Returns whether this value is exactly negative one.
    pub fn is_neg_one(self) -> (r: bool)
        ensures
            r == (self@.spec_value() == -T::spec_unit()),
    {
        proof {
            use_type_invariant(&self);
            T::lemma_format();
        }
        self.0.value_eq(T::neg_one())
    }

    /// Returns the smaller of two signed unit interval values; `self` when
    /// they are equal.
    pub fn min(self, rhs: Self) -> (r: Self)
        ensures
            r == (if self@.spec_value() <= rhs@.spec_value() {
                self
            } else {
                rhs
            }),
    {
        proof {
            use_type_invariant(&self);
            use_type_invariant(&rhs);
        }
        if self.0.value_le(rhs.0) {
            self
        } else {
            rhs
        }
    }

    /// Returns the larger of two signed unit interval values; `self` when
    /// they are equal.
    pub fn max(self, rhs: Self) -> (r: Self)
        ensures
            r == (if self@.spec_value() >= rhs@.spec_value() {
                self
            } else {
                rhs
            }),
    {
        proof {
            use_type_invariant(&self);
            use_type_invariant(&rhs);
        }
        if rhs.0.value_le(self.0) {
            self
        } else {
            rhs
        }
    }

    /// Returns the absolute value, which lies in `[0, 1]`.
    pub fn abs(self) -> (r: UnitInterval<T>)
        ensures
            !r@.spec_is_sign_negative(),
            r@.spec_value() == (if self@.spec_value() < 0 {
                -self@.spec_value()
            } else {
                self@.spec_value()
            }),
    {
        proof {
            use_type_invariant(&self);
        }
        UnitInterval::new(self.0.abs()).unwrap()
    }

    /// Returns `-1.0` when the sign bit is set (including `-0.0`) and `1.0`
    /// otherwise.
    pub fn signum(self) -> (r: Self)
        ensures
            r@ == (if self@.spec_is_sign_negative() {
                T::spec_neg_one()
            } else {
                T::spec_one()
            }),
    {
        proof {
            use_type_invariant(&self);
            T::lemma_format();
        }
        Self(self.0.signum())
    }

    /// Returns this value with the sign bit of `sign`.
    pub fn copysign(self, sign: T) -> (r: Self)
        ensures
            r@.spec_is_sign_negative() == sign.spec_is_sign_negative(),
            sign.spec_is_sign_negative() ==> r@.spec_value() == (if self@.spec_value() < 0 {
                self@.spec_value()
            } else {
                -self@.spec_value()
            }),
            !sign.spec_is_sign_negative() ==> r@.spec_value() == (if self@.spec_value() < 0 {
                -self@.spec_value()
            } else {
                self@.spec_value()
            }),
    {
        proof {
            use_type_invariant(&self);
        }
        Self(self.0.copysign(sign))
    }

    /// Returns `true` if this value is positive zero or positive.
    pub fn is_sign_positive(self) -> (r: bool)
        ensures
            r == !self@.spec_is_sign_negative(),
            r ==> self@.spec_value() >= 0,
    {
        proof {
            use_type_invariant(&self);
            T::lemma_format();
        }
        !self.0.is_sign_negative()
    }

    /// Returns `true` if this value is negative zero or negative.
    pub fn is_sign_negative(self) -> (r: bool)
        ensures
            r == self@.spec_is_sign_negative(),
            r ==> self@.spec_value() <= 0,
    {
        proof {
            use_type_invariant(&self);
            T::lemma_format();
        }
        self.0.is_sign_negative()
    }

    /// Returns `true`; signed unit interval values are always finite.
    pub fn is_finite(self) -> (r: bool)
        ensures
            r,
    {
        proof {
            use_type_invariant(&self);
        }
        self.0.is_finite()
    }

    /// Returns `false`; signed unit interval values cannot be infinite.
    pub fn is_infinite(self) -> (r: bool)
        ensures
            !r,
    {
        proof {
            use_type_invariant(&self);
        }
        self.0.is_infinite()
    }

    /// Returns `false`; signed unit interval values cannot be `NaN`.
    pub fn is_nan(self) -> (r: bool)
        ensures
            !r,
    {
        proof {
            use_type_invariant(&self);
            T::lemma_format();
        }
        self.0.is_nan()
    }

    /// Returns `1 - self` as a float (in `[0, 2]`), computed as float
    /// subtraction.
    pub fn complement(self) -> (r: T)
        ensures
            r == T::spec_one().spec_sum(self@.spec_negate()),
            is_rounded_sum(r, T::spec_one(), self@.spec_negate()),
            rounds_to(r, T::spec_unit() - self@.spec_value(), 1),
    {
        proof {
            use_type_invariant(&self);
            T::lemma_format();
        }
        sum_small(T::one(), self.0.negate())
    }

    /// Returns the midpoint `(self + rhs) * 0.5`, computed as float
    /// operations: the sum is rounded, then halved and rounded.
    pub fn midpoint(self, rhs: Self) -> (r: Self)
        ensures
            r@ == self@.spec_sum(rhs@).spec_product(T::spec_half()),
            r@ == rhs@.spec_sum(self@).spec_product(T::spec_half()),
            is_rounded_sum(self@.spec_sum(rhs@), self@, rhs@),
            is_rounded_product(r@, self@.spec_sum(rhs@), T::spec_half()),
            is_in_signed_unit(r@),
    {
        proof {
            use_type_invariant(&self);
            use_type_invariant(&rhs);
            T::lemma_format();
        }
        let s = sum_small(self.0, rhs.0);
        proof {
            lemma_rounded_within(
                s,
                self@.spec_value() + rhs@.spec_value(),
                1,
                T::spec_two().spec_negate(),
                T::spec_two(),
            );
        }
        let m = product_small(s, T::half());
        proof {
            let vs = s.spec_value();
            let vh = T::spec_half().spec_value();
            let u = T::spec_unit();
            assert(-u * u <= vs * vh <= u * u) by (nonlinear_arith)
                requires
                    -2 * u <= vs <= 2 * u,
                    2 * vh == u,
                    vh >= 0,
            ;
            lemma_rounded_within(m, vs * vh, u, T::spec_neg_one(), T::spec_one());
        }
        Self(m)
    }

    /// Returns the absolute distance between two values as a float (in
    /// `[0, 2]`): the larger minus the smaller, computed as float
    /// subtraction. Its number is that of the float `(self - rhs).abs()`,
    /// and that of `(rhs - self).abs()`.
    pub fn distance_to(self, rhs: Self) -> (r: T)
        ensures
            r == (if self@.spec_value() >= rhs@.spec_value() {
                self@.spec_sum(rhs@.spec_negate())
            } else {
                rhs@.spec_sum(self@.spec_negate())
            }),
            rounds_to(r, distance(self@.spec_value(), rhs@.spec_value()), 1),
            r.spec_is_finite(),
            0 <= r.spec_value() <= T::spec_two().spec_value(),
            self@.spec_sum(rhs@.spec_negate()).spec_is_finite(),
            r.spec_value() == abs_value(self@.spec_sum(rhs@.spec_negate())),
            rhs@.spec_sum(self@.spec_negate()).spec_is_finite(),
            r.spec_value() == abs_value(rhs@.spec_sum(self@.spec_negate())),
    {
        proof {
            use_type_invariant(&self);
            use_type_invariant(&rhs);
            T::lemma_format();
        }
        let r = if rhs.0.value_le(self.0) {
            sum_small(self.0, rhs.0.negate())
        } else {
            sum_small(rhs.0, self.0.negate())
        };
        proof {
            lemma_rounded_within(r, distance(self@.spec_value(), rhs@.spec_value()), 1, T::spec_zero(), T::spec_two());
        }
        r
    }

    /// Adds two values, returning `None` if the float sum is outside
    /// `[-1, 1]`.
    pub fn checked_add(self, rhs: Self) -> (r: Option<Self>)
        ensures
            is_rounded_sum(self@.spec_sum(rhs@), self@, rhs@),
            self@.spec_sum(rhs@) == rhs@.spec_sum(self@),
            r is Some <==> is_in_signed_unit(self@.spec_sum(rhs@)),
            r matches Some(u) ==> u@ == self@.spec_sum(rhs@),
    {
        proof {
            use_type_invariant(&self);
            use_type_invariant(&rhs);
            T::lemma_format();
        }
        Self::new(sum_small(self.0, rhs.0))
    }

    /// Adds two values and clamps the float sum into `[-1, 1]`.
    pub fn saturating_add(self, rhs: Self) -> (r: Self)
        ensures
            is_rounded_sum(self@.spec_sum(rhs@), self@, rhs@),
            self@.spec_sum(rhs@) == rhs@.spec_sum(self@),
            r@ == clamped_signed_unit(self@.spec_sum(rhs@)),
    {
        proof {
            use_type_invariant(&self);
            use_type_invariant(&rhs);
            T::lemma_format();
        }
        Self::saturating(sum_small(self.0, rhs.0))
    }

    /// Subtracts `rhs`, returning `None` if the float difference is outside
    /// `[-1, 1]`.
    pub fn checked_sub(self, rhs: Self) -> (r: Option<Self>)
        ensures
            is_rounded_sum(self@.spec_sum(rhs@.spec_negate()), self@, rhs@.spec_negate()),
            rounds_to(self@.spec_sum(rhs@.spec_negate()), self@.spec_value() - rhs@.spec_value(), 1),
            r is Some <==> is_in_signed_unit(self@.spec_sum(rhs@.spec_negate())),
            r matches Some(u) ==> u@ == self@.spec_sum(rhs@.spec_negate()),
    {
        proof {
            use_type_invariant(&self);
            use_type_invariant(&rhs);
            T::lemma_format();
        }
        Self::new(sum_small(self.0, rhs.0.negate()))
    }

    /// Subtracts `rhs` and clamps the float difference into `[-1, 1]`.
    pub fn saturating_sub(self, rhs: Self) -> (r: Self)
        ensures
            is_rounded_sum(self@.spec_sum(rhs@.spec_negate()), self@, rhs@.spec_negate()),
            rounds_to(self@.spec_sum(rhs@.spec_negate()), self@.spec_value() - rhs@.spec_value(), 1),
            r@ == clamped_signed_unit(self@.spec_sum(rhs@.spec_negate())),
    {
        proof {
            use_type_invariant(&self);
            use_type_invariant(&rhs);
            T::lemma_format();
        }
        Self::saturating(sum_small(self.0, rhs.0.negate()))
    }

    /// Divides by `rhs`, returning `None` if the float quotient is outside
    /// `[-1, 1]`. Division by zero gives an infinity or `NaN`, so `None`.
    pub fn checked_div(self, rhs: Self) -> (r: Option<Self>)
        ensures
            is_ieee_quotient(self@.spec_quotient(rhs@), self@, rhs@),
            r is Some <==> is_in_signed_unit(self@.spec_quotient(rhs@)),
            r matches Some(u) ==> u@ == self@.spec_quotient(rhs@),
            rhs@.spec_value() == 0 ==> r is None,
    {
        proof {
            use_type_invariant(&self);
            use_type_invariant(&rhs);
            T::lemma_format();
        }
        Self::new(self.0.quotient(rhs.0))
    }

    /// Divides by `rhs` and clamps the float quotient into `[-1, 1]`: a
    /// nonzero number over zero gives one or negative one, and `0 / 0` gives
    /// zero.
    pub fn saturating_div(self, rhs: Self) -> (r: Self)
        ensures
            is_ieee_quotient(self@.spec_quotient(rhs@), self@, rhs@),
            r@ == clamped_signed_unit(self@.spec_quotient(rhs@)),
            rhs@.spec_value() == 0 && self@.spec_value() == 0 ==> r@ == T::spec_zero(),
            rhs@.spec_value() == 0 && self@.spec_value() != 0 ==> r@ == (
            if self@.spec_is_sign_negative() != rhs@.spec_is_sign_negative() {
                T::spec_neg_one()
            } else {
                T::spec_one()
            }),
    {
        proof {
            use_type_invariant(&self);
            use_type_invariant(&rhs);
            T::lemma_format();
        }
        Self::saturating(self.0.quotient(rhs.0))
    }

    /// Multiplies by an arbitrary float, returning `None` if the float
    /// product is outside `[-1, 1]`.
    pub fn checked_scale(self, factor: T) -> (r: Option<Self>)
        ensures
            is_ieee_product(self@.spec_product(factor), self@, factor),
            r is Some <==> is_in_signed_unit(self@.spec_product(factor)),
            r matches Some(u) ==> u@ == self@.spec_product(factor),
    {
        proof {
            use_type_invariant(&self);
        }
        Self::new(self.0.product(factor))
    }

    /// Multiplies by an arbitrary float and clamps the float product into
    /// `[-1, 1]`.
    pub fn saturating_scale(self, factor: T) -> (r: Self)
        ensures
            is_ieee_product(self@.spec_product(factor), self@, factor),
            r@ == clamped_signed_unit(self@.spec_product(factor)),
    {
        proof {
            use_type_invariant(&self);
        }
        Self::saturating(self.0.product(factor))
    }

    /// Linearly interpolates between `start` and `end`: zero returns
    /// `start`, one returns `end`, and any other value `t` returns
    /// `start + (end - start) * t`, computed as float operations.
    pub fn lerp(self, start: T, end: T) -> (r: T)
        ensures
            self@.spec_value() == 0 ==> r == start,
            self@.spec_value() == T::spec_unit() ==> r == end,
            self@.spec_value() != 0 && self@.spec_value() != T::spec_unit() ==> r
                == start.spec_sum(end.spec_sum(start.spec_negate()).spec_product(self@)),
            self@.spec_value() != 0 && self@.spec_value() != T::spec_unit() ==> is_ieee_sum(
                end.spec_sum(start.spec_negate()),
                end,
                start.spec_negate(),
            ),
            self@.spec_value() != 0 && self@.spec_value() != T::spec_unit() ==> is_ieee_product(
                end.spec_sum(start.spec_negate()).spec_product(self@),
                end.spec_sum(start.spec_negate()),
                self@,
            ),
            self@.spec_value() != 0 && self@.spec_value() != T::spec_unit() ==> is_ieee_sum(
                r,
                start,
                end.spec_sum(start.spec_negate()).spec_product(self@),
            ),
    {
        proof {
            T::lemma_format();
        }
        if self.is_zero() {
            return start;
        }
        if self.is_one() {
            return end;
        }
        let d = end.sum(start.negate());
        let p = d.product(self.0);
        start.sum(p)
    }
}

impl<T: UnitIntervalFloat> Clone for SignedUnitInterval<T> {
    fn clone(&self) -> (r: Self)
        ensures
            r == *self,
    {
        *self
    }
}

/// Returns [`SignedUnitInterval::zero`].
impl<T: UnitIntervalFloat> Default for SignedUnitInterval<T> {
    fn default() -> (r: Self)
        ensures
            r@ == T::spec_zero(),
    {
        Self::zero()
    }
}

/// Two values are equal when they are the same number; `-0.0` equals `+0.0`.
impl<T: UnitIntervalFloat> PartialEq for SignedUnitInterval<T> {
    fn eq(&self, other: &Self) -> (r: bool) {
        proof {
            use_type_invariant(self);
            use_type_invariant(other);
        }
        self.0.value_eq(other.0)
    }
}

impl<T: UnitIntervalFloat> PartialEqSpecImpl for SignedUnitInterval<T> {
    open spec fn obeys_eq_spec() -> bool {
        true
    }

    open spec fn eq_spec(&self, other: &Self) -> bool {
        self@.spec_value() == other@.spec_value()
    }
}

/// Negation flips the sign bit and stays inside `[-1, 1]`.
impl<T: UnitIntervalFloat> core::ops::Neg for SignedUnitInterval<T> {
    type Output = Self;

    fn neg(self) -> (r: Self)
        ensures
            r@.spec_value() == -self@.spec_value(),
            r@.spec_is_sign_negative() == !self@.spec_is_sign_negative(),
    {
        proof {
            use_type_invariant(&self);
        }
        Self(self.0.negate())
    }
}

impl<T: UnitIntervalFloat> NegSpecImpl for SignedUnitInterval<T> {
    open spec fn obeys_neg_spec() -> bool {
        true
    }

    open spec fn neg_req(self) -> bool {
        true
    }

    closed spec fn neg_spec(self) -> Self {
        SignedUnitInterval(self.0.spec_negate())
    }
}

/// Every unit interval value is a signed unit interval value.
impl<T: UnitIntervalFloat> From<UnitInterval<T>> for SignedUnitInterval<T> {
    fn from(u: UnitInterval<T>) -> (r: Self)
        ensures
            r@ == u@,
    {
        let v = u.get();
        proof {
            T::lemma_format();
        }
        Self(v)
    }
}

impl<T: UnitIntervalFloat> FromSpecImpl<UnitInterval<T>> for SignedUnitInterval<T> {
    open spec fn obeys_from_spec() -> bool {
        true
    }

    closed spec fn from_spec(u: UnitInterval<T>) -> Self {
        SignedUnitInterval(u@)
    }
}

/// Accepts a `binary32` pattern inside `[-1, 1]`.
impl TryFrom<u32> for SignedUnitInterval<u32> {
    type Error = SignedUnitIntervalError;

    fn try_from(value: u32) -> (r: Result<Self, Self::Error>)
        ensures
            r is Ok <==> is_in_signed_unit(value),
            r matches Ok(u) ==> u@ == value,
            r matches Err(e) ==> e == SignedUnitIntervalError,
    {
        match Self::new(value) {
            Some(u) => Ok(u),
            None => Err(SignedUnitIntervalError),
        }
    }
}

impl TryFromSpecImpl<u32> for SignedUnitInterval<u32> {
    open spec fn obeys_try_from_spec() -> bool {
        true
    }

    closed spec fn try_from_spec(v: u32) -> Result<Self, Self::Error> {
        if is_in_signed_unit(v) {
            Ok(SignedUnitInterval(v))
        } else {
            Err(SignedUnitIntervalError)
        }
    }
}

/// Accepts a `binary64` pattern inside `[-1, 1]`.
impl TryFrom<u64> for SignedUnitInterval<u64> {
    type Error = SignedUnitIntervalError;

    fn try_from(value: u64) -> (r: Result<Self, Self::Error>)
        ensures
            r is Ok <==> is_in_signed_unit(value),
            r matches Ok(u) ==> u@ == value,
            r matches Err(e) ==> e == SignedUnitIntervalError,
    {
        match Self::new(value) {
            Some(u) => Ok(u),
            None => Err(SignedUnitIntervalError),
        }
    }
}

impl TryFromSpecImpl<u64> for SignedUnitInterval<u64> {
    open spec fn obeys_try_from_spec() -> bool {
        true
    }

    closed spec fn try_from_spec(v: u64) -> Result<Self, Self::Error> {
        if is_in_signed_unit(v) {
            Ok(SignedUnitInterval(v))
        } else {
            Err(SignedUnitIntervalError)
        }
    }
}

/// The `f32` bits of the value.
impl From<SignedUnitInterval<u32>> for u32 {
    fn from(u: SignedUnitInterval<u32>) -> (r: u32)
        ensures
            r == u@,
    {
        u.get()
    }
}

impl FromSpecImpl<SignedUnitInterval<u32>> for u32 {
    open spec fn obeys_from_spec() -> bool {
        true
    }

    open spec fn from_spec(u: SignedUnitInterval<u32>) -> u32 {
        u@
    }
}

/// The `f64` bits of the value.
impl From<SignedUnitInterval<u64>> for u64 {
    fn from(u: SignedUnitInterval<u64>) -> (r: u64)
        ensures
            r == u@,
    {
        u.get()
    }
}

impl FromSpecImpl<SignedUnitInterval<u64>> for u64 {
    open spec fn obeys_from_spec() -> bool {
        true
    }

    open spec fn from_spec(u: SignedUnitInterval<u64>) -> u64 {
        u@
    }
}

/// The `f64` bits of the value of `f32` bits: the same number, exactly.
impl From<SignedUnitInterval<u32>> for u64 {
    fn from(u: SignedUnitInterval<u32>) -> (r: u64)
        ensures
            r == widened(u@),
            r.spec_value() == u@.spec_value() * scale_32_to_64(),
            r.spec_is_sign_negative() == u@.spec_is_sign_negative(),
    {
        widen(u.get())
    }
}

impl FromSpecImpl<SignedUnitInterval<u32>> for u64 {
    open spec fn obeys_from_spec() -> bool {
        true
    }

    open spec fn from_spec(u: SignedUnitInterval<u32>) -> u64 {
        widened(u@)
    }
}

/// Converts a value with `f32` bits into the value with the `f64` bits of
/// the same number, exactly.
impl From<SignedUnitInterval<u32>> for SignedUnitInterval<u64> {
    fn from(u: SignedUnitInterval<u32>) -> (r: Self)
        ensures
            r@ == widened(u@),
            r@.spec_value() == u@.spec_value() * scale_32_to_64(),
            r@.spec_is_sign_negative() == u@.spec_is_sign_negative(),
    {
        SignedUnitInterval(widen(u.get()))
    }
}

impl FromSpecImpl<SignedUnitInterval<u32>> for SignedUnitInterval<u64> {
    open spec fn obeys_from_spec() -> bool {
        true
    }

    closed spec fn from_spec(u: SignedUnitInterval<u32>) -> Self {
        SignedUnitInterval(widened(u@))
    }
}

/// Converts a value with `f64` bits into the value with the `f32` bits of
/// the nearest `f32` number, ties to the even pattern.
impl From<SignedUnitInterval<u64>> for SignedUnitInterval<u32> {
    fn from(u: SignedUnitInterval<u64>) -> (r: Self)
        ensures
            r@ == narrowed(u@),
            r@.spec_is_sign_negative() == u@.spec_is_sign_negative(),
            rounds_to(r@, u@.spec_value(), scale_32_to_64()),
    {
        SignedUnitInterval(narrow(u.get()))
    }
}

impl FromSpecImpl<SignedUnitInterval<u64>> for SignedUnitInterval<u32> {
    open spec fn obeys_from_spec() -> bool {
        true
    }

    closed spec fn from_spec(u: SignedUnitInterval<u64>) -> Self {
        SignedUnitInterval(narrowed(u@))
    }
}

/// Multiplies two signed unit interval values as floats (rounded to
/// nearest, ties to even); the product stays in `[-1, 1]`.
impl<T: UnitIntervalFloat> core::ops::Mul for SignedUnitInterval<T> {
    type Output = Self;

    fn mul(self, rhs: Self) -> (r: Self)
        ensures
            r@ == self@.spec_product(rhs@),
            r@ == rhs@.spec_product(self@),
            is_rounded_product(r@, self@, rhs@),
            is_in_signed_unit(r@),
    {
        proof {
            use_type_invariant(&self);
            use_type_invariant(&rhs);
        }
        Self(signed_product(self.0, rhs.0))
    }
}

impl<T: UnitIntervalFloat> MulSpecImpl for SignedUnitInterval<T> {
    open spec fn obeys_mul_spec() -> bool {
        true
    }

    open spec fn mul_req(self, rhs: Self) -> bool {
        true
    }

    closed spec fn mul_spec(self, rhs: Self) -> Self {
        SignedUnitInterval(self.0.spec_product(rhs.0))
    }
}

/// Multiplies a signed unit interval value by a unit interval value as
/// floats; the product stays in `[-1, 1]`.
impl<T: UnitIntervalFloat> core::ops::Mul<UnitInterval<T>> for SignedUnitInterval<T> {
    type Output = Self;

    fn mul(self, rhs: UnitInterval<T>) -> (r: Self)
        ensures
            r@ == self@.spec_product(rhs@),
            r@ == rhs@.spec_product(self@),
            is_rounded_product(r@, self@, rhs@),
            is_in_signed_unit(r@),
    {
        proof {
            use_type_invariant(&self);
        }
        let v = rhs.get();
        proof {
            T::lemma_format();
        }
        Self(signed_product(self.0, v))
    }
}

impl<T: UnitIntervalFloat> MulSpecImpl<UnitInterval<T>> for SignedUnitInterval<T> {
    open spec fn obeys_mul_spec() -> bool {
        true
    }

    open spec fn mul_req(self, rhs: UnitInterval<T>) -> bool {
        true
    }

    closed spec fn mul_spec(self, rhs: UnitInterval<T>) -> Self {
        SignedUnitInterval(self.0.spec_product(rhs@))
    }
}

/// Multiplies a unit interval value by a signed unit interval value as
/// floats; the product stays in `[-1, 1]`.
impl<T: UnitIntervalFloat> core::ops::Mul<SignedUnitInterval<T>> for UnitInterval<T> {
    type Output = SignedUnitInterval<T>;

    fn mul(self, rhs: SignedUnitInterval<T>) -> (r: SignedUnitInterval<T>)
        ensures
            r@ == self@.spec_product(rhs@),
            r@ == rhs@.spec_product(self@),
            is_rounded_product(r@, self@, rhs@),
            is_in_signed_unit(r@),
    {
        proof {
            use_type_invariant(&rhs);
        }
        let v = self.get();
        proof {
            T::lemma_format();
        }
        SignedUnitInterval(signed_product(v, rhs.0))
    }
}

impl<T: UnitIntervalFloat> MulSpecImpl<SignedUnitInterval<T>> for UnitInterval<T> {
    open spec fn obeys_mul_spec() -> bool {
        true
    }

    open spec fn mul_req(self, rhs: SignedUnitInterval<T>) -> bool {
        true
    }

    closed spec fn mul_spec(self, rhs: SignedUnitInterval<T>) -> SignedUnitInterval<T> {
        SignedUnitInterval(self@.spec_product(rhs.0))
    }
}

/// The float product of two numbers in `[-1, 1]`, which lies in `[-1, 1]`.
fn signed_product<T: UnitIntervalFloat>(a: T, b: T) -> (r: T)
    requires
        is_in_signed_unit(a),
        is_in_signed_unit(b),
    ensures
        r == a.spec_product(b),
        r == b.spec_product(a),
        is_rounded_product(r, a, b),
        is_in_signed_unit(r),
{
    proof {
        T::lemma_format();
    }
    let p = product_small(a, b);
    proof {
        let va = a.spec_value();
        let vb = b.spec_value();
        let u = T::spec_unit();
        assert(-u * u <= va * vb <= u * u) by (nonlinear_arith)
            requires
                -u <= va <= u,
                -u <= vb <= u,
        ;
        lemma_rounded_within(p, va * vb, u, T::spec_neg_one(), T::spec_one());
    }
    p
}

/// Adds two signed unit interval values as floats; the sum, in `[-2, 2]`,
/// is a plain float.
impl<T: UnitIntervalFloat> core::ops::Add for SignedUnitInterval<T> {
    type Output = T;

    fn add(self, rhs: Self) -> (r: T)
        ensures
            r == self@.spec_sum(rhs@),
            r == rhs@.spec_sum(self@),
            is_rounded_sum(r, self@, rhs@),
    {
        proof {
            use_type_invariant(&self);
            use_type_invariant(&rhs);
            T::lemma_format();
        }
        sum_small(self.0, rhs.0)
    }
}

impl<T: UnitIntervalFloat> AddSpecImpl for SignedUnitInterval<T> {
    open spec fn obeys_add_spec() -> bool {
        true
    }

    open spec fn add_req(self, rhs: Self) -> bool {
        true
    }

    closed spec fn add_spec(self, rhs: Self) -> T {
        self.0.spec_sum(rhs.0)
    }
}

/// Adds a unit interval value to a signed unit interval value as floats.
impl<T: UnitIntervalFloat> core::ops::Add<UnitInterval<T>> for SignedUnitInterval<T> {
    type Output = T;

    fn add(self, rhs: UnitInterval<T>) -> (r: T)
        ensures
            r == self@.spec_sum(rhs@),
            r == rhs@.spec_sum(self@),
            is_rounded_sum(r, self@, rhs@),
    {
        proof {
            use_type_invariant(&self);
            T::lemma_format();
        }
        sum_small(self.0, rhs.get())
    }
}

impl<T: UnitIntervalFloat> AddSpecImpl<UnitInterval<T>> for SignedUnitInterval<T> {
    open spec fn obeys_add_spec() -> bool {
        true
    }

    open spec fn add_req(self, rhs: UnitInterval<T>) -> bool {
        true
    }

    closed spec fn add_spec(self, rhs: UnitInterval<T>) -> T {
        self.0.spec_sum(rhs@)
    }
}

/// Adds a signed unit interval value to a unit interval value as floats.
impl<T: UnitIntervalFloat> core::ops::Add<SignedUnitInterval<T>> for UnitInterval<T> {
    type Output = T;

    fn add(self, rhs: SignedUnitInterval<T>) -> (r: T)
        ensures
            r == self@.spec_sum(rhs@),
            r == rhs@.spec_sum(self@),
            is_rounded_sum(r, self@, rhs@),
    {
        proof {
            use_type_invariant(&rhs);
            T::lemma_format();
        }
        sum_small(self.get(), rhs.0)
    }
}

impl<T: UnitIntervalFloat> AddSpecImpl<SignedUnitInterval<T>> for UnitInterval<T> {
    open spec fn obeys_add_spec() -> bool {
        true
    }

    open spec fn add_req(self, rhs: SignedUnitInterval<T>) -> bool {
        true
    }

    closed spec fn add_spec(self, rhs: SignedUnitInterval<T>) -> T {
        self@.spec_sum(rhs.0)
    }
}

/// Subtracts two signed unit interval values as floats; the difference, in
/// `[-2, 2]`, is a plain float.
impl<T: UnitIntervalFloat> core::ops::Sub for SignedUnitInterval<T> {
    type Output = T;

    fn sub(self, rhs: Self) -> (r: T)
        ensures
            r == self@.spec_sum(rhs@.spec_negate()),
            is_rounded_sum(r, self@, rhs@.spec_negate()),
            rounds_to(r, self@.spec_value() - rhs@.spec_value(), 1),
    {
        proof {
            use_type_invariant(&self);
            use_type_invariant(&rhs);
            T::lemma_format();
        }
        sum_small(self.0, rhs.0.negate())
    }
}

impl<T: UnitIntervalFloat> SubSpecImpl for SignedUnitInterval<T> {
    open spec fn obeys_sub_spec() -> bool {
        true
    }

    open spec fn sub_req(self, rhs: Self) -> bool {
        true
    }

    closed spec fn sub_spec(self, rhs: Self) -> T {
        self.0.spec_sum(rhs.0.spec_negate())
    }
}

/// Subtracts a unit interval value from a signed unit interval value as
/// floats.
impl<T: UnitIntervalFloat> core::ops::Sub<UnitInterval<T>> for SignedUnitInterval<T> {
    type Output = T;

    fn sub(self, rhs: UnitInterval<T>) -> (r: T)
        ensures
            r == self@.spec_sum(rhs@.spec_negate()),
            is_rounded_sum(r, self@, rhs@.spec_negate()),
            rounds_to(r, self@.spec_value() - rhs@.spec_value(), 1),
    {
        proof {
            use_type_invariant(&self);
            T::lemma_format();
        }
        let v = rhs.get();
        sum_small(self.0, v.negate())
    }
}

impl<T: UnitIntervalFloat> SubSpecImpl<UnitInterval<T>> for SignedUnitInterval<T> {
    open spec fn obeys_sub_spec() -> bool {
        true
    }

    open spec fn sub_req(self, rhs: UnitInterval<T>) -> bool {
        true
    }

    closed spec fn sub_spec(self, rhs: UnitInterval<T>) -> T {
        self.0.spec_sum(rhs@.spec_negate())
    }
}

/// Subtracts a signed unit interval value from a unit interval value as
/// floats.
impl<T: UnitIntervalFloat> core::ops::Sub<SignedUnitInterval<T>> for UnitInterval<T> {
    type Output = T;

    fn sub(self, rhs: SignedUnitInterval<T>) -> (r: T)
        ensures
            r == self@.spec_sum(rhs@.spec_negate()),
            is_rounded_sum(r, self@, rhs@.spec_negate()),
            rounds_to(r, self@.spec_value() - rhs@.spec_value(), 1),
    {
        proof {
            use_type_invariant(&rhs);
            T::lemma_format();
        }
        let v = self.get();
        sum_small(v, rhs.0.negate())
    }
}

impl<T: UnitIntervalFloat> SubSpecImpl<SignedUnitInterval<T>> for UnitInterval<T> {
    open spec fn obeys_sub_spec() -> bool {
        true
    }

    open spec fn sub_req(self, rhs: SignedUnitInterval<T>) -> bool {
        true
    }

    closed spec fn sub_spec(self, rhs: SignedUnitInterval<T>) -> T {
        self@.spec_sum(rhs.0.spec_negate())
    }
}

/// Divides two signed unit interval values as floats; the quotient is a
/// plain float.
impl<T: UnitIntervalFloat> core::ops::Div for SignedUnitInterval<T> {
    type Output = T;

    fn div(self, rhs: Self) -> (r: T)
        ensures
            r == self@.spec_quotient(rhs@),
            is_ieee_quotient(r, self@, rhs@),
    {
        proof {
            use_type_invariant(&self);
            use_type_invariant(&rhs);
        }
        let a = self.0;
        let b = rhs.0;
        a.quotient(b)
    }
}

impl<T: UnitIntervalFloat> DivSpecImpl for SignedUnitInterval<T> {
    open spec fn obeys_div_spec() -> bool {
        true
    }

    open spec fn div_req(self, rhs: Self) -> bool {
        true
    }

    closed spec fn div_spec(self, rhs: Self) -> T {
        self.0.spec_quotient(rhs.0)
    }
}

/// Divides a signed unit interval value by a unit interval value as floats.
impl<T: UnitIntervalFloat> core::ops::Div<UnitInterval<T>> for SignedUnitInterval<T> {
    type Output = T;

    fn div(self, rhs: UnitInterval<T>) -> (r: T)
        ensures
            r == self@.spec_quotient(rhs@),
            is_ieee_quotient(r, self@, rhs@),
    {
        proof {
            use_type_invariant(&self);
        }
        let a = self.0;
        let b = rhs.get();
        a.quotient(b)
    }
}

impl<T: UnitIntervalFloat> DivSpecImpl<UnitInterval<T>> for SignedUnitInterval<T> {
    open spec fn obeys_div_spec() -> bool {
        true
    }

    open spec fn div_req(self, rhs: UnitInterval<T>) -> bool {
        true
    }

    closed spec fn div_spec(self, rhs: UnitInterval<T>) -> T {
        self.0.spec_quotient(rhs@)
    }
}

/// Divides a unit interval value by a signed unit interval value as floats.
impl<T: UnitIntervalFloat> core::ops::Div<SignedUnitInterval<T>> for UnitInterval<T> {
    type Output = T;

    fn div(self, rhs: SignedUnitInterval<T>) -> (r: T)
        ensures
            r == self@.spec_quotient(rhs@),
            is_ieee_quotient(r, self@, rhs@),
    {
        proof {
            use_type_invariant(&rhs);
        }
        let a = self.get();
        let b = rhs.0;
        a.quotient(b)
    }
}

impl<T: UnitIntervalFloat> DivSpecImpl<SignedUnitInterval<T>> for UnitInterval<T> {
    open spec fn obeys_div_spec() -> bool {
        true
    }

    open spec fn div_req(self, rhs: SignedUnitInterval<T>) -> bool {
        true
    }

    closed spec fn div_spec(self, rhs: SignedUnitInterval<T>) -> T {
        self@.spec_quotient(rhs.0)
    }
}

} // verus!
