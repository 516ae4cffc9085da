//! A float constrained to the closed unit interval `[0, 1]`.
use crate::float::{
    abs_value, clamped_unit, distance, is_ieee_product, is_ieee_quotient, is_ieee_sum, is_in_unit,
    is_rounded_product, is_rounded_sum, lemma_rounded_within, product_small,
    rounds_to, sum_small, UnitIntervalFloat,
};
use crate::signed_unit_interval::SignedUnitInterval;
use crate::convert::{
    narrow, narrowed, scale_32_to_64, widen, widened,
};
use vstd::prelude::*;
use vstd::std_specs::cmp::PartialEqSpecImpl;
use vstd::std_specs::convert::{FromSpecImpl, TryFromSpecImpl};
use vstd::std_specs::ops::MulSpecImpl;

verus! {

/// A floating-point value constrained to the closed unit interval `[0, 1]`,
/// held as the bit pattern of the float.
///
/// `UnitInterval` is useful for normalized values such as opacity, progress,
/// ratios, blend factors, and percentages represented as fractions. Its
/// value is never `NaN`.
#[derive(Debug, Copy)]
pub struct UnitInterval<T: UnitIntervalFloat>(T);

/// Error returned when converting an out-of-range value into a
/// [`UnitInterval`].
#[derive(Debug, Clone, Copy, PartialEq, Eq, Structural)]
pub struct UnitIntervalError;

impl UnitIntervalError {
    /// The message of the error: "value is outside the unit interval".
    pub fn to_string(&self) -> (r: String)
        ensures
            r@ == "value is outside the unit interval"@,
    {
        "value is outside the unit interval".to_owned()
    }
}

impl<T: UnitIntervalFloat> View for UnitInterval<T> {
    type V = T;

    /// The bit pattern of the value.
    closed spec fn view(&self) -> T {
        self.0
    }
}

impl<T: UnitIntervalFloat> UnitInterval<T> {
    #[verifier::type_invariant]
    spec fn inv(self) -> bool {
        is_in_unit(self.0)
    }

    /// The lower bound of the unit interval, `+0.0`.
    pub fn zero() -> (r: Self)
        ensures
            r@ == T::spec_zero(),
    {
        proof {
            T::lemma_format();
        }
        Self(T::zero())
    }

    /// The upper bound of the unit interval, `1.0`.
    pub fn one() -> (r: Self)
        ensures
            r@ == T::spec_one(),
    {
        proof {
            T::lemma_format();
        }
        Self(T::one())
    }

    /// The midpoint of the unit interval, `0.5`.
    pub fn half() -> (r: Self)
        ensures
            r@ == T::spec_half(),
    {
        proof {
            T::lemma_format();
        }
        Self(T::half())
    }

    /// Creates a value if `v` is inside `[0, 1]`.
    ///
    /// Returns `None` for values outside the interval and for `NaN`.
    pub fn new(v: T) -> (r: Option<Self>)
        ensures
            r is Some <==> is_in_unit(v),
            r matches Some(u) ==> u@ == v,
    {
        if Self::contains(v) {
            Some(Self(v))
        } else {
            None
        }
    }

    /// Returns whether `v` is inside `[0, 1]`.
    ///
    /// `NaN` is not contained in the interval.
    pub fn contains(v: T) -> (r: bool)
        ensures
            r == is_in_unit(v),
    {
        v.in_unit()
    }

    /// Creates a value by clamping `v` into `[0, 1]`.
    ///
    /// `NaN` is treated as zero.
    pub fn saturating(v: T) -> (r: Self)
        ensures
            r@ == clamped_unit(v),
    {
        proof {
            T::lemma_format();
        }
        Self(v.clamp_unit())
    }

    /// Returns the inner value.
    pub fn get(self) -> (r: T)
        ensures
            r == self@,
            is_in_unit(r),
    {
        proof {
            use_type_invariant(&self);
        }
        self.0
    }

    /// Consumes the wrapper and returns the inner value.
    pub fn into_inner(self) -> (r: T)
        ensures
            r == self@,
            is_in_unit(r),
    {
        proof {
            use_type_invariant(&self);
        }
        self.0
    }

    /// Returns whether this value is exactly zero (`+0.0` or `-0.0`).
    pub fn is_zero(self) -> (r: bool)
        ensures
            r == (self@.spec_value() == 0),
    {
        proof {
            use_type_invariant(&self);
            T::lemma_format();
        }
        self.0.value_eq(T::zero())
    }

    /// Returns whether this value is exactly one.
    pub fn is_one(self) -> (r: bool)
        ensures
            r == (self@.spec_value() == T::spec_unit()),
    {
        proof {
            use_type_invariant(&self);
            T::lemma_format();
        }
        self.0.value_eq(T::one())
    }

    /// Returns the smaller of two unit interval values; `self` when they are
    /// equal.
    pub fn min(self, rhs: Self) -> (r: Self)
        ensures
            r == (if self@.spec_value() <= rhs@.spec_value() {
                self
            } else {
                rhs
            }),
    {
        proof {
            use_type_invariant(&self);
            use_type_invariant(&rhs);
        }
        if self.0.value_le(rhs.0) {
            self
        } else {
            rhs
        }
    }

    /// Returns the larger of two unit interval values; `self` when they are
    /// equal.
    pub fn max(self, rhs: Self) -> (r: Self)
        ensures
            r == (if self@.spec_value() >= rhs@.spec_value() {
                self
            } else {
                rhs
            }),
    {
        proof {
            use_type_invariant(&self);
            use_type_invariant(&rhs);
        }
        if rhs.0.value_le(self.0) {
            self
        } else {
            rhs
        }
    }

    /// Returns `1 - self`, computed as float subtraction (rounded to
    /// nearest, ties to even); the result is never `-0.0`.
    pub fn complement(self) -> (r: Self)
        ensures
            r@ == T::spec_one().spec_sum(self@.spec_negate()),
            is_rounded_sum(r@, T::spec_one(), self@.spec_negate()),
            rounds_to(r@, T::spec_unit() - self@.spec_value(), 1),
            !r@.spec_is_sign_negative(),
            is_in_unit(r@),
    {
        proof {
            use_type_invariant(&self);
            T::lemma_format();
        }
        let c = sum_small(T::one(), self.0.negate());
        proof {
            lemma_rounded_within(c, T::spec_unit() - self@.spec_value(), 1, T::spec_zero(), T::spec_one());
        }
        Self(c)
    }

    /// Returns the midpoint `(self + rhs) * 0.5`, computed as float
    /// operations: the sum is rounded, then halved and rounded.
    pub fn midpoint(self, rhs: Self) -> (r: Self)
        ensures
            r@ == self@.spec_sum(rhs@).spec_product(T::spec_half()),
            r@ == rhs@.spec_sum(self@).spec_product(T::spec_half()),
            is_rounded_sum(self@.spec_sum(rhs@), self@, rhs@),
            is_rounded_product(r@, self@.spec_sum(rhs@), T::spec_half()),
            is_in_unit(r@),
    {
        proof {
            use_type_invariant(&self);
            use_type_invariant(&rhs);
            T::lemma_format();
        }
        let s = sum_small(self.0, rhs.0);
        proof {
            lemma_rounded_within(s, self@.spec_value() + rhs@.spec_value(), 1, T::spec_zero(), T::spec_two());
        }
        let m = product_small(s, T::half());
        proof {
            let vs = s.spec_value();
            let vh = T::spec_half().spec_value();
            let u = T::spec_unit();
            assert(0 <= vs * vh <= u * u) by (nonlinear_arith)
                requires
                    0 <= vs <= 2 * u,
                    2 * vh == u,
                    vh >= 0,
            ;
            lemma_rounded_within(m, vs * vh, u, T::spec_zero(), T::spec_one());
        }
        Self(m)
    }

    /// Returns the absolute distance between two values: the larger minus
    /// the smaller, computed as float subtraction. Its number is that of the
    /// float `(self - rhs).abs()`, and that of `(rhs - self).abs()`.
    pub fn distance_to(self, rhs: Self) -> (r: Self)
        ensures
            r@ == (if self@.spec_value() >= rhs@.spec_value() {
                self@.spec_sum(rhs@.spec_negate())
            } else {
                rhs@.spec_sum(self@.spec_negate())
            }),
            rounds_to(r@, distance(self@.spec_value(), rhs@.spec_value()), 1),
            is_in_unit(r@),
            self@.spec_sum(rhs@.spec_negate()).spec_is_finite(),
            r@.spec_value() == abs_value(self@.spec_sum(rhs@.spec_negate())),
            rhs@.spec_sum(self@.spec_negate()).spec_is_finite(),
            r@.spec_value() == abs_value(rhs@.spec_sum(self@.spec_negate())),
    {
        proof {
            use_type_invariant(&self);
            use_type_invariant(&rhs);
            T::lemma_format();
        }
        let d = if rhs.0.value_le(self.0) {
            sum_small(self.0, rhs.0.negate())
        } else {
            sum_small(rhs.0, self.0.negate())
        };
        proof {
            lemma_rounded_within(d, distance(self@.spec_value(), rhs@.spec_value()), 1, T::spec_zero(), T::spec_one());
        }
        Self(d)
    }

    /// Adds two values, returning `None` if the float sum is outside
    /// `[0, 1]`.
    pub fn checked_add(self, rhs: Self) -> (r: Option<Self>)
        ensures
            is_rounded_sum(self@.spec_sum(rhs@), self@, rhs@),
            self@.spec_sum(rhs@) == rhs@.spec_sum(self@),
            r is Some <==> is_in_unit(self@.spec_sum(rhs@)),
            r matches Some(u) ==> u@ == self@.spec_sum(rhs@),
    {
        proof {
            use_type_invariant(&self);
            use_type_invariant(&rhs);
            T::lemma_format();
        }
        Self::new(sum_small(self.0, rhs.0))
    }

    /// Adds two values and clamps the float sum into `[0, 1]`.
    pub fn saturating_add(self, rhs: Self) -> (r: Self)
        ensures
            is_rounded_sum(self@.spec_sum(rhs@), self@, rhs@),
            self@.spec_sum(rhs@) == rhs@.spec_sum(self@),
            r@ == clamped_unit(self@.spec_sum(rhs@)),
    {
        proof {
            use_type_invariant(&self);
            use_type_invariant(&rhs);
            T::lemma_format();
        }
        Self::saturating(sum_small(self.0, rhs.0))
    }

    /// Subtracts `rhs`, returning `None` if the float difference is outside
    /// `[0, 1]`.
    pub fn checked_sub(self, rhs: Self) -> (r: Option<Self>)
        ensures
            is_rounded_sum(self@.spec_sum(rhs@.spec_negate()), self@, rhs@.spec_negate()),
            rounds_to(self@.spec_sum(rhs@.spec_negate()), self@.spec_value() - rhs@.spec_value(), 1),
            r is Some <==> is_in_unit(self@.spec_sum(rhs@.spec_negate())),
            r matches Some(u) ==> u@ == self@.spec_sum(rhs@.spec_negate()),
    {
        proof {
            use_type_invariant(&self);
            use_type_invariant(&rhs);
            T::lemma_format();
        }
        Self::new(sum_small(self.0, rhs.0.negate()))
    }

    /// Subtracts `rhs` and clamps the float difference into `[0, 1]`.
    pub fn saturating_sub(self, rhs: Self) -> (r: Self)
        ensures
            is_rounded_sum(self@.spec_sum(rhs@.spec_negate()), self@, rhs@.spec_negate()),
            rounds_to(self@.spec_sum(rhs@.spec_negate()), self@.spec_value() - rhs@.spec_value(), 1),
            r@ == clamped_unit(self@.spec_sum(rhs@.spec_negate())),
    {
        proof {
            use_type_invariant(&self);
            use_type_invariant(&rhs);
            T::lemma_format();
        }
        Self::saturating(sum_small(self.0, rhs.0.negate()))
    }

    /// Divides by `rhs`, returning `None` if the float quotient is outside
    /// `[0, 1]`. Division by zero gives an infinity or `NaN`, so `None`.
    pub fn checked_div(self, rhs: Self) -> (r: Option<Self>)
        ensures
            is_ieee_quotient(self@.spec_quotient(rhs@), self@, rhs@),
            r is Some <==> is_in_unit(self@.spec_quotient(rhs@)),
            r matches Some(u) ==> u@ == self@.spec_quotient(rhs@),
            rhs@.spec_value() == 0 ==> r is None,
    {
        proof {
            use_type_invariant(&self);
            use_type_invariant(&rhs);
            T::lemma_format();
        }
        Self::new(self.0.quotient(rhs.0))
    }

    /// Divides by `rhs` and clamps the float quotient into `[0, 1]`: a
    /// positive number over zero gives one, and `0 / 0` gives zero.
    pub fn saturating_div(self, rhs: Self) -> (r: Self)
        ensures
            is_ieee_quotient(self@.spec_quotient(rhs@), self@, rhs@),
            r@ == clamped_unit(self@.spec_quotient(rhs@)),
            rhs@.spec_value() == 0 && self@.spec_value() == 0 ==> r@ == T::spec_zero(),
            rhs@.spec_value() == 0 && self@.spec_value() > 0 ==> r@ == (
            if rhs@.spec_is_sign_negative() {
                T::spec_zero()
            } else {
                T::spec_one()
            }),
    {
        proof {
            use_type_invariant(&self);
            use_type_invariant(&rhs);
            T::lemma_format();
        }
        Self::saturating(self.0.quotient(rhs.0))
    }

    /// Multiplies by an arbitrary float, returning `None` if the float
    /// product is outside `[0, 1]`.
    pub fn checked_scale(self, factor: T) -> (r: Option<Self>)
        ensures
            is_ieee_product(self@.spec_product(factor), self@, factor),
            r is Some <==> is_in_unit(self@.spec_product(factor)),
            r matches Some(u) ==> u@ == self@.spec_product(factor),
    {
        proof {
            use_type_invariant(&self);
        }
        Self::new(self.0.product(factor))
    }

    /// Multiplies by an arbitrary float and clamps the float product into
    /// `[0, 1]`.
    pub fn saturating_scale(self, factor: T) -> (r: Self)
        ensures
            is_ieee_product(self@.spec_product(factor), self@, factor),
            r@ == clamped_unit(self@.spec_product(factor)),
    {
        proof {
            use_type_invariant(&self);
        }
        Self::saturating(self.0.product(factor))
    }

    /// Linearly interpolates between `start` and `end`: zero returns
    /// `start`, one returns `end`, and any other value `t` returns
    /// `start + (end - start) * t`, computed as float operations.
    pub fn lerp(self, start: T, end: T) -> (r: T)
        ensures
            self@.spec_value() == 0 ==> r == start,
            self@.spec_value() == T::spec_unit() ==> r == end,
            self@.spec_value() != 0 && self@.spec_value() != T::spec_unit() ==> r
                == start.spec_sum(end.spec_sum(start.spec_negate()).spec_product(self@)),
            self@.spec_value() != 0 && self@.spec_value() != T::spec_unit() ==> is_ieee_sum(
                end.spec_sum(start.spec_negate()),
                end,
                start.spec_negate(),
            ),
            self@.spec_value() != 0 && self@.spec_value() != T::spec_unit() ==> is_ieee_product(
                end.spec_sum(start.spec_negate()).spec_product(self@),
                end.spec_sum(start.spec_negate()),
                self@,
            ),
            self@.spec_value() != 0 && self@.spec_value() != T::spec_unit() ==> is_ieee_sum(
                r,
                start,
                end.spec_sum(start.spec_negate()).spec_product(self@),
            ),
    {
        proof {
            T::lemma_format();
        }
        if self.is_zero() {
            return start;
        }
        if self.is_one() {
            return end;
        }
        let d = end.sum(start.negate());
        let p = d.product(self.0);
        start.sum(p)
    }
}

impl<T: UnitIntervalFloat> Clone for UnitInterval<T> {
    fn clone(&self) -> (r: Self)
        ensures
            r == *self,
    {
        *self
    }
}

/// Returns [`UnitInterval::zero`].
impl<T: UnitIntervalFloat> Default for UnitInterval<T> {
    fn default() -> (r: Self)
        ensures
            r@ == T::spec_zero(),
    {
        Self::zero()
    }
}

/// Two values are equal when they are the same number; `-0.0` equals `+0.0`.
impl<T: UnitIntervalFloat> PartialEq for UnitInterval<T> {
    fn eq(&self, other: &Self) -> (r: bool) {
        proof {
            use_type_invariant(self);
            use_type_invariant(other);
        }
        self.0.value_eq(other.0)
    }
}

impl<T: UnitIntervalFloat> PartialEqSpecImpl for UnitInterval<T> {
    open spec fn obeys_eq_spec() -> bool {
        true
    }

    open spec fn eq_spec(&self, other: &Self) -> bool {
        self@.spec_value() == other@.spec_value()
    }
}

/// Accepts a `binary32` pattern inside `[0, 1]`.
impl TryFrom<u32> for UnitInterval<u32> {
    type Error = UnitIntervalError;

    fn try_from(value: u32) -> (r: Result<Self, Self::Error>)
        ensures
            r is Ok <==> is_in_unit(value),
            r matches Ok(u) ==> u@ == value,
            r matches Err(e) ==> e == UnitIntervalError,
    {
        match Self::new(value) {
            Some(u) => Ok(u),
            None => Err(UnitIntervalError),
        }
    }
}

impl TryFromSpecImpl<u32> for UnitInterval<u32> {
    open spec fn obeys_try_from_spec() -> bool {
        true
    }

    closed spec fn try_from_spec(v: u32) -> Result<Self, Self::Error> {
        if is_in_unit(v) {
            Ok(UnitInterval(v))
        } else {
            Err(UnitIntervalError)
        }
    }
}

/// Accepts a `binary64` pattern inside `[0, 1]`.
impl TryFrom<u64> for UnitInterval<u64> {
    type Error = UnitIntervalError;

    fn try_from(value: u64) -> (r: Result<Self, Self::Error>)
        ensures
            r is Ok <==> is_in_unit(value),
            r matches Ok(u) ==> u@ == value,
            r matches Err(e) ==> e == UnitIntervalError,
    {
        match Self::new(value) {
            Some(u) => Ok(u),
            None => Err(UnitIntervalError),
        }
    }
}

impl TryFromSpecImpl<u64> for UnitInterval<u64> {
    open spec fn obeys_try_from_spec() -> bool {
        true
    }

    closed spec fn try_from_spec(v: u64) -> Result<Self, Self::Error> {
        if is_in_unit(v) {
            Ok(UnitInterval(v))
        } else {
            Err(UnitIntervalError)
        }
    }
}

/// Accepts a signed value that also lies in `[0, 1]`.
impl<T: UnitIntervalFloat> TryFrom<SignedUnitInterval<T>> for UnitInterval<T> {
    type Error = UnitIntervalError;

    fn try_from(value: SignedUnitInterval<T>) -> (r: Result<Self, Self::Error>)
        ensures
            r is Ok <==> is_in_unit(value@),
            r matches Ok(u) ==> u@ == value@,
            r matches Err(e) ==> e == UnitIntervalError,
    {
        match Self::new(value.get()) {
            Some(u) => Ok(u),
            None => Err(UnitIntervalError),
        }
    }
}

impl<T: UnitIntervalFloat> TryFromSpecImpl<SignedUnitInterval<T>> for UnitInterval<T> {
    open spec fn obeys_try_from_spec() -> bool {
        true
    }

    closed spec fn try_from_spec(v: SignedUnitInterval<T>) -> Result<Self, Self::Error> {
        if is_in_unit(v@) {
            Ok(UnitInterval(v@))
        } else {
            Err(UnitIntervalError)
        }
    }
}

/// The `f32` bits of the value.
impl From<UnitInterval<u32>> for u32 {
    fn from(u: UnitInterval<u32>) -> (r: u32)
        ensures
            r == u@,
    {
        u.get()
    }
}

impl FromSpecImpl<UnitInterval<u32>> for u32 {
    open spec fn obeys_from_spec() -> bool {
        true
    }

    open spec fn from_spec(u: UnitInterval<u32>) -> u32 {
        u@
    }
}

/// The `f64` bits of the value.
impl From<UnitInterval<u64>> for u64 {
    fn from(u: UnitInterval<u64>) -> (r: u64)
        ensures
            r == u@,
    {
        u.get()
    }
}

impl FromSpecImpl<UnitInterval<u64>> for u64 {
    open spec fn obeys_from_spec() -> bool {
        true
    }

    open spec fn from_spec(u: UnitInterval<u64>) -> u64 {
        u@
    }
}

/// The `f64` bits of the value of `f32` bits: the same number, exactly.
impl From<UnitInterval<u32>> for u64 {
    fn from(u: UnitInterval<u32>) -> (r: u64)
        ensures
            r == widened(u@),
            r.spec_value() == u@.spec_value() * scale_32_to_64(),
            r.spec_is_sign_negative() == u@.spec_is_sign_negative(),
    {
        widen(u.get())
    }
}

impl FromSpecImpl<UnitInterval<u32>> for u64 {
    open spec fn obeys_from_spec() -> bool {
        true
    }

    open spec fn from_spec(u: UnitInterval<u32>) -> u64 {
        widened(u@)
    }
}

/// Converts a value with `f32` bits into the value with the `f64` bits of
/// the same number, exactly.
impl From<UnitInterval<u32>> for UnitInterval<u64> {
    fn from(u: UnitInterval<u32>) -> (r: Self)
        ensures
            r@ == widened(u@),
            r@.spec_value() == u@.spec_value() * scale_32_to_64(),
            r@.spec_is_sign_negative() == u@.spec_is_sign_negative(),
    {
        UnitInterval(widen(u.get()))
    }
}

impl FromSpecImpl<UnitInterval<u32>> for UnitInterval<u64> {
    open spec fn obeys_from_spec() -> bool {
        true
    }

    closed spec fn from_spec(u: UnitInterval<u32>) -> Self {
        UnitInterval(widened(u@))
    }
}

/// Converts a value with `f64` bits into the value with the `f32` bits of
/// the nearest `f32` number, ties to the even pattern.
impl From<UnitInterval<u64>> for UnitInterval<u32> {
    fn from(u: UnitInterval<u64>) -> (r: Self)
        ensures
            r@ == narrowed(u@),
            r@.spec_is_sign_negative() == u@.spec_is_sign_negative(),
            rounds_to(r@, u@.spec_value(), scale_32_to_64()),
    {
        UnitInterval(narrow(u.get()))
    }
}

impl FromSpecImpl<UnitInterval<u64>> for UnitInterval<u32> {
    open spec fn obeys_from_spec() -> bool {
        true
    }

    closed spec fn from_spec(u: UnitInterval<u64>) -> Self {
        UnitInterval(narrowed(u@))
    }
}

/// Multiplies two unit interval values as floats (rounded to nearest, ties
/// to even). Multiplication is an operator because the product of two
/// values in `[0, 1]` is also in `[0, 1]`.
impl<T: UnitIntervalFloat> core::ops::Mul for UnitInterval<T> {
    type Output = Self;

    fn mul(self, rhs: Self) -> (r: Self)
        ensures
            r@ == self@.spec_product(rhs@),
            r@ == rhs@.spec_product(self@),
            is_rounded_product(r@, self@, rhs@),
            is_in_unit(r@),
    {
        proof {
            use_type_invariant(&self);
            use_type_invariant(&rhs);
            T::lemma_format();
        }
        let p = product_small(self.0, rhs.0);
        proof {
            let va = self@.spec_value();
            let vb = rhs@.spec_value();
            let u = T::spec_unit();
            assert(0 <= va * vb <= u * u) by (nonlinear_arith)
                requires
                    0 <= va <= u,
                    0 <= vb <= u,
            ;
            lemma_rounded_within(p, va * vb, u, T::spec_zero(), T::spec_one());
        }
        UnitInterval(p)
    }
}

impl<T: UnitIntervalFloat> MulSpecImpl for UnitInterval<T> {
    open spec fn obeys_mul_spec() -> bool {
        true
    }

    open spec fn mul_req(self, rhs: Self) -> bool {
        true
    }

    closed spec fn mul_spec(self, rhs: Self) -> Self {
        UnitInterval(self.0.spec_product(rhs.0))
    }
}

} // verus!
