//! Properties that hold across the operations of the interval types.
use crate::float::{
    clamped_signed_unit, clamped_unit, is_in_signed_unit, is_in_unit, UnitIntervalFloat,
};
use vstd::prelude::*;

verus! {

/// Saturating construction always lands inside `[0, 1]`, keeps values
/// already inside, turns `NaN` into zero, sends numbers below the interval
/// (including `-inf`) to zero and numbers above it (including `+inf`) to
/// one.
pub proof fn law_saturating_unit<T: UnitIntervalFloat>(v: T)
    ensures
        is_in_unit(clamped_unit(v)),
        is_in_unit(v) ==> clamped_unit(v) == v,
        v.spec_is_nan() ==> clamped_unit(v) == T::spec_zero(),
        v.spec_is_finite() && v.spec_value() < 0 ==> clamped_unit(v) == T::spec_zero(),
        v.spec_is_finite() && v.spec_value() > T::spec_unit() ==> clamped_unit(v)
            == T::spec_one(),
        !v.spec_is_nan() && !v.spec_is_finite() ==> clamped_unit(v) == (if v.spec_is_sign_negative() {
            T::spec_zero()
        } else {
            T::spec_one()
        }),
{
    T::lemma_format();
}

/// Saturating construction always lands inside `[-1, 1]`, keeps values
/// already inside, turns `NaN` into zero, sends numbers below the interval
/// (including `-inf`) to negative one and numbers above it (including
/// `+inf`) to one.
pub proof fn law_saturating_signed_unit<T: UnitIntervalFloat>(v: T)
    ensures
        is_in_signed_unit(clamped_signed_unit(v)),
        is_in_signed_unit(v) ==> clamped_signed_unit(v) == v,
        v.spec_is_nan() ==> clamped_signed_unit(v) == T::spec_zero(),
        v.spec_is_finite() && v.spec_value() < -T::spec_unit() ==> clamped_signed_unit(v)
            == T::spec_neg_one(),
        v.spec_is_finite() && v.spec_value() > T::spec_unit() ==> clamped_signed_unit(v)
            == T::spec_one(),
        !v.spec_is_nan() && !v.spec_is_finite() ==> clamped_signed_unit(v) == (
        if v.spec_is_sign_negative() {
            T::spec_neg_one()
        } else {
            T::spec_one()
        }),
{
    T::lemma_format();
}

/// Saturating twice is saturating once.
pub proof fn law_saturating_idempotent<T: UnitIntervalFloat>(v: T)
    ensures
        clamped_unit(clamped_unit(v)) == clamped_unit(v),
        clamped_signed_unit(clamped_signed_unit(v)) == clamped_signed_unit(v),
{
    law_saturating_unit(v);
    law_saturating_signed_unit(v);
    law_saturating_unit(clamped_unit(v));
    law_saturating_signed_unit(clamped_signed_unit(v));
}

/// `[0, 1]` lies inside `[-1, 1]`, so every unit interval value converts
/// into a signed unit interval value.
pub proof fn law_unit_within_signed_unit<T: UnitIntervalFloat>(v: T)
    requires
        is_in_unit(v),
    ensures
        is_in_signed_unit(v),
{
    T::lemma_format();
}

/// The named constants lie inside the intervals that name them: zero, one
/// half and one in `[0, 1]`, and also negative one in `[-1, 1]`.
pub proof fn law_constants_in_intervals<T: UnitIntervalFloat>()
    ensures
        is_in_unit(T::spec_zero()),
        is_in_unit(T::spec_half()),
        is_in_unit(T::spec_one()),
        is_in_signed_unit(T::spec_neg_one()),
        is_in_signed_unit(T::spec_zero()),
        is_in_signed_unit(T::spec_half()),
        is_in_signed_unit(T::spec_one()),
{
    T::lemma_format();
}

/// Negating twice gives back the pattern it started from.
pub proof fn law_negate_involution<T: UnitIntervalFloat>(v: T)
    ensures
        v.spec_negate().spec_negate() == v,
{
    T::lemma_format();
}

} // verus!
