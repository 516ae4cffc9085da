//! Invariant checks over raw float bits, as a fuzzer runs them: whatever
//! the bits, construction agrees with `contains`, saturation lands inside
//! the interval, and every operation on values inside keeps its result
//! inside (checked operations give `Some` exactly when the float result lies
//! inside).
//!
//! Each check computes its conditions at run time and is proved to return
//! `true`, so a fuzzing driver that asserts the result exercises the code
//! without being able to fail.
use crate::binary32::{value_32, TWO_32};
use crate::binary64::{value_64, TWO_64};
use crate::float::{
    abs_value, clamped_signed_unit, clamped_unit, is_in_signed_unit, is_in_unit, UnitIntervalFloat,
};
use crate::signed_unit_interval::SignedUnitInterval;
use crate::unit_interval::UnitInterval;
use vstd::prelude::*;

verus! {

/// The distance of `a` and `b` as `distance_to` computes it: the larger
/// minus the smaller, as float subtraction.
pub open spec fn distance_pattern<T: UnitIntervalFloat>(a: T, b: T) -> T {
    if a.spec_value() >= b.spec_value() {
        a.spec_sum(b.spec_negate())
    } else {
        b.spec_sum(a.spec_negate())
    }
}

/// What the unit interval checks verify of the floats with bits `a`, `b`
/// and `f`: saturating `a` lands in `[0, 1]`; when `a` lies in `[0, 1]`,
/// saturating its product with `f` does too, and when `b` also does, so do
/// the product, the complement, the midpoint and the distance, and the
/// saturated sum, difference and quotient. (The minimum and maximum are
/// operands, and a checked result is present exactly when the float result
/// lies inside, by the operations' contracts.)
pub open spec fn unit_checks_hold<T: UnitIntervalFloat>(a: T, b: T, f: T) -> bool {
    &&& is_in_unit(clamped_unit(a))
    &&& is_in_unit(a) ==> {
        &&& is_in_unit(clamped_unit(a.spec_product(f)))
        &&& is_in_unit(b) ==> {
            &&& is_in_unit(a.spec_product(b))
            &&& is_in_unit(T::spec_one().spec_sum(a.spec_negate()))
            &&& is_in_unit(a.spec_sum(b).spec_product(T::spec_half()))
            &&& is_in_unit(distance_pattern(a, b))
            &&& is_in_unit(clamped_unit(a.spec_sum(b)))
            &&& is_in_unit(clamped_unit(a.spec_sum(b.spec_negate())))
            &&& is_in_unit(clamped_unit(a.spec_quotient(b)))
        }
    }
}

/// What the signed unit interval checks verify of the floats with bits
/// `a`, `b` and `f`: saturating `a` lands in `[-1, 1]`; when `a` lies in
/// `[-1, 1]`, its absolute value lies in `[0, 1]`, its negation in
/// `[-1, 1]`, and saturating its product with `f` lands in `[-1, 1]`; when
/// `b` also does, the product and the midpoint lie in `[-1, 1]`, the
/// distance in `[0, 2]` with the number of the float `|a - b|`, and the
/// saturated sum, difference and quotient in `[-1, 1]`. (The minimum and
/// maximum are operands, `signum` and `copysign` give `±1` and `±|a|`, and a
/// checked result is present exactly when the float result lies inside, by
/// the operations' contracts.)
pub open spec fn signed_checks_hold<T: UnitIntervalFloat>(a: T, b: T, f: T) -> bool {
    &&& is_in_signed_unit(clamped_signed_unit(a))
    &&& is_in_signed_unit(a) ==> {
        &&& 0 <= abs_value(a) <= T::spec_unit()
        &&& -T::spec_unit() <= -a.spec_value() <= T::spec_unit()
        &&& is_in_signed_unit(clamped_signed_unit(a.spec_product(f)))
        &&& is_in_signed_unit(b) ==> {
            &&& is_in_signed_unit(a.spec_product(b))
            &&& is_in_signed_unit(a.spec_sum(b).spec_product(T::spec_half()))
            &&& distance_pattern(a, b).spec_is_finite()
            &&& 0 <= distance_pattern(a, b).spec_value() <= T::spec_two().spec_value()
            &&& a.spec_sum(b.spec_negate()).spec_is_finite()
            &&& distance_pattern(a, b).spec_value() == abs_value(a.spec_sum(b.spec_negate()))
            &&& is_in_signed_unit(clamped_signed_unit(a.spec_sum(b)))
            &&& is_in_signed_unit(clamped_signed_unit(a.spec_sum(b.spec_negate())))
            &&& is_in_signed_unit(clamped_signed_unit(a.spec_quotient(b)))
        }
    }
}

/// Checks the `UnitInterval<u32>` invariants on the `f32` values with the
/// given bits.
pub fn check_unit_f32(a_bits: u32, b_bits: u32, factor_bits: u32) -> (ok: bool)
    ensures
        ok == unit_checks_hold(a_bits, b_bits, factor_bits),
        ok,
{
    proof {
        <u32 as UnitIntervalFloat>::lemma_format();
    }
    let mut ok: bool = UnitInterval::<u32>::new(a_bits).is_some() == UnitInterval::<
        u32,
    >::contains(a_bits);
    ok = ok && UnitInterval::<u32>::contains(UnitInterval::<u32>::saturating(a_bits).get());
    if let Some(a) = UnitInterval::<u32>::new(a_bits) {
        ok = ok && assert_unit_f32_invariants(a);
        if let Some(b) = UnitInterval::<u32>::new(b_bits) {
            ok = ok && assert_unit_f32_invariants(b);
            ok = ok && assert_unit_f32_invariants(a * b);
            ok = ok && assert_unit_f32_invariants(a.complement());
            ok = ok && assert_unit_f32_invariants(a.min(b));
            ok = ok && assert_unit_f32_invariants(a.max(b));
            ok = ok && assert_unit_f32_invariants(a.midpoint(b));
            ok = ok && assert_unit_f32_invariants(a.distance_to(b));
            ok = ok && assert_checked_unit_f32(a.checked_add(b), a.get().sum(b.get()));
            ok = ok && assert_checked_unit_f32(
                a.checked_sub(b),
                a.get().sum(b.get().negate()),
            );
            ok = ok && assert_checked_unit_f32(a.checked_div(b), a.get().quotient(b.get()));
            ok = ok && assert_unit_f32_invariants(a.saturating_add(b));
            ok = ok && assert_unit_f32_invariants(a.saturating_sub(b));
            ok = ok && assert_unit_f32_invariants(a.saturating_div(b));
        }
        ok = ok && assert_checked_unit_f32(
            a.checked_scale(factor_bits),
            a.get().product(factor_bits),
        );
        ok = ok && assert_unit_f32_invariants(a.saturating_scale(factor_bits));
    }
    ok
}

/// Whether `value` lies in `[0, 1]` and is not `NaN`; it always does.
fn assert_unit_f32_invariants(value: UnitInterval<u32>) -> (ok: bool)
    ensures
        ok == (is_in_unit(value@) && !value@.spec_is_nan()),
        ok,
{
    proof {
        <u32 as UnitIntervalFloat>::lemma_format();
    }
    let inner = value.get();
    UnitInterval::<u32>::contains(inner) && !inner.is_nan()
}

/// Whether a checked result is `Some` exactly when the raw float result
/// lies in `[0, 1]` (a present value always keeps the invariants).
fn assert_checked_unit_f32(value: Option<UnitInterval<u32>>, raw: u32) -> (ok: bool)
    ensures
        ok == (value.is_some() == is_in_unit(raw)),
{
    let mut ok: bool = value.is_some() == UnitInterval::<u32>::contains(raw);
    if let Some(v) = value {
        ok = ok && assert_unit_f32_invariants(v);
    }
    ok
}

/// Checks the `SignedUnitInterval<u32>` invariants on the `f32` values with
/// the given bits.
#[verifier::spinoff_prover]
#[verifier::rlimit(60)]
pub fn check_signed_f32(a_bits: u32, b_bits: u32, factor_bits: u32) -> (ok: bool)
    ensures
        ok == signed_checks_hold(a_bits, b_bits, factor_bits),
        ok,
{
    proof {
        <u32 as UnitIntervalFloat>::lemma_format();
    }
    let mut ok: bool = SignedUnitInterval::<u32>::new(a_bits).is_some()
        == SignedUnitInterval::<u32>::contains(a_bits);
    ok = ok && SignedUnitInterval::<u32>::contains(
        SignedUnitInterval::<u32>::saturating(a_bits).get(),
    );
    if let Some(a) = SignedUnitInterval::<u32>::new(a_bits) {
        ok = ok && assert_signed_f32_invariants(a);
        ok = ok && assert_unit_f32_invariants(a.abs());
        ok = ok && assert_signed_f32_invariants(core::ops::Neg::neg(a));
        ok = ok && assert_signed_f32_invariants(a.signum());
        ok = ok && assert_signed_f32_invariants(a.copysign(factor_bits));
        if let Some(b) = SignedUnitInterval::<u32>::new(b_bits) {
            ok = ok && assert_signed_f32_invariants(b);
            ok = ok && assert_signed_f32_invariants(a * b);
            ok = ok && assert_signed_f32_invariants(a.min(b));
            ok = ok && assert_signed_f32_invariants(a.max(b));
            ok = ok && assert_signed_f32_invariants(a.midpoint(b));
            ok = ok && assert_signed_distance_f32(a.distance_to(b), a.get(), b.get());
            ok = ok && assert_checked_signed_f32(a.checked_add(b), a.get().sum(b.get()));
            ok = ok && assert_checked_signed_f32(
                a.checked_sub(b),
                a.get().sum(b.get().negate()),
            );
            ok = ok && assert_checked_signed_f32(a.checked_div(b), a.get().quotient(b.get()));
            ok = ok && assert_signed_f32_invariants(a.saturating_add(b));
            ok = ok && assert_signed_f32_invariants(a.saturating_sub(b));
            ok = ok && assert_signed_f32_invariants(a.saturating_div(b));
        }
        ok = ok && assert_checked_signed_f32(
            a.checked_scale(factor_bits),
            a.get().product(factor_bits),
        );
        ok = ok && assert_signed_f32_invariants(a.saturating_scale(factor_bits));
    }
    ok
}

/// Whether `value` lies in `[-1, 1]` and is not `NaN`; it always does.
fn assert_signed_f32_invariants(value: SignedUnitInterval<u32>) -> (ok: bool)
    ensures
        ok == (is_in_signed_unit(value@) && !value@.spec_is_nan()),
        ok,
{
    proof {
        <u32 as UnitIntervalFloat>::lemma_format();
    }
    let inner = value.get();
    SignedUnitInterval::<u32>::contains(inner) && !inner.is_nan()
}

/// Whether a checked result is `Some` exactly when the raw float result
/// lies in `[-1, 1]` (a present value always keeps the invariants).
fn assert_checked_signed_f32(value: Option<SignedUnitInterval<u32>>, raw: u32) -> (ok: bool)
    ensures
        ok == (value.is_some() == is_in_signed_unit(raw)),
{
    let mut ok: bool = value.is_some() == SignedUnitInterval::<u32>::contains(raw);
    if let Some(v) = value {
        ok = ok && assert_signed_f32_invariants(v);
    }
    ok
}

/// Whether `distance` lies in `[0, 2]` and equals `|a - b|` computed as
/// float operations; for the distance of `a` and `b` it always does.
fn assert_signed_distance_f32(distance: u32, a: u32, b: u32) -> (ok: bool)
    requires
        is_in_signed_unit(a),
        is_in_signed_unit(b),
        distance.spec_is_finite(),
        0 <= value_32(distance) <= value_32(TWO_32),
        a.spec_sum(b.spec_negate()).spec_is_finite(),
        value_32(distance) == abs_value(a.spec_sum(b.spec_negate())),
    ensures
        ok == (0 <= value_32(distance) <= value_32(TWO_32) && value_32(distance) == (if value_32(
            a.spec_sum(b.spec_negate()),
        ) < 0 {
            -value_32(a.spec_sum(b.spec_negate()))
        } else {
            value_32(a.spec_sum(b.spec_negate()))
        })),
        ok,
{
    proof {
        <u32 as UnitIntervalFloat>::lemma_format();
    }
    let d = a.sum(b.negate());
    let magnitude = d.abs();
    0u32.value_le(distance) && distance.value_le(TWO_32) && distance.value_eq(magnitude)
}

/// Checks the `UnitInterval<u64>` invariants on the `f64` values with the
/// given bits.
pub fn check_unit_f64(a_bits: u64, b_bits: u64, factor_bits: u64) -> (ok: bool)
    ensures
        ok == unit_checks_hold(a_bits, b_bits, factor_bits),
        ok,
{
    proof {
        <u64 as UnitIntervalFloat>::lemma_format();
    }
    let mut ok: bool = UnitInterval::<u64>::new(a_bits).is_some() == UnitInterval::<
        u64,
    >::contains(a_bits);
    ok = ok && UnitInterval::<u64>::contains(UnitInterval::<u64>::saturating(a_bits).get());
    if let Some(a) = UnitInterval::<u64>::new(a_bits) {
        ok = ok && assert_unit_f64_invariants(a);
        if let Some(b) = UnitInterval::<u64>::new(b_bits) {
            ok = ok && assert_unit_f64_invariants(b);
            ok = ok && assert_unit_f64_invariants(a * b);
            ok = ok && assert_unit_f64_invariants(a.complement());
            ok = ok && assert_unit_f64_invariants(a.min(b));
            ok = ok && assert_unit_f64_invariants(a.max(b));
            ok = ok && assert_unit_f64_invariants(a.midpoint(b));
            ok = ok && assert_unit_f64_invariants(a.distance_to(b));
            ok = ok && assert_checked_unit_f64(a.checked_add(b), a.get().sum(b.get()));
            ok = ok && assert_checked_unit_f64(
                a.checked_sub(b),
                a.get().sum(b.get().negate()),
            );
            ok = ok && assert_checked_unit_f64(a.checked_div(b), a.get().quotient(b.get()));
            ok = ok && assert_unit_f64_invariants(a.saturating_add(b));
            ok = ok && assert_unit_f64_invariants(a.saturating_sub(b));
            ok = ok && assert_unit_f64_invariants(a.saturating_div(b));
        }
        ok = ok && assert_checked_unit_f64(
            a.checked_scale(factor_bits),
            a.get().product(factor_bits),
        );
        ok = ok && assert_unit_f64_invariants(a.saturating_scale(factor_bits));
    }
    ok
}

/// Whether `value` lies in `[0, 1]` and is not `NaN`; it always does.
fn assert_unit_f64_invariants(value: UnitInterval<u64>) -> (ok: bool)
    ensures
        ok == (is_in_unit(value@) && !value@.spec_is_nan()),
        ok,
{
    proof {
        <u64 as UnitIntervalFloat>::lemma_format();
    }
    let inner = value.get();
    UnitInterval::<u64>::contains(inner) && !inner.is_nan()
}

/// Whether a checked result is `Some` exactly when the raw float result
/// lies in `[0, 1]` (a present value always keeps the invariants).
fn assert_checked_unit_f64(value: Option<UnitInterval<u64>>, raw: u64) -> (ok: bool)
    ensures
        ok == (value.is_some() == is_in_unit(raw)),
{
    let mut ok: bool = value.is_some() == UnitInterval::<u64>::contains(raw);
    if let Some(v) = value {
        ok = ok && assert_unit_f64_invariants(v);
    }
    ok
}

/// Checks the `SignedUnitInterval<u64>` invariants on the `f64` values with
/// the given bits.
#[verifier::spinoff_prover]
#[verifier::rlimit(60)]
pub fn check_signed_f64(a_bits: u64, b_bits: u64, factor_bits: u64) -> (ok: bool)
    ensures
        ok == signed_checks_hold(a_bits, b_bits, factor_bits),
        ok,
{
    proof {
        <u64 as UnitIntervalFloat>::lemma_format();
    }
    let mut ok: bool = SignedUnitInterval::<u64>::new(a_bits).is_some()
        == SignedUnitInterval::<u64>::contains(a_bits);
    ok = ok && SignedUnitInterval::<u64>::contains(
        SignedUnitInterval::<u64>::saturating(a_bits).get(),
    );
    if let Some(a) = SignedUnitInterval::<u64>::new(a_bits) {
        ok = ok && assert_signed_f64_invariants(a);
        ok = ok && assert_unit_f64_invariants(a.abs());
        ok = ok && assert_signed_f64_invariants(core::ops::Neg::neg(a));
        ok = ok && assert_signed_f64_invariants(a.signum());
        ok = ok && assert_signed_f64_invariants(a.copysign(factor_bits));
        if let Some(b) = SignedUnitInterval::<u64>::new(b_bits) {
            ok = ok && assert_signed_f64_invariants(b);
            ok = ok && assert_signed_f64_invariants(a * b);
            ok = ok && assert_signed_f64_invariants(a.min(b));
            ok = ok && assert_signed_f64_invariants(a.max(b));
            ok = ok && assert_signed_f64_invariants(a.midpoint(b));
            ok = ok && assert_signed_distance_f64(a.distance_to(b), a.get(), b.get());
            ok = ok && assert_checked_signed_f64(a.checked_add(b), a.get().sum(b.get()));
            ok = ok && assert_checked_signed_f64(
                a.checked_sub(b),
                a.get().sum(b.get().negate()),
            );
            ok = ok && assert_checked_signed_f64(a.checked_div(b), a.get().quotient(b.get()));
            ok = ok && assert_signed_f64_invariants(a.saturating_add(b));
            ok = ok && assert_signed_f64_invariants(a.saturating_sub(b));
            ok = ok && assert_signed_f64_invariants(a.saturating_div(b));
        }
        ok = ok && assert_checked_signed_f64(
            a.checked_scale(factor_bits),
            a.get().product(factor_bits),
        );
        ok = ok && assert_signed_f64_invariants(a.saturating_scale(factor_bits));
    }
    ok
}

/// Whether `value` lies in `[-1, 1]` and is not `NaN`; it always does.
fn assert_signed_f64_invariants(value: SignedUnitInterval<u64>) -> (ok: bool)
    ensures
        ok == (is_in_signed_unit(value@) && !value@.spec_is_nan()),
        ok,
{
    proof {
        <u64 as UnitIntervalFloat>::lemma_format();
    }
    let inner = value.get();
    SignedUnitInterval::<u64>::contains(inner) && !inner.is_nan()
}

/// Whether a checked result is `Some` exactly when the raw float result
/// lies in `[-1, 1]` (a present value always keeps the invariants).
fn assert_checked_signed_f64(value: Option<SignedUnitInterval<u64>>, raw: u64) -> (ok: bool)
    ensures
        ok == (value.is_some() == is_in_signed_unit(raw)),
{
    let mut ok: bool = value.is_some() == SignedUnitInterval::<u64>::contains(raw);
    if let Some(v) = value {
        ok = ok && assert_signed_f64_invariants(v);
    }
    ok
}

/// Whether `distance` lies in `[0, 2]` and equals `|a - b|` computed as
/// float operations; for the distance of `a` and `b` it always does.
fn assert_signed_distance_f64(distance: u64, a: u64, b: u64) -> (ok: bool)
    requires
        is_in_signed_unit(a),
        is_in_signed_unit(b),
        distance.spec_is_finite(),
        0 <= value_64(distance) <= value_64(TWO_64),
        a.spec_sum(b.spec_negate()).spec_is_finite(),
        value_64(distance) == abs_value(a.spec_sum(b.spec_negate())),
    ensures
        ok == (0 <= value_64(distance) <= value_64(TWO_64) && value_64(distance) == (if value_64(
            a.spec_sum(b.spec_negate()),
        ) < 0 {
            -value_64(a.spec_sum(b.spec_negate()))
        } else {
            value_64(a.spec_sum(b.spec_negate()))
        })),
        ok,
{
    proof {
        <u64 as UnitIntervalFloat>::lemma_format();
    }
    let d = a.sum(b.negate());
    let magnitude = d.abs();
    0u64.value_le(distance) && distance.value_le(TWO_64) && distance.value_eq(magnitude)
}

} // verus!
