use unit_interval::{SignedUnitInterval, SignedUnitIntervalError, UnitInterval};

fn signed32(v: f32) -> SignedUnitInterval<u32> {
    SignedUnitInterval::new(v.to_bits()).unwrap()
}

fn svalue32(u: SignedUnitInterval<u32>) -> f32 {
    f32::from_bits(u.get())
}

#[test]
fn signed_unit_interval_constructors_accept_signed_unit_interval() {
    let default_width: SignedUnitInterval<u32> =
        SignedUnitInterval::new((-0.5f32).to_bits()).unwrap();

    assert_eq!(svalue32(default_width), -0.5);
    assert_eq!(
        SignedUnitInterval::<u32>::new((-1.0f32).to_bits()).map(svalue32),
        Some(-1.0)
    );
    assert_eq!(
        SignedUnitInterval::<u32>::new(0.0f32.to_bits()).map(svalue32),
        Some(0.0)
    );
    assert_eq!(
        SignedUnitInterval::<u32>::new(1.0f32.to_bits()).map(svalue32),
        Some(1.0)
    );
    assert_eq!(SignedUnitInterval::<u32>::new((-1.1f32).to_bits()), None);
    assert_eq!(SignedUnitInterval::<u32>::new(1.1f32.to_bits()), None);
    assert_eq!(SignedUnitInterval::<u32>::new(f32::NAN.to_bits()), None);
}

#[test]
fn signed_unit_interval_constants_conversions_and_helpers_work() {
    let unit = UnitInterval::<u32>::new(0.25f32.to_bits()).unwrap();
    let signed = SignedUnitInterval::from(unit);
    let back_to_unit = UnitInterval::try_from(signed).unwrap();
    let negative = SignedUnitInterval::<u32>::new((-0.25f32).to_bits()).unwrap();

    assert_eq!(
        SignedUnitInterval::<u32>::default(),
        SignedUnitInterval::zero()
    );
    assert!(SignedUnitInterval::<u32>::neg_one().is_neg_one());
    assert!(SignedUnitInterval::<u32>::zero().is_zero());
    assert!(SignedUnitInterval::<u32>::one().is_one());
    assert_eq!(
        svalue32(SignedUnitInterval::<u32>::saturating((-1.25f32).to_bits())),
        -1.0
    );
    assert_eq!(
        svalue32(SignedUnitInterval::<u32>::saturating(1.25f32.to_bits())),
        1.0
    );
    assert_eq!(
        svalue32(SignedUnitInterval::<u32>::saturating(f32::NAN.to_bits())),
        0.0
    );
    assert_eq!(svalue32(signed), 0.25);
    assert_eq!(back_to_unit, unit);
    assert!(UnitInterval::try_from(negative).is_err());
}

#[test]
fn signed_unit_interval_contains_matches_float_comparisons() {
    let samples: [f64; 14] = [
        0.0,
        -0.0,
        -1.0,
        1.0,
        -1.0 - f64::EPSILON,
        1.0 + f64::EPSILON,
        -0.75,
        0.75,
        f64::INFINITY,
        f64::NEG_INFINITY,
        f64::NAN,
        -f64::NAN,
        -f64::from_bits(1),
        -3.0,
    ];
    for v in samples {
        let expected = v >= -1.0 && v <= 1.0;
        assert_eq!(SignedUnitInterval::<u64>::contains(v.to_bits()), expected, "{v}");
        assert_eq!(SignedUnitInterval::<u64>::new(v.to_bits()).is_some(), expected, "{v}");
        let narrow = v as f32;
        let narrow_expected = narrow >= -1.0 && narrow <= 1.0;
        assert_eq!(
            SignedUnitInterval::<u32>::contains(narrow.to_bits()),
            narrow_expected,
            "{v}"
        );
    }
}

#[test]
fn signed_unit_interval_saturating_matches_float_clamp() {
    let samples: [f32; 9] = [
        -0.0,
        0.0,
        -0.75,
        -3.5,
        7.0,
        f32::INFINITY,
        f32::NEG_INFINITY,
        f32::NAN,
        -1.0,
    ];
    for v in samples {
        let expected = if v.is_nan() { 0.0 } else { v.clamp(-1.0, 1.0) };
        let got = SignedUnitInterval::<u32>::saturating(v.to_bits()).get();
        assert_eq!(got, expected.to_bits(), "{v}");
    }
}

#[test]
fn signed_unit_interval_min_max_and_predicates() {
    let negative = signed32(-0.75);
    let positive = signed32(0.5);

    assert_eq!(negative.min(positive), negative);
    assert_eq!(negative.max(positive), positive);
    assert_eq!(positive.min(negative), negative);
    assert!(SignedUnitInterval::<u64>::neg_one().is_neg_one());
    assert!(!negative.is_neg_one());
    assert!(signed32(-0.0).is_zero());
    assert_eq!(svalue32(SignedUnitInterval::<u32>::half()), 0.5);
}

#[test]
fn signed_unit_interval_sign_operations() {
    let negative = signed32(-0.5);

    let absolute: UnitInterval<u32> = negative.abs();
    assert_eq!(f32::from_bits(absolute.get()), 0.5);
    assert_eq!(svalue32(negative.signum()), -1.0);
    assert_eq!(svalue32(signed32(0.0).signum()), 1.0);
    assert_eq!(svalue32(signed32(-0.0).signum()), -1.0);
    assert_eq!(svalue32(negative.copysign(1.0f32.to_bits())), 0.5);
    assert_eq!(svalue32(signed32(0.25).copysign((-3.0f32).to_bits())), -0.25);
    assert_eq!(svalue32(-negative), 0.5);
    assert_eq!(svalue32(-signed32(1.0)), -1.0);
    assert_eq!((-signed32(0.0)).get(), (-0.0f32).to_bits());
    assert_eq!(-(-negative), negative);
    assert!(!negative.is_sign_positive());
    assert!(negative.is_sign_negative());
    assert!(signed32(-0.0).is_sign_negative());
    assert!(negative.is_finite());
    assert!(!negative.is_infinite());
    assert!(!negative.is_nan());

    let wide = SignedUnitInterval::<u64>::new((-0.5f64).to_bits()).unwrap();
    assert_eq!(f64::from_bits(wide.abs().get()), 0.5);
    assert_eq!(f64::from_bits((-wide).get()), 0.5);
}

#[test]
fn signed_unit_interval_try_from_bits() {
    let ok = SignedUnitInterval::<u64>::try_from((-1.0f64).to_bits()).unwrap();
    assert_eq!(f64::from_bits(ok.get()), -1.0);

    let err = SignedUnitInterval::<u32>::try_from((-1.5f32).to_bits()).unwrap_err();
    assert_eq!(err, SignedUnitIntervalError);
    assert_eq!(err.to_string(), "value is outside the signed unit interval");
}

#[test]
fn signed_unit_interval_constrained_results_return_constrained_types() {
    let negative = signed32(-0.5);
    let positive = signed32(0.5);
    let unit = UnitInterval::<u32>::new(0.5f32.to_bits()).unwrap();

    let negated: SignedUnitInterval<u32> = -negative;
    let signed_product: SignedUnitInterval<u32> = negative * positive;
    let mixed_product: SignedUnitInterval<u32> = negative * unit;
    let reverse_mixed_product: SignedUnitInterval<u32> = unit * negative;

    assert_eq!(svalue32(negated), 0.5);
    assert_eq!(svalue32(signed_product), -0.25);
    assert_eq!(svalue32(mixed_product), -0.25);
    assert_eq!(svalue32(reverse_mixed_product), -0.25);
}

#[test]
fn signed_unit_interval_checked_and_saturating_arithmetic_accept_unit_interval() {
    let negative = signed32(-0.75);
    let positive = signed32(0.75);
    let unit = UnitInterval::<u32>::new(0.5f32.to_bits()).unwrap();

    assert_eq!(negative.min(unit.into()), negative);
    assert_eq!(svalue32(negative.max(unit.into())), 0.5);
    assert_eq!(svalue32(negative.midpoint(unit.into())), -0.125);
    assert_eq!(f32::from_bits(negative.distance_to(unit.into())), 1.25);
    assert_eq!(svalue32(negative.checked_add(unit.into()).unwrap()), -0.25);
    assert_eq!(positive.checked_add(unit.into()), None);
    assert_eq!(svalue32(positive.saturating_add(unit.into())), 1.0);
    assert_eq!(negative.checked_sub(unit.into()), None);
    assert_eq!(svalue32(negative.saturating_sub(unit.into())), -1.0);
    assert_eq!(positive.checked_div(unit.into()), None);
    assert_eq!(svalue32(positive.saturating_div(unit.into())), 1.0);
}

#[test]
fn signed_unit_interval_unconstrained_operations_return_backing_float() {
    let negative = signed32(-0.75);
    let positive = signed32(0.75);
    let unit = UnitInterval::<u32>::new(0.5f32.to_bits()).unwrap();

    let sum: f32 = f32::from_bits(positive + positive);
    let mixed_sum: f32 = f32::from_bits(positive + unit);
    let quotient: f32 = f32::from_bits(positive / negative);
    let distance: f32 = f32::from_bits(negative.distance_to(positive));

    assert_eq!(sum, 1.5);
    assert_eq!(mixed_sum, 1.25);
    assert_eq!(quotient, -1.0);
    assert_eq!(distance, 1.5);
}
