use unit_interval::{SignedUnitInterval, UnitInterval, UnitIntervalError};

fn unit32(v: f32) -> UnitInterval<u32> {
    UnitInterval::new(v.to_bits()).unwrap()
}

fn value32(u: UnitInterval<u32>) -> f32 {
    f32::from_bits(u.get())
}

#[test]
fn unit_interval_f32_constructor_accepts_unit_interval() {
    let default_width: UnitInterval<u32> = UnitInterval::new(0.5f32.to_bits()).unwrap();

    assert_eq!(f32::from_bits(default_width.get()), 0.5);
    assert_eq!(
        UnitInterval::<u32>::new(0.0f32.to_bits()).map(|u| f32::from_bits(u.get())),
        Some(0.0)
    );
    assert_eq!(
        UnitInterval::<u32>::new(0.5f32.to_bits()).map(|u| f32::from_bits(u.get())),
        Some(0.5)
    );
    assert_eq!(
        UnitInterval::<u32>::new(1.0f32.to_bits()).map(|u| f32::from_bits(u.get())),
        Some(1.0)
    );
    assert_eq!(UnitInterval::<u32>::new((-0.1f32).to_bits()), None);
    assert_eq!(UnitInterval::<u32>::new(1.1f32.to_bits()), None);
}

#[test]
fn unit_interval_f64_constructor_accepts_unit_interval() {
    assert_eq!(
        UnitInterval::<u64>::new(0.0f64.to_bits()).map(|u| f64::from_bits(u.get())),
        Some(0.0)
    );
    assert_eq!(
        UnitInterval::<u64>::new(0.5f64.to_bits()).map(|u| f64::from_bits(u.get())),
        Some(0.5)
    );
    assert_eq!(
        UnitInterval::<u64>::new(1.0f64.to_bits()).map(|u| f64::from_bits(u.get())),
        Some(1.0)
    );
    assert_eq!(UnitInterval::<u64>::new((-0.1f64).to_bits()), None);
    assert_eq!(UnitInterval::<u64>::new(1.1f64.to_bits()), None);
}

#[test]
fn unit_interval_constructors_reject_nan() {
    assert_eq!(UnitInterval::<u32>::new(f32::NAN.to_bits()), None);
    assert_eq!(UnitInterval::<u64>::new(f64::NAN.to_bits()), None);
}

#[test]
fn unit_interval_saturating_clamps_for_both_float_widths() {
    assert_eq!(
        f32::from_bits(UnitInterval::<u32>::saturating((-0.1f32).to_bits()).get()),
        0.0
    );
    assert_eq!(
        f32::from_bits(UnitInterval::<u32>::saturating(1.1f32.to_bits()).get()),
        1.0
    );
    assert_eq!(
        f32::from_bits(UnitInterval::<u32>::saturating(f32::NAN.to_bits()).get()),
        0.0
    );
    assert_eq!(
        f64::from_bits(UnitInterval::<u64>::saturating((-0.1f64).to_bits()).get()),
        0.0
    );
    assert_eq!(
        f64::from_bits(UnitInterval::<u64>::saturating(1.1f64.to_bits()).get()),
        1.0
    );
    assert_eq!(
        f64::from_bits(UnitInterval::<u64>::saturating(f64::NAN.to_bits()).get()),
        0.0
    );
}

#[test]
fn unit_interval_contains_matches_float_comparisons() {
    let samples: [f32; 16] = [
        0.0,
        -0.0,
        0.25,
        0.5,
        1.0,
        1.0 + f32::EPSILON,
        1.0 - f32::EPSILON / 2.0,
        -f32::MIN_POSITIVE,
        f32::MIN_POSITIVE,
        f32::from_bits(1),
        -f32::from_bits(1),
        f32::INFINITY,
        f32::NEG_INFINITY,
        f32::NAN,
        -f32::NAN,
        2.0,
    ];
    for v in samples {
        let expected = v >= 0.0 && v <= 1.0;
        assert_eq!(UnitInterval::<u32>::contains(v.to_bits()), expected, "{v}");
        assert_eq!(UnitInterval::<u32>::new(v.to_bits()).is_some(), expected, "{v}");
        let wide = v as f64;
        assert_eq!(UnitInterval::<u64>::contains(wide.to_bits()), expected, "{v}");
    }
}

#[test]
fn unit_interval_saturating_matches_float_clamp() {
    let samples: [f64; 10] = [
        -0.0,
        0.0,
        0.75,
        -3.5,
        7.0,
        f64::INFINITY,
        f64::NEG_INFINITY,
        f64::NAN,
        f64::MIN_POSITIVE,
        1.0,
    ];
    for v in samples {
        let expected = if v.is_nan() { 0.0 } else { v.clamp(0.0, 1.0) };
        let got = UnitInterval::<u64>::saturating(v.to_bits()).get();
        assert_eq!(got, expected.to_bits(), "{v}");
    }
    // -0.0 is inside the interval and is kept as it is.
    assert_eq!(UnitInterval::<u32>::saturating((-0.0f32).to_bits()).get(), (-0.0f32).to_bits());
}

#[test]
fn unit_interval_constants_and_default() {
    assert_eq!(UnitInterval::<u32>::default(), UnitInterval::<u32>::zero());
    assert_eq!(value32(UnitInterval::<u32>::zero()), 0.0);
    assert_eq!(value32(UnitInterval::<u32>::half()), 0.5);
    assert_eq!(value32(UnitInterval::<u32>::one()), 1.0);
    assert_eq!(f64::from_bits(UnitInterval::<u64>::half().get()), 0.5);
    assert_eq!(f64::from_bits(UnitInterval::<u64>::one().into_inner()), 1.0);
    assert!(UnitInterval::<u32>::contains(0.5f32.to_bits()));
    assert!(!UnitInterval::<u32>::contains(1.5f32.to_bits()));
    assert!(UnitInterval::<u32>::zero().is_zero());
    assert!(UnitInterval::<u32>::one().is_one());
    assert!(!UnitInterval::<u32>::half().is_zero());
    assert!(!UnitInterval::<u32>::half().is_one());
}

#[test]
fn unit_interval_negative_zero_is_zero() {
    let negative_zero = unit32(-0.0);

    assert!(negative_zero.is_zero());
    assert_eq!(negative_zero, UnitInterval::<u32>::zero());
    assert_eq!(negative_zero.get(), (-0.0f32).to_bits());
}

#[test]
fn unit_interval_min_and_max_pick_by_value() {
    let low = unit32(0.25);
    let high = unit32(0.75);

    assert_eq!(low.min(high), low);
    assert_eq!(high.min(low), low);
    assert_eq!(low.max(high), high);
    assert_eq!(high.max(low), high);

    // On equal values the receiver is returned.
    let negative_zero = unit32(-0.0);
    let zero = unit32(0.0);
    assert_eq!(negative_zero.min(zero).get(), (-0.0f32).to_bits());
    assert_eq!(zero.max(negative_zero).get(), 0.0f32.to_bits());

    let tiny = UnitInterval::<u64>::new(f64::from_bits(1).to_bits()).unwrap();
    let zero64 = UnitInterval::<u64>::zero();
    assert_eq!(tiny.min(zero64), zero64);
    assert_eq!(tiny.max(zero64), tiny);
}

#[test]
fn unit_interval_try_from_bits() {
    let ok = UnitInterval::<u32>::try_from(0.5f32.to_bits()).unwrap();
    assert_eq!(value32(ok), 0.5);

    let err = UnitInterval::<u32>::try_from(1.5f32.to_bits()).unwrap_err();
    assert_eq!(err, UnitIntervalError);
    assert_eq!(err.to_string(), "value is outside the unit interval");

    assert!(UnitInterval::<u64>::try_from(f64::NAN.to_bits()).is_err());
    assert!(UnitInterval::<u64>::try_from(1.0f64.to_bits()).is_ok());
}

#[test]
fn unit_interval_try_from_signed_value() {
    let signed = SignedUnitInterval::<u32>::new(0.25f32.to_bits()).unwrap();
    let negative = SignedUnitInterval::<u32>::new((-0.25f32).to_bits()).unwrap();

    assert_eq!(value32(UnitInterval::try_from(signed).unwrap()), 0.25);
    assert_eq!(UnitInterval::try_from(negative), Err(UnitIntervalError));
}

#[test]
fn unit_interval_saturating_is_idempotent_and_keeps_members() {
    let samples: [f32; 8] = [-2.0, -0.0, 0.0, 0.3, 1.0, 4.0, f32::NAN, f32::INFINITY];
    for v in samples {
        let once = UnitInterval::<u32>::saturating(v.to_bits());
        let twice = UnitInterval::<u32>::saturating(once.get());
        assert_eq!(once.get(), twice.get(), "{v}");
        assert!(UnitInterval::<u32>::contains(once.get()), "{v}");
        if UnitInterval::<u32>::contains(v.to_bits()) {
            assert_eq!(once.get(), v.to_bits(), "{v}");
        }
    }
}

#[test]
fn unit_values_convert_into_signed_values_and_back() {
    for v in [0.0f64, -0.0, 0.125, 0.5, 1.0] {
        let unit = UnitInterval::<u64>::new(v.to_bits()).unwrap();
        let signed = SignedUnitInterval::from(unit);
        assert_eq!(signed.get(), unit.get());
        assert_eq!(UnitInterval::try_from(signed).unwrap().get(), unit.get());
    }
}

#[test]
fn unit_interval_constants_and_basic_helpers_work() {
    assert_eq!(UnitInterval::<u32>::default(), UnitInterval::<u32>::zero());
    assert_eq!(value32(UnitInterval::<u32>::zero()), 0.0);
    assert_eq!(value32(UnitInterval::<u32>::half()), 0.5);
    assert_eq!(value32(UnitInterval::<u32>::one()), 1.0);
    assert!(UnitInterval::<u32>::contains(0.5f32.to_bits()));
    assert!(!UnitInterval::<u32>::contains(1.5f32.to_bits()));
    assert!(UnitInterval::<u32>::zero().is_zero());
    assert!(UnitInterval::<u32>::one().is_one());
    assert_eq!(value32(unit32(0.25).complement()), 0.75);
}

#[test]
fn unit_interval_standard_conversions_are_available() {
    let from_result = UnitInterval::<u32>::try_from(0.5f32.to_bits()).unwrap();
    let as_f64_interval = UnitInterval::<u64>::from(from_result);
    let as_f32_interval = UnitInterval::<u32>::from(as_f64_interval);

    assert_eq!(value32(from_result), 0.5);
    assert_eq!(
        UnitInterval::<u32>::try_from(1.5f32.to_bits()).unwrap_err().to_string(),
        "value is outside the unit interval"
    );
    assert_eq!(f64::from_bits(as_f64_interval.get()), 0.5);
    assert_eq!(value32(as_f32_interval), 0.5);
}

#[test]
fn unit_interval_comparison_helpers_preserve_unit_interval() {
    let low = unit32(0.25);
    let high = unit32(0.75);

    assert_eq!(low.min(high), low);
    assert_eq!(low.max(high), high);
    assert_eq!(value32(low.midpoint(high)), 0.5);
    assert_eq!(value32(low.distance_to(high)), 0.5);
}

#[test]
fn unit_interval_checked_arithmetic_rejects_out_of_range_results() {
    let low = unit32(0.25);
    let high = unit32(0.75);

    assert_eq!(low.checked_add(low).map(value32), Some(0.5));
    assert_eq!(high.checked_add(high), None);
    assert_eq!(high.checked_sub(low).map(value32), Some(0.5));
    assert_eq!(low.checked_sub(high), None);
    assert_eq!(low.checked_div(high).map(value32), Some(1.0 / 3.0));
    assert_eq!(high.checked_div(low), None);
    assert_eq!(low.checked_scale(2.0f32.to_bits()).map(value32), Some(0.5));
    assert_eq!(high.checked_scale(2.0f32.to_bits()), None);
}

#[test]
fn unit_interval_saturating_arithmetic_clamps_out_of_range_results() {
    let low = unit32(0.25);
    let high = unit32(0.75);

    assert_eq!(value32(high.saturating_add(high)), 1.0);
    assert_eq!(value32(low.saturating_sub(high)), 0.0);
    assert_eq!(value32(high.saturating_div(low)), 1.0);
    assert_eq!(value32(low.saturating_scale((-1.0f32).to_bits())), 0.0);
    assert_eq!(value32(high.saturating_scale(2.0f32.to_bits())), 1.0);
}

#[test]
fn unit_interval_multiplication_and_lerp_are_convenient() {
    let low = unit32(0.25);
    let high = unit32(0.75);

    assert_eq!(value32(low * high), 0.1875);
    assert_eq!(
        f32::from_bits(UnitInterval::<u32>::half().lerp(10.0f32.to_bits(), 20.0f32.to_bits())),
        15.0
    );
}
