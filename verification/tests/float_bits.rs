use unit_interval::UnitIntervalFloat;

fn samples32() -> Vec<f32> {
    vec![
        0.0,
        -0.0,
        0.25,
        -0.25,
        0.5,
        1.0,
        -1.0,
        1.5,
        -1.5,
        f32::MIN_POSITIVE,
        f32::from_bits(1),
        -f32::from_bits(7),
        f32::MAX,
        f32::MIN,
        f32::INFINITY,
        f32::NEG_INFINITY,
        f32::NAN,
        1.0 - f32::EPSILON / 2.0,
    ]
}

fn samples64() -> Vec<f64> {
    samples32().into_iter().map(|v| v as f64).chain([f64::MAX, f64::from_bits(3)]).collect()
}

#[test]
fn binary32_predicates_match_float_methods() {
    for v in samples32() {
        let b = v.to_bits();
        assert_eq!(b.is_nan(), v.is_nan(), "{v}");
        assert_eq!(UnitIntervalFloat::is_finite(b), v.is_finite(), "{v}");
        assert_eq!(UnitIntervalFloat::is_infinite(b), v.is_infinite(), "{v}");
        assert_eq!(UnitIntervalFloat::is_sign_negative(b), v.is_sign_negative(), "{v}");
        assert_eq!(b.in_unit(), (0.0..=1.0).contains(&v), "{v}");
        assert_eq!(b.in_signed_unit(), (-1.0..=1.0).contains(&v), "{v}");
    }
}

#[test]
fn binary64_predicates_match_float_methods() {
    for v in samples64() {
        let b = v.to_bits();
        assert_eq!(b.is_nan(), v.is_nan(), "{v}");
        assert_eq!(UnitIntervalFloat::is_finite(b), v.is_finite(), "{v}");
        assert_eq!(UnitIntervalFloat::is_infinite(b), v.is_infinite(), "{v}");
        assert_eq!(UnitIntervalFloat::is_sign_negative(b), v.is_sign_negative(), "{v}");
        assert_eq!(b.in_unit(), (0.0..=1.0).contains(&v), "{v}");
        assert_eq!(b.in_signed_unit(), (-1.0..=1.0).contains(&v), "{v}");
    }
}

#[test]
fn binary32_comparisons_match_float_comparisons() {
    let finite: Vec<f32> = samples32().into_iter().filter(|v| v.is_finite()).collect();
    for &a in &finite {
        for &b in &finite {
            assert_eq!(a.to_bits().value_le(b.to_bits()), a <= b, "{a} <= {b}");
            assert_eq!(a.to_bits().value_eq(b.to_bits()), a == b, "{a} == {b}");
        }
    }
}

#[test]
fn binary64_comparisons_match_float_comparisons() {
    let finite: Vec<f64> = samples64().into_iter().filter(|v| v.is_finite()).collect();
    for &a in &finite {
        for &b in &finite {
            assert_eq!(a.to_bits().value_le(b.to_bits()), a <= b, "{a} <= {b}");
            assert_eq!(a.to_bits().value_eq(b.to_bits()), a == b, "{a} == {b}");
        }
    }
}

#[test]
fn sign_operations_match_float_methods() {
    for v in samples32() {
        let b = v.to_bits();
        assert_eq!(b.negate(), (-v).to_bits(), "{v}");
        assert_eq!(UnitIntervalFloat::abs(b), v.abs().to_bits(), "{v}");
        assert_eq!(b.copysign((-2.0f32).to_bits()), v.copysign(-2.0).to_bits(), "{v}");
        assert_eq!(b.copysign(2.0f32.to_bits()), v.copysign(2.0).to_bits(), "{v}");
        if !v.is_nan() {
            assert_eq!(b.signum(), v.signum().to_bits(), "{v}");
        }
    }
    for v in samples64() {
        let b = v.to_bits();
        assert_eq!(b.negate(), (-v).to_bits(), "{v}");
        assert_eq!(UnitIntervalFloat::abs(b), v.abs().to_bits(), "{v}");
        if !v.is_nan() {
            assert_eq!(b.signum(), v.signum().to_bits(), "{v}");
        }
    }
}

#[test]
fn constants_are_the_float_constants() {
    assert_eq!(<u32 as UnitIntervalFloat>::zero(), 0.0f32.to_bits());
    assert_eq!(<u32 as UnitIntervalFloat>::one(), 1.0f32.to_bits());
    assert_eq!(<u32 as UnitIntervalFloat>::half(), 0.5f32.to_bits());
    assert_eq!(<u32 as UnitIntervalFloat>::neg_one(), (-1.0f32).to_bits());
    assert_eq!(<u64 as UnitIntervalFloat>::zero(), 0.0f64.to_bits());
    assert_eq!(<u64 as UnitIntervalFloat>::one(), 1.0f64.to_bits());
    assert_eq!(<u64 as UnitIntervalFloat>::half(), 0.5f64.to_bits());
    assert_eq!(<u64 as UnitIntervalFloat>::neg_one(), (-1.0f64).to_bits());
}

#[test]
fn clamping_matches_float_clamp() {
    for v in samples32() {
        let b = v.to_bits();
        let unit = if v.is_nan() { 0.0 } else { v.clamp(0.0, 1.0) };
        let signed = if v.is_nan() { 0.0 } else { v.clamp(-1.0, 1.0) };
        assert_eq!(b.clamp_unit(), unit.to_bits(), "{v}");
        assert_eq!(b.clamp_signed_unit(), signed.to_bits(), "{v}");
    }
}
