use unit_interval::convert::{narrow, widen};
use unit_interval::{SignedUnitInterval, UnitInterval};

fn f64_samples() -> Vec<f64> {
    let mut v = vec![
        0.0,
        -0.0,
        1.0,
        -1.0,
        0.5,
        -0.25,
        0.1,
        -0.7,
        1.0 / 3.0,
        f64::from_bits(1),
        -f64::from_bits(1),
        f32::MIN_POSITIVE as f64,
        f32::from_bits(1) as f64,
        f32::from_bits(1) as f64 / 2.0,
        f32::from_bits(1) as f64 * 1.5,
        f32::from_bits(1) as f64 * 2.5,
        0.5 + 2f64.powi(-25),
        0.5 + 3.0 * 2f64.powi(-25),
        1.0 - 2f64.powi(-25),
        1.0 - 2f64.powi(-26),
        1.0 - f64::EPSILON,
        -(1.0 - f64::EPSILON),
        2f64.powi(-130),
        2f64.powi(-150),
        2f64.powi(-149) * 0.75,
    ];
    let mut bits: u64 = 0x3FE5_5555_5555_5555;
    for _ in 0..200 {
        bits = bits.wrapping_mul(6364136223846793005).wrapping_add(1442695040888963407);
        let candidate = f64::from_bits(bits);
        if candidate.is_finite() && candidate.abs() <= 1.0 {
            v.push(candidate);
        }
        let scaled = f64::from_bits((bits >> 12) | 0x3800_0000_0000_0000);
        if scaled.abs() <= 1.0 {
            v.push(scaled);
            v.push(-scaled);
        }
    }
    v
}

#[test]
fn narrowing_rounds_like_the_float_cast() {
    for x in f64_samples() {
        assert_eq!(narrow(x.to_bits()), (x as f32).to_bits(), "{x:e}");
    }
}

#[test]
fn widening_is_the_exact_float_cast() {
    let mut bits: u32 = 0x1234_5678;
    for _ in 0..500 {
        bits = bits.wrapping_mul(1664525).wrapping_add(1013904223);
        let x = f32::from_bits(bits);
        if x.is_finite() {
            assert_eq!(widen(bits), (x as f64).to_bits(), "{x:e}");
        }
    }
    for x in [0.0f32, -0.0, 1.0, -1.0, f32::from_bits(1), f32::from_bits(0x7F_FFFF), f32::MAX] {
        assert_eq!(widen(x.to_bits()), (x as f64).to_bits(), "{x:e}");
    }
}

#[test]
fn unit_interval_converts_between_widths() {
    let narrow_value = UnitInterval::<u32>::new(0.5f32.to_bits()).unwrap();
    let wide: UnitInterval<u64> = UnitInterval::from(narrow_value);
    let back: UnitInterval<u32> = UnitInterval::from(wide);

    assert_eq!(f64::from_bits(wide.get()), 0.5);
    assert_eq!(f32::from_bits(back.get()), 0.5);
    assert_eq!(f64::from_bits(u64::from(narrow_value)), 0.5);
    assert_eq!(u32::from(narrow_value), 0.5f32.to_bits());

    let third = UnitInterval::<u64>::new((1.0f64 / 3.0).to_bits()).unwrap();
    let third32: UnitInterval<u32> = UnitInterval::from(third);
    assert_eq!(f32::from_bits(third32.get()), (1.0f64 / 3.0) as f32);
    assert_eq!(u64::from(third), (1.0f64 / 3.0).to_bits());

    let almost_one = UnitInterval::<u64>::new((1.0 - f64::EPSILON).to_bits()).unwrap();
    assert_eq!(f32::from_bits(UnitInterval::<u32>::from(almost_one).get()), 1.0);
}

#[test]
fn signed_unit_interval_converts_between_widths() {
    let value = SignedUnitInterval::<u32>::new((-0.25f32).to_bits()).unwrap();
    let wide: SignedUnitInterval<u64> = SignedUnitInterval::from(value);
    assert_eq!(f64::from_bits(wide.get()), -0.25);
    assert_eq!(f64::from_bits(u64::from(value)), -0.25);
    assert_eq!(u32::from(value), (-0.25f32).to_bits());

    let tiny = SignedUnitInterval::<u64>::new((-f64::from_bits(1)).to_bits()).unwrap();
    let narrowed: SignedUnitInterval<u32> = SignedUnitInterval::from(tiny);
    assert_eq!(narrowed.get(), (-0.0f32).to_bits());
    assert_eq!(u64::from(tiny), (-f64::from_bits(1)).to_bits());
}
