use unit_interval::random::{
    CheckedSignedUnitIntervalDistribution, CheckedUnitIntervalDistribution,
    SaturatingSignedUnitIntervalDistribution, SaturatingUnitIntervalDistribution,
};

#[test]
fn checked_unit_adapter_keeps_inner_and_filters_samples() {
    let adapter = CheckedUnitIntervalDistribution::new(7_u8);

    assert_eq!(*adapter.as_inner(), 7);
    assert_eq!(
        adapter.from_sample(0.25f32.to_bits()).map(|u| f32::from_bits(u.get())),
        Some(0.25)
    );
    assert!(adapter.from_sample(1.25f32.to_bits()).is_none());
    assert!(adapter.from_sample(f64::NAN.to_bits()).is_none());
    assert_eq!(adapter.into_inner(), 7);
}

#[test]
fn saturating_unit_adapter_clamps_samples() {
    let adapter = SaturatingUnitIntervalDistribution::new("normal");

    assert_eq!(*adapter.as_inner(), "normal");
    assert_eq!(f32::from_bits(adapter.from_sample(2.0f32.to_bits()).get()), 1.0);
    assert_eq!(f64::from_bits(adapter.from_sample((-2.0f64).to_bits()).get()), 0.0);
    assert_eq!(f32::from_bits(adapter.from_sample(0.5f32.to_bits()).get()), 0.5);
    assert_eq!(adapter.into_inner(), "normal");
}

#[test]
fn checked_signed_adapter_filters_samples() {
    let adapter = CheckedSignedUnitIntervalDistribution::new(vec![1, 2]);

    assert_eq!(adapter.as_inner(), &vec![1, 2]);
    assert_eq!(
        adapter.from_sample((-0.5f64).to_bits()).map(|u| f64::from_bits(u.get())),
        Some(-0.5)
    );
    assert!(adapter.from_sample((-1.5f32).to_bits()).is_none());
    assert_eq!(adapter.into_inner(), vec![1, 2]);
}

#[test]
fn saturating_signed_adapter_clamps_samples() {
    let adapter = SaturatingSignedUnitIntervalDistribution::new(3.5_f64);

    assert_eq!(*adapter.as_inner(), 3.5);
    assert_eq!(f32::from_bits(adapter.from_sample((-4.0f32).to_bits()).get()), -1.0);
    assert_eq!(f64::from_bits(adapter.from_sample(f64::NAN.to_bits()).get()), 0.0);
    assert_eq!(f64::from_bits(adapter.from_sample(0.125f64.to_bits()).get()), 0.125);
    assert_eq!(adapter.into_inner(), 3.5);
}
