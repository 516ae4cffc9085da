use unit_interval::{SignedUnitInterval, UnitInterval};

fn mix(start: f32, end: f32, amount: UnitInterval<u32>) -> f32 {
    f32::from_bits(amount.lerp(start.to_bits(), end.to_bits()))
}

#[test]
fn readme_probability_and_clamping() {
    let probability = UnitInterval::<u32>::new(0.8f32.to_bits()).unwrap();
    let clamped = UnitInterval::<u32>::saturating(1.2f32.to_bits());

    assert_eq!(f32::from_bits(probability.get()), 0.8);
    assert_eq!(clamped, UnitInterval::one());
    assert_eq!(UnitInterval::<u32>::new(f32::NAN.to_bits()), None);
}

#[test]
fn readme_axis_and_weight() {
    let axis = SignedUnitInterval::<u32>::new((-0.5f32).to_bits()).unwrap();
    let weight = UnitInterval::<u32>::new(0.25f32.to_bits()).unwrap();

    assert_eq!(f32::from_bits((axis * weight).get()), -0.125);
    assert_eq!(f32::from_bits(axis.saturating_add(weight.into()).get()), -0.25);
}

#[test]
fn readme_mix_with_half() {
    assert_eq!(mix(10.0, 20.0, UnitInterval::half()), 15.0);
}

#[test]
fn readme_f64_probability() {
    let opacity = UnitInterval::<u64>::new(0.8f64.to_bits()).unwrap();
    assert_eq!(f64::from_bits(opacity.get()), 0.8);
    assert_eq!(UnitInterval::<u64>::saturating(1.2f64.to_bits()), UnitInterval::one());
}
