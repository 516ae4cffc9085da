use unit_interval::{SignedUnitInterval, UnitInterval, UnitIntervalFloat};

/// A small deterministic generator for sample bit patterns.
struct XorShift(u64);

impl XorShift {
    fn next(&mut self) -> u64 {
        let mut x = self.0;
        x ^= x << 13;
        x ^= x >> 7;
        x ^= x << 17;
        self.0 = x;
        x
    }
}

/// Numbers in `[-1, 1]` of every kind: zeros, subnormals, the ends of the
/// binades, and random patterns spread over all exponents.
fn samples32() -> Vec<f32> {
    let mut v = vec![
        0.0,
        -0.0,
        1.0,
        -1.0,
        0.5,
        -0.5,
        0.25,
        0.75,
        -0.75,
        1.0 / 3.0,
        0.1,
        0.9,
        f32::MIN_POSITIVE,
        -f32::MIN_POSITIVE,
        f32::from_bits(1),
        f32::from_bits(0x8000_0001),
        f32::from_bits(0x007F_FFFF),
        f32::from_bits(0x3F7F_FFFF),
        f32::from_bits(0xBF7F_FFFF),
        f32::from_bits(0x3F00_0001),
        f32::from_bits(0x0080_0001),
    ];
    let mut rng = XorShift(0x9E37_79B9_7F4A_7C15);
    while v.len() < 160 {
        let bits = (rng.next() >> 32) as u32;
        let x = f32::from_bits(bits);
        if x.is_finite() && x.abs() <= 1.0 {
            v.push(x);
        } else {
            // Fold the pattern into [-1, 1] keeping its low bits.
            let mag = (bits & 0x7FFF_FFFF) % 0x3F80_0001;
            v.push(f32::from_bits((bits & 0x8000_0000) | mag));
        }
    }
    v
}

fn samples64() -> Vec<f64> {
    let mut v = vec![
        0.0,
        -0.0,
        1.0,
        -1.0,
        0.5,
        -0.5,
        0.25,
        0.75,
        1.0 / 3.0,
        0.1,
        0.9,
        f64::MIN_POSITIVE,
        f64::from_bits(1),
        f64::from_bits(0x8000_0000_0000_0001),
        f64::from_bits(0x000F_FFFF_FFFF_FFFF),
        f64::from_bits(0x3FEF_FFFF_FFFF_FFFF),
        f64::from_bits(0xBFEF_FFFF_FFFF_FFFF),
    ];
    let mut rng = XorShift(0x2545_F491_4F6C_DD1D);
    while v.len() < 160 {
        let bits = rng.next();
        let mag = (bits & 0x7FFF_FFFF_FFFF_FFFF) % 0x3FF0_0000_0000_0001;
        v.push(f64::from_bits((bits & 0x8000_0000_0000_0000) | mag));
    }
    v
}

fn unit_samples32() -> Vec<f32> {
    samples32().into_iter().filter(|x| *x >= 0.0).collect()
}

fn unit_samples64() -> Vec<f64> {
    samples64().into_iter().filter(|x| *x >= 0.0).collect()
}

fn unit32(v: f32) -> UnitInterval<u32> {
    UnitInterval::new(v.to_bits()).unwrap()
}

fn unit64(v: f64) -> UnitInterval<u64> {
    UnitInterval::new(v.to_bits()).unwrap()
}

fn signed32(v: f32) -> SignedUnitInterval<u32> {
    SignedUnitInterval::new(v.to_bits()).unwrap()
}

fn signed64(v: f64) -> SignedUnitInterval<u64> {
    SignedUnitInterval::new(v.to_bits()).unwrap()
}

#[test]
fn unit_products_match_float_multiplication() {
    for a in unit_samples32() {
        for b in unit_samples32() {
            let got = (unit32(a) * unit32(b)).get();
            assert_eq!(got, (a * b).to_bits(), "{a:e} * {b:e}");
        }
    }
    for a in unit_samples64() {
        for b in unit_samples64() {
            let got = (unit64(a) * unit64(b)).get();
            assert_eq!(got, (a * b).to_bits(), "{a:e} * {b:e}");
        }
    }
}

#[test]
fn signed_products_match_float_multiplication() {
    for a in samples32() {
        for b in samples32() {
            let got = (signed32(a) * signed32(b)).get();
            assert_eq!(got, (a * b).to_bits(), "{a:e} * {b:e}");
            if b >= 0.0 {
                assert_eq!((signed32(a) * unit32(b)).get(), (a * b).to_bits());
                assert_eq!((unit32(b) * signed32(a)).get(), (b * a).to_bits());
            }
        }
    }
    for a in samples64() {
        for b in samples64() {
            let got = (signed64(a) * signed64(b)).get();
            assert_eq!(got, (a * b).to_bits(), "{a:e} * {b:e}");
        }
    }
}

#[test]
fn tiny_products_round_to_subnormals_and_signed_zeros() {
    let tiny = f32::from_bits(1);
    // Below half the smallest subnormal the product is a zero with the
    // exclusive or of the signs.
    assert_eq!((signed32(tiny) * signed32(0.25)).get(), 0.0f32.to_bits());
    assert_eq!((signed32(-tiny) * signed32(0.25)).get(), (-0.0f32).to_bits());
    // Exactly half the smallest subnormal is a tie, which goes to even zero.
    assert_eq!((signed32(tiny) * signed32(0.5)).get(), 0.0f32.to_bits());
    // Three quarters rounds up to the smallest subnormal.
    assert_eq!((signed32(tiny) * signed32(0.75)).get(), 1);
    let three = f32::from_bits(3);
    // 1.5 subnormal units is a tie between 1 and 2: the even pattern wins.
    assert_eq!((unit32(three) * unit32(0.5)).get(), 2);
    assert_eq!((unit32(0.25) * unit32(0.75)).get(), 0.1875f32.to_bits());
}

#[test]
fn sums_and_differences_match_float_addition() {
    for a in samples32() {
        for b in samples32() {
            assert_eq!(signed32(a) + signed32(b), (a + b).to_bits(), "{a:e} + {b:e}");
            assert_eq!(signed32(a) - signed32(b), (a - b).to_bits(), "{a:e} - {b:e}");
            if b >= 0.0 {
                assert_eq!(signed32(a) + unit32(b), (a + b).to_bits());
                assert_eq!(unit32(b) + signed32(a), (b + a).to_bits());
                assert_eq!(signed32(a) - unit32(b), (a - b).to_bits());
                assert_eq!(unit32(b) - signed32(a), (b - a).to_bits());
            }
        }
    }
    for a in samples64() {
        for b in samples64() {
            assert_eq!(signed64(a) + signed64(b), (a + b).to_bits(), "{a:e} + {b:e}");
            assert_eq!(signed64(a) - signed64(b), (a - b).to_bits(), "{a:e} - {b:e}");
        }
    }
}

#[test]
fn zero_sums_carry_the_sign_of_ieee_addition() {
    let pz = 0.0f32.to_bits();
    let nz = (-0.0f32).to_bits();
    assert_eq!(signed32(-0.0) + signed32(-0.0), nz);
    assert_eq!(signed32(-0.0) + signed32(0.0), pz);
    assert_eq!(signed32(0.5) + signed32(-0.5), pz);
    assert_eq!(signed32(-0.5) - signed32(-0.5), pz);
    assert_eq!(signed32(-0.0) - signed32(0.0), nz);
}

#[test]
fn complements_match_float_subtraction() {
    for a in unit_samples32() {
        assert_eq!(unit32(a).complement().get(), (1.0 - a).to_bits(), "1 - {a:e}");
    }
    for a in samples32() {
        assert_eq!(signed32(a).complement(), (1.0 - a).to_bits(), "1 - {a:e}");
    }
    for a in unit_samples64() {
        assert_eq!(unit64(a).complement().get(), (1.0 - a).to_bits(), "1 - {a:e}");
    }
    for a in samples64() {
        assert_eq!(signed64(a).complement(), (1.0 - a).to_bits(), "1 - {a:e}");
    }
    assert_eq!(unit32(1.0).complement().get(), 0.0f32.to_bits());
}

#[test]
fn midpoints_and_distances_match_float_formulas() {
    for a in samples32() {
        for b in samples32() {
            let mid = ((a + b) * 0.5).to_bits();
            let dist = (if a >= b { a - b } else { b - a }).to_bits();
            assert_eq!(signed32(a).midpoint(signed32(b)).get(), mid, "{a:e} {b:e}");
            assert_eq!(signed32(a).distance_to(signed32(b)), dist, "{a:e} {b:e}");
            if a >= 0.0 && b >= 0.0 {
                assert_eq!(unit32(a).midpoint(unit32(b)).get(), mid);
                assert_eq!(unit32(a).distance_to(unit32(b)).get(), dist);
            }
        }
    }
    for a in samples64() {
        for b in samples64() {
            let mid = ((a + b) * 0.5).to_bits();
            let dist = (if a >= b { a - b } else { b - a }).to_bits();
            assert_eq!(signed64(a).midpoint(signed64(b)).get(), mid, "{a:e} {b:e}");
            assert_eq!(signed64(a).distance_to(signed64(b)), dist, "{a:e} {b:e}");
            if a >= 0.0 && b >= 0.0 {
                assert_eq!(unit64(a).midpoint(unit64(b)).get(), mid);
                assert_eq!(unit64(a).distance_to(unit64(b)).get(), dist);
            }
        }
    }
}

#[test]
fn checked_and_saturating_sums_match_float_results() {
    for a in samples32() {
        for b in samples32() {
            let sum = a + b;
            let diff = a - b;
            let s = signed32(a);
            let t = signed32(b);
            assert_eq!(
                s.checked_add(t).map(|u| u.get()),
                SignedUnitInterval::<u32>::new(sum.to_bits()).map(|u| u.get())
            );
            assert_eq!(
                s.saturating_add(t).get(),
                SignedUnitInterval::<u32>::saturating(sum.to_bits()).get()
            );
            assert_eq!(
                s.checked_sub(t).map(|u| u.get()),
                SignedUnitInterval::<u32>::new(diff.to_bits()).map(|u| u.get())
            );
            assert_eq!(
                s.saturating_sub(t).get(),
                SignedUnitInterval::<u32>::saturating(diff.to_bits()).get()
            );
            if a >= 0.0 && b >= 0.0 {
                let u = unit32(a);
                let w = unit32(b);
                assert_eq!(
                    u.checked_add(w).map(|u| u.get()),
                    UnitInterval::<u32>::new(sum.to_bits()).map(|u| u.get())
                );
                assert_eq!(
                    u.saturating_add(w).get(),
                    UnitInterval::<u32>::saturating(sum.to_bits()).get()
                );
                assert_eq!(
                    u.checked_sub(w).map(|u| u.get()),
                    UnitInterval::<u32>::new(diff.to_bits()).map(|u| u.get())
                );
                assert_eq!(
                    u.saturating_sub(w).get(),
                    UnitInterval::<u32>::saturating(diff.to_bits()).get()
                );
            }
        }
    }
}

#[test]
fn checked_sums_at_the_bounds() {
    let low = unit32(0.25);
    let high = unit32(0.75);
    assert_eq!(low.checked_add(high).map(|u| u.get()), Some(1.0f32.to_bits()));
    assert_eq!(high.checked_add(high), None);
    assert_eq!(high.saturating_add(high).get(), 1.0f32.to_bits());
    assert_eq!(low.checked_sub(high), None);
    assert_eq!(low.saturating_sub(high).get(), 0.0f32.to_bits());
    assert_eq!(signed32(-0.75).checked_sub(signed32(0.5)), None);
    assert_eq!(signed32(-0.75).saturating_sub(signed32(0.5)).get(), (-1.0f32).to_bits());
}

/// Patterns from the whole `f32` range, special values included.
fn any32() -> Vec<f32> {
    let mut v = vec![
        0.0,
        -0.0,
        1.0,
        -1.0,
        2.0,
        0.5,
        3.0,
        f32::INFINITY,
        f32::NEG_INFINITY,
        f32::NAN,
        f32::MAX,
        -f32::MAX,
        f32::MIN_POSITIVE,
        f32::from_bits(1),
        f32::from_bits(0x8000_0001),
        f32::from_bits(0x7F7F_FFFE),
        1.0e30,
        -1.0e-30,
        1.0e-40,
    ];
    let mut rng = XorShift(0x1234_5678_9ABC_DEF1);
    while v.len() < 300 {
        v.push(f32::from_bits((rng.next() >> 32) as u32));
    }
    v
}

fn any64() -> Vec<f64> {
    let mut v = vec![
        0.0,
        -0.0,
        1.0,
        -1.0,
        2.0,
        0.5,
        f64::INFINITY,
        f64::NEG_INFINITY,
        f64::NAN,
        f64::MAX,
        -f64::MAX,
        f64::MIN_POSITIVE,
        f64::from_bits(1),
        f64::from_bits(0x7FEF_FFFF_FFFF_FFFE),
        1.0e300,
        -1.0e-300,
        1.0e-310,
    ];
    let mut rng = XorShift(0x0F1E_2D3C_4B5A_6978);
    while v.len() < 300 {
        v.push(f64::from_bits(rng.next()));
    }
    v
}

fn same32(got: u32, want: f32) -> bool {
    if want.is_nan() {
        f32::from_bits(got).is_nan()
    } else {
        got == want.to_bits()
    }
}

fn same64(got: u64, want: f64) -> bool {
    if want.is_nan() {
        f64::from_bits(got).is_nan()
    } else {
        got == want.to_bits()
    }
}

#[test]
fn general_operations_match_float_arithmetic() {
    for a in any32() {
        for b in any32() {
            let (x, y) = (a.to_bits(), b.to_bits());
            assert!(same32(x.product(y), a * b), "{a:e} * {b:e}");
            assert!(same32(x.sum(y), a + b), "{a:e} + {b:e}");
            assert!(same32(x.quotient(y), a / b), "{a:e} / {b:e}");
        }
    }
    for a in any64() {
        for b in any64() {
            let (x, y) = (a.to_bits(), b.to_bits());
            assert!(same64(x.product(y), a * b), "{a:e} * {b:e}");
            assert!(same64(x.sum(y), a + b), "{a:e} + {b:e}");
            assert!(same64(x.quotient(y), a / b), "{a:e} / {b:e}");
        }
    }
}

#[test]
fn overflow_rounds_to_infinity_at_the_threshold() {
    let max = f32::MAX.to_bits();
    // MAX + half an ulp of MAX ties, and the tie goes to the even 2^128:
    // infinity.
    let half_ulp = f32::from_bits(0x7300_0000); // 2^103
    assert_eq!(max.sum(half_ulp.to_bits()), f32::INFINITY.to_bits());
    // Just below the threshold the sum stays at MAX.
    let below = f32::from_bits(0x72FF_FFFF);
    assert_eq!(max.sum(below.to_bits()), max);
    assert_eq!(max.product(2.0f32.to_bits()), f32::INFINITY.to_bits());
    assert_eq!(1.0f32.to_bits().quotient(f32::from_bits(1).to_bits()), f32::INFINITY.to_bits());
    assert!(f32::from_bits(0.0f32.to_bits().quotient(0.0f32.to_bits())).is_nan());
    assert_eq!((-1.0f32).to_bits().quotient(0.0f32.to_bits()), f32::NEG_INFINITY.to_bits());
}

#[test]
fn quotients_match_float_division() {
    for a in samples32() {
        for b in samples32() {
            assert!(same32(signed32(a) / signed32(b), a / b), "{a:e} / {b:e}");
            let sa = signed32(a);
            let sb = signed32(b);
            assert_eq!(
                sa.checked_div(sb).map(|u| u.get()),
                SignedUnitInterval::<u32>::new((a / b).to_bits()).map(|u| u.get())
            );
            assert_eq!(
                sa.saturating_div(sb).get(),
                SignedUnitInterval::<u32>::saturating((a / b).to_bits()).get()
            );
            if b >= 0.0 {
                assert!(same32(signed32(a) / unit32(b), a / b));
                assert!(same32(unit32(b) / signed32(a), b / a));
            }
            if a >= 0.0 && b >= 0.0 {
                assert_eq!(
                    unit32(a).checked_div(unit32(b)).map(|u| u.get()),
                    UnitInterval::<u32>::new((a / b).to_bits()).map(|u| u.get())
                );
                assert_eq!(
                    unit32(a).saturating_div(unit32(b)).get(),
                    UnitInterval::<u32>::saturating((a / b).to_bits()).get()
                );
            }
        }
    }
    for a in samples64() {
        for b in samples64() {
            assert!(same64(signed64(a) / signed64(b), a / b), "{a:e} / {b:e}");
            if a >= 0.0 && b >= 0.0 {
                assert_eq!(
                    unit64(a).checked_div(unit64(b)).map(|u| u.get()),
                    UnitInterval::<u64>::new((a / b).to_bits()).map(|u| u.get())
                );
            }
        }
    }
}

#[test]
fn scaling_matches_float_multiplication() {
    for a in samples32() {
        for f in any32() {
            let p = (a * f).to_bits();
            assert_eq!(
                signed32(a).checked_scale(f.to_bits()).map(|u| u.get()),
                SignedUnitInterval::<u32>::new(p).map(|u| u.get())
            );
            assert_eq!(
                signed32(a).saturating_scale(f.to_bits()).get(),
                SignedUnitInterval::<u32>::saturating(p).get()
            );
            if a >= 0.0 {
                assert_eq!(
                    unit32(a).checked_scale(f.to_bits()).map(|u| u.get()),
                    UnitInterval::<u32>::new(p).map(|u| u.get())
                );
                assert_eq!(
                    unit32(a).saturating_scale(f.to_bits()).get(),
                    UnitInterval::<u32>::saturating(p).get()
                );
            }
        }
    }
    for a in unit_samples64() {
        for f in any64() {
            let p = (a * f).to_bits();
            assert_eq!(
                unit64(a).saturating_scale(f.to_bits()).get(),
                UnitInterval::<u64>::saturating(p).get()
            );
        }
    }
}

#[test]
fn lerp_matches_the_float_formula() {
    let ends = any32();
    for t in samples32().into_iter().take(40) {
        for start in ends.iter().copied().take(120) {
            for end in ends.iter().copied().skip(120).take(60) {
                let want = if t == 0.0 {
                    start
                } else if t == 1.0 {
                    end
                } else {
                    start + (end - start) * t
                };
                assert!(same32(signed32(t).lerp(start.to_bits(), end.to_bits()), want));
                if t >= 0.0 {
                    assert!(same32(unit32(t).lerp(start.to_bits(), end.to_bits()), want));
                }
            }
        }
    }
    for t in unit_samples64().into_iter().take(40) {
        for start in any64().into_iter().take(60) {
            for end in any64().into_iter().skip(60).take(60) {
                let want = if t == 0.0 {
                    start
                } else if t == 1.0 {
                    end
                } else {
                    start + (end - start) * t
                };
                assert!(same64(unit64(t).lerp(start.to_bits(), end.to_bits()), want));
            }
        }
    }
}

#[test]
fn products_sums_and_midpoints_commute() {
    let unit = unit_samples32();
    for &a in unit.iter().take(40) {
        for &b in unit.iter().take(40) {
            let (ua, ub) = (unit32(a), unit32(b));
            assert_eq!((ua * ub).get(), (ub * ua).get());
            assert_eq!(ua.saturating_add(ub).get(), ub.saturating_add(ua).get());
            assert_eq!(ua.checked_add(ub).map(|u| u.get()), ub.checked_add(ua).map(|u| u.get()));
            assert_eq!(ua.midpoint(ub).get(), ub.midpoint(ua).get());
        }
    }
    let signed = samples32();
    for &a in signed.iter().take(40) {
        for &b in signed.iter().take(40) {
            let sa = SignedUnitInterval::<u32>::new(a.to_bits()).unwrap();
            let sb = SignedUnitInterval::<u32>::new(b.to_bits()).unwrap();
            assert_eq!((sa * sb).get(), (sb * sa).get());
            assert_eq!(sa + sb, sb + sa);
            assert_eq!(sa.saturating_add(sb).get(), sb.saturating_add(sa).get());
            assert_eq!(sa.midpoint(sb).get(), sb.midpoint(sa).get());
        }
    }
    for &a in unit_samples64().iter().take(30) {
        for &b in samples64().iter().take(30) {
            let ua = unit64(a);
            let sb = SignedUnitInterval::<u64>::new(b.to_bits()).unwrap();
            assert_eq!((sb * ua).get(), (ua * sb).get());
            assert_eq!(sb + ua, ua + sb);
        }
    }
}

#[test]
fn lerp_returns_the_endpoints_exactly() {
    let zero = UnitInterval::<u32>::zero();
    let one = UnitInterval::<u32>::one();
    let (max, min) = (f32::MAX.to_bits(), (-f32::MAX).to_bits());
    assert_eq!(zero.lerp(max, min), max);
    assert_eq!(one.lerp(max, min), min);
    assert_eq!(one.lerp(1e20f32.to_bits(), 1.0f32.to_bits()), 1.0f32.to_bits());
    assert_eq!(zero.lerp((-0.0f32).to_bits(), 1.0f32.to_bits()), (-0.0f32).to_bits());
    let neg_zero = UnitInterval::<u32>::new((-0.0f32).to_bits()).unwrap();
    assert_eq!(neg_zero.lerp(3.0f32.to_bits(), 5.0f32.to_bits()), 3.0f32.to_bits());
    let szero = SignedUnitInterval::<u64>::zero();
    let sone = SignedUnitInterval::<u64>::one();
    let (max, min) = (f64::MAX.to_bits(), (-f64::MAX).to_bits());
    assert_eq!(szero.lerp(max, min), max);
    assert_eq!(sone.lerp(1e300f64.to_bits(), 1.0f64.to_bits()), 1.0f64.to_bits());
    let sneg = SignedUnitInterval::<u64>::neg_one();
    assert_eq!(f64::from_bits(sneg.lerp(10.0f64.to_bits(), 20.0f64.to_bits())), 0.0);
}

#[test]
fn distance_is_the_absolute_float_difference_both_ways() {
    for a in samples32().into_iter().take(80) {
        for b in samples32().into_iter().take(80) {
            let d = f32::from_bits(signed32(a).distance_to(signed32(b)));
            let back = f32::from_bits(signed32(b).distance_to(signed32(a)));
            assert_eq!(d, (a - b).abs());
            assert_eq!(d, (b - a).abs());
            assert_eq!(d, back);
            assert!((0.0..=2.0).contains(&d));
        }
    }
    for a in samples64().into_iter().take(60) {
        for b in samples64().into_iter().take(60) {
            let d = f64::from_bits(signed64(a).distance_to(signed64(b)));
            assert_eq!(d, (a - b).abs());
            assert_eq!(d, (b - a).abs());
        }
    }
}
