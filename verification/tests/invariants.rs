use unit_interval::invariants::{check_signed_f32, check_signed_f64, check_unit_f32, check_unit_f64};

struct XorShift(u64);

impl XorShift {
    fn next(&mut self) -> u64 {
        let mut x = self.0;
        x ^= x << 13;
        x ^= x >> 7;
        x ^= x << 17;
        self.0 = x;
        x
    }
}

fn special32() -> Vec<u32> {
    vec![
        0,
        0x8000_0000,
        0x3F80_0000,
        0xBF80_0000,
        0x3F00_0000,
        0x7F80_0000,
        0xFF80_0000,
        0x7FC0_0000,
        0x7F7F_FFFF,
        1,
        0x0080_0000,
        0x3F7F_FFFF,
        0x4000_0000,
    ]
}

fn special64() -> Vec<u64> {
    vec![
        0,
        0x8000_0000_0000_0000,
        0x3FF0_0000_0000_0000,
        0xBFF0_0000_0000_0000,
        0x3FE0_0000_0000_0000,
        0x7FF0_0000_0000_0000,
        0x7FF8_0000_0000_0000,
        0x7FEF_FFFF_FFFF_FFFF,
        1,
        0x3FEF_FFFF_FFFF_FFFF,
    ]
}

#[test]
fn fuzz_checks_hold_on_special_values() {
    for &a in &special32() {
        for &b in &special32() {
            for &f in &special32() {
                assert!(check_unit_f32(a, b, f));
                assert!(check_signed_f32(a, b, f));
            }
        }
    }
    for &a in &special64() {
        for &b in &special64() {
            for &f in &special64() {
                assert!(check_unit_f64(a, b, f));
                assert!(check_signed_f64(a, b, f));
            }
        }
    }
}

#[test]
fn fuzz_checks_hold_on_random_bits() {
    let mut rng = XorShift(0xDEAD_BEEF_CAFE_F00D);
    for _ in 0..20_000 {
        let (a, b, f) = (rng.next(), rng.next(), rng.next());
        // Fold half of the samples into [-1, 1] so that the two-operand
        // checks run too.
        let fold32 = |x: u64| ((x >> 32) as u32 & 0x8000_0000) | ((x >> 32) as u32 % 0x3F80_0001);
        let fold64 = |x: u64| (x & 0x8000_0000_0000_0000) | (x % 0x3FF0_0000_0000_0001);
        assert!(check_unit_f32(fold32(a), fold32(b), (f >> 32) as u32));
        assert!(check_signed_f32(fold32(a), fold32(b), (f >> 32) as u32));
        assert!(check_unit_f32((a >> 32) as u32, (b >> 32) as u32, f as u32));
        assert!(check_unit_f64(fold64(a), fold64(b), f));
        assert!(check_signed_f64(fold64(a), fold64(b), f));
        assert!(check_signed_f64(a, b, f));
    }
}
