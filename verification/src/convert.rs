//! Conversions between the `binary32` and `binary64` formats.
//!
//! A scaled `binary32` number is the number times `2^149` and a scaled
//! `binary64` number is the number times `2^1074`, so the same number is
//! `2^925` times larger in the `binary64` scale.
use crate::arith32::{
    lemma_rescale_32, lemma_rounding_unique_32, lemma_rounds_to_32_generic, lemma_unit_32,
    round_32,
};
use crate::arith64::split_64;
use crate::binary32::{magnitude_32, value_32, ONE_32, SIGN_BIT_32};
use crate::binary64::{magnitude_64, value_64, ONE_64, SIGN_BIT_64};
use crate::float::{
    distance, is_in_signed_unit, is_in_unit, lemma_rounded_within, rounds_to, signed,
    UnitIntervalFloat,
};
use crate::ieee::{
    lemma_mag_value_fields, lemma_mag_value_monotone, lemma_mag_value_zero, mag_value, neg_part,
    pos_part,
};
use vstd::arithmetic::power2::{
    lemma2_to64, lemma2_to64_rest, lemma_pow2_adds, lemma_pow2_pos,
    lemma_pow2_strictly_increases, pow2,
};
use vstd::prelude::*;

verus! {

/// The factor between the two scales.
pub open spec fn scale_32_to_64() -> int {
    pow2(925) as int
}

/// The `binary64` pattern with the same sign and number as the finite
/// `binary32` pattern `b`.
pub open spec fn widened(b: u32) -> u64 {
    choose|r: u64|
        r.spec_is_finite() && r.spec_is_sign_negative() == b.spec_is_sign_negative()
            && r.spec_value() == b.spec_value() * scale_32_to_64()
}

/// The `binary32` pattern with the sign of the `binary64` pattern `b` whose
/// number is nearest to that of `b`, ties to the even pattern.
pub open spec fn narrowed(b: u64) -> u32 {
    choose|r: u32|
        r.spec_is_sign_negative() == b.spec_is_sign_negative() && #[trigger] rounds_to(
            r,
            b.spec_value(),
            scale_32_to_64(),
        )
}

/// A finite `binary64` pattern is determined by its sign and its number.
proof fn lemma_unique_64(r1: u64, r2: u64)
    requires
        r1.spec_is_finite(),
        r2.spec_is_finite(),
        r1.spec_is_sign_negative() == r2.spec_is_sign_negative(),
        r1.spec_value() == r2.spec_value(),
    ensures
        r1 == r2,
{
    lemma_mag_value_monotone(magnitude_64(r1), magnitude_64(r2), 52);
    lemma_mag_value_monotone(magnitude_64(r2), magnitude_64(r1), 52);
    vstd::arithmetic::div_mod::lemma_fundamental_div_mod(r1 as int, SIGN_BIT_64 as int);
    vstd::arithmetic::div_mod::lemma_fundamental_div_mod(r2 as int, SIGN_BIT_64 as int);
}

/// Widens a finite `binary32` pattern to the `binary64` pattern of the same
/// number; the conversion is exact and keeps the sign (also of zero).
pub fn widen(b: u32) -> (r: u64)
    requires
        b.spec_is_finite(),
    ensures
        r.spec_is_finite(),
        r.spec_is_sign_negative() == b.spec_is_sign_negative(),
        r.spec_value() == b.spec_value() * scale_32_to_64(),
        r == widened(b),
        is_in_unit(b) ==> is_in_unit(r),
        is_in_signed_unit(b) ==> is_in_signed_unit(r),
{
    proof {
        lemma_one_scaled();
        vstd::arithmetic::power2::lemma_pow2_pos(925);
    }
    let sign: u64 = if b >= SIGN_BIT_32 { SIGN_BIT_64 } else { 0 };
    let mag: u32 = b % SIGN_BIT_32;
    let e: u32 = mag / 0x80_0000;
    let m: u32 = mag % 0x80_0000;
    proof {
        lemma2_to64();
        lemma2_to64_rest();
        vstd::arithmetic::div_mod::lemma_fundamental_div_mod(mag as int, 0x80_0000);
        assert(mag == e * pow2(23) + m);
        lemma_mag_value_fields(e as nat, m as nat, 23);
    }
    let ghost target: int = (mag_value(mag as nat, 23) * pow2(925)) as int;
    if e == 0 && m == 0 {
        proof {
            assert(mag == 0);
            assert(mag_value(0, 23) == 0);
            assert(b.spec_value() == 0);
            assert(magnitude_64(sign) == 0);
            assert(mag_value(0, 52) == 0) by {
                lemma_mag_value_fields(0, 0, 52);
            }
        }
        proof {
            assert(sign.spec_value() == 0);
            let v = b.spec_value();
            let sc = scale_32_to_64();
            assert(v * sc == 0) by (nonlinear_arith)
                requires
                    v == 0,
            ;
            lemma_widen_facts(b, sign);
        }
        return sign;
    }
    let (e64, m64): (u64, u64) = if e == 0 {
        // A subnormal becomes normal: its leading one bit moves into the
        // implicit position.
        let mut k: u64 = 0;
        let mut p: u32 = 1;
        while p <= m / 2
            invariant
                1 <= p <= m,
                0 < m < 0x80_0000,
                p == pow2(k as nat),
                k <= 22,
            decreases m - p,
        {
            proof {
                vstd::arithmetic::power2::lemma_pow2_unfold((k + 1) as nat);
                if k >= 22 {
                    assert(pow2(23) == 0x80_0000) by {
                        lemma2_to64();
                    }
                    assert(p * 2 <= m);
                    assert(pow2((k + 1) as nat) > 0x40_0000 * 2) by {
                        if k > 22 {
                            vstd::arithmetic::power2::lemma_pow2_strictly_increases(
                                23,
                                (k + 1) as nat,
                            );
                        }
                    }
                }
            }
            p = p * 2;
            k = k + 1;
        }
        let rest: u64 = (m - p) as u64;
        let mut f: u64 = 1;
        let mut i: u64 = k;
        while i < 52
            invariant
                k <= i <= 52,
                f == pow2((i - k) as nat),
                rest < pow2(k as nat),
                f * pow2(k as nat) == pow2(i as nat),
            decreases 52 - i,
        {
            proof {
                lemma2_to64();
                lemma2_to64_rest();
                vstd::arithmetic::power2::lemma_pow2_unfold((i - k + 1) as nat);
                vstd::arithmetic::power2::lemma_pow2_unfold((i + 1) as nat);
                assert(f * 2 * pow2(k as nat) == pow2((i + 1) as nat)) by (nonlinear_arith)
                    requires
                        f * pow2(k as nat) == pow2(i as nat),
                        pow2((i + 1) as nat) == 2 * pow2(i as nat),
                ;
                assert(f * 2 <= pow2(52)) by {
                    assert(f <= pow2(i as nat)) by (nonlinear_arith)
                        requires
                            f * pow2(k as nat) == pow2(i as nat),
                            pow2(k as nat) >= 1,
                            f >= 0,
                    ;
                    if i + 1 < 52 {
                        vstd::arithmetic::power2::lemma_pow2_strictly_increases(
                            (i + 1) as nat,
                            52,
                        );
                    }
                }
            }
            f = f * 2;
            i = i + 1;
        }
        proof {
            vstd::arithmetic::power2::lemma_pow2_pos((52 - k) as nat);
            assert(rest * f < pow2(52)) by (nonlinear_arith)
                requires
                    rest < pow2(k as nat),
                    f * pow2(k as nat) == pow2(52),
                    f >= 1,
            ;
        }
        proof {
            lemma_widen_subnormal(m as nat, k as nat, rest as nat, f as nat);
        }
        (874 + k, rest * f)
    } else {
        proof {
            assert(m * 0x2000_0000 < 0x10_0000_0000_0000);
            lemma_widen_normal(e as nat, m as nat);
        }
        ((e as u64) + 896, (m as u64) * 0x2000_0000)
    };
    proof {
        assert(m64 < pow2(52));
        assert(e64 <= 1150);
        assert(e64 * pow2(52) + m64 < 0x7FF0_0000_0000_0000);
        lemma_mag_value_fields(e64 as nat, m64 as nat, 52);
    }
    assert(mag_value((e64 * pow2(52) + m64) as nat, 52) == target);
    proof {
        let mv = mag_value(mag as nat, 23) as int;
        let sc = pow2(925) as int;
        assert((-mv) * sc == -(mv * sc)) by (nonlinear_arith);
    }
    assert(b.spec_value() * scale_32_to_64() == (if b >= SIGN_BIT_32 {
        -target
    } else {
        target
    }));
    let r = sign + e64 * 0x10_0000_0000_0000 + m64;
    proof {
        let mag64 = e64 * pow2(52) + m64;
        assert(magnitude_64(r) == mag64);
        assert(r.spec_is_sign_negative() == b.spec_is_sign_negative());
        lemma_widen_facts(b, r);
    }
    r
}

/// The consequences of the defining properties of a widened pattern.
proof fn lemma_widen_facts(b: u32, r: u64)
    requires
        b.spec_is_finite(),
        r.spec_is_finite(),
        r.spec_is_sign_negative() == b.spec_is_sign_negative(),
        r.spec_value() == b.spec_value() * scale_32_to_64(),
    ensures
        r == widened(b),
        is_in_unit(b) ==> is_in_unit(r),
        is_in_signed_unit(b) ==> is_in_signed_unit(r),
{
    let w = widened(b);
    lemma_unique_64(r, w);
    lemma_one_scaled();
    vstd::arithmetic::power2::lemma_pow2_pos(925);
    let s = scale_32_to_64();
    let v = b.spec_value();
    let one = mag_value(ONE_32 as nat, 23) as int;
    assert(0 <= v <= one ==> 0 <= v * s <= one * s) by (nonlinear_arith)
        requires
            s > 0,
    ;
    assert(-one <= v <= one ==> -(one * s) <= v * s <= one * s) by (nonlinear_arith)
        requires
            s > 0,
    ;
}

proof fn lemma_widen_normal(e: nat, m: nat)
    requires
        e >= 1,
        m < pow2(23),
    ensures
        mag_value((e + 896) * pow2(52) + m * pow2(29), 52) == mag_value(e * pow2(23) + m, 23)
            * pow2(925),
{
    lemma2_to64();
    lemma2_to64_rest();
    lemma_pow2_adds(23, 29);
    assert(m * pow2(29) < pow2(52)) by (nonlinear_arith)
        requires
            m < pow2(23),
            pow2(23) * pow2(29) == pow2(52),
            pow2(29) > 0,
    ;
    lemma_mag_value_fields(e, m, 23);
    lemma_mag_value_fields(e + 896, m * pow2(29), 52);
    lemma_pow2_adds(29, (e + 895) as nat);
    lemma_pow2_adds((e - 1) as nat, 925);
    assert(((29 + (e + 895)) as nat) == ((e - 1 + 925) as nat));
    let a = pow2(23);
    let b = pow2(29);
    let c = pow2((e + 895) as nat);
    let d = pow2((e - 1) as nat);
    let g = pow2(925);
    assert((a * b + m * b) * c == (a + m) * (b * c)) by (nonlinear_arith);
    assert((a + m) * d * g == (a + m) * (d * g)) by (nonlinear_arith);
}

proof fn lemma_widen_subnormal(m: nat, k: nat, rest: nat, f: nat)
    requires
        k <= 22,
        m == pow2(k) + rest,
        rest < pow2(k),
        f * pow2(k) == pow2(52),
        f == pow2((52 - k) as nat),
        rest * f < pow2(52),
        0 < m < pow2(23),
    ensures
        mag_value((874 + k) * pow2(52) + rest * f, 52) == mag_value(m, 23) * pow2(925),
{
    lemma_mag_value_fields(0, m, 23);
    assert(0 * pow2(23) + m == m);
    lemma_mag_value_fields(874 + k, rest * f, 52);
    lemma_pow2_adds((52 - k) as nat, (873 + k) as nat);
    assert((52 - k) as nat + (873 + k) as nat == 925);
    assert(((874 + k) - 1) as nat == (873 + k) as nat);
    let p = pow2(k);
    let c = pow2((873 + k) as nat);
    assert(f * c == pow2(925));
    assert(mag_value((874 + k) * pow2(52) + rest * f, 52) == (pow2(52) + rest * f) * c);
    assert(mag_value(m, 23) == m);
    assert(p * f == f * p) by (nonlinear_arith);
    assert((pow2(52) + rest * f) * c == m * pow2(925)) by (nonlinear_arith)
        requires
            p * f == pow2(52),
            p + rest == m,
            f * c == pow2(925),
    ;
}

/// Narrows a `binary64` pattern in `[-1, 1]` to the `binary32` pattern of
/// the nearest `binary32` number, ties to the even pattern; the sign (also
/// of zero) is kept.
pub fn narrow(b: u64) -> (r: u32)
    requires
        is_in_signed_unit(b),
    ensures
        r.spec_is_finite(),
        r.spec_is_sign_negative() == b.spec_is_sign_negative(),
        is_in_signed_unit(r),
        rounds_to(r, b.spec_value(), scale_32_to_64()),
        r == narrowed(b),
        is_in_unit(b) ==> is_in_unit(r),
{
    let (sig, k): (u64, u64) = split_64(b % SIGN_BIT_64);
    let neg: bool = b >= SIGN_BIT_64;
    let sh: i64 = k as i64 - 925;
    let ghost e = pos_part(sh as int);
    let ghost d = neg_part(sh as int);
    let ghost m: int = sig * pow2(k as nat);
    proof {
        lemma2_to64();
        lemma_pow2_pos(e);
        lemma_pow2_pos(d);
        lemma_pow2_pos(925);
        lemma_one_scaled();
        lemma_unit_32();
        crate::arith64::lemma_unit_64();
        assert(b.spec_value() == signed(neg, m));
        // sig * 2^e * 2^925 == m * 2^d, as e + 925 == k + d.
        lemma_pow2_adds(e, 925);
        lemma_pow2_adds(k as nat, d);
        assert(e + 925 == k + d);
        assert(sig * pow2(e) * pow2(925) == m * pow2(d)) by (nonlinear_arith)
            requires
                pow2(e) * pow2(925) == pow2(k as nat) * pow2(d),
                m == sig * pow2(k as nat),
        ;
        // The number is at most one: m <= 2^1074 = 2^149 * 2^925.
        lemma_pow2_adds(149, 925);
        lemma_pow2_adds(151, d);
        lemma_pow2_adds(149, d);
        lemma_pow2_strictly_increases(149 + d, 151 + d);
        assert(sig * pow2(e) <= pow2(149) * pow2(d)) by (nonlinear_arith)
            requires
                sig * pow2(e) * pow2(925) == m * pow2(d),
                m <= pow2(149) * pow2(925),
                pow2(925) > 0,
                pow2(d) > 0,
        ;
        assert(sig < 0x8000_0000_0000_0000_0000_0000_0000_0000);
    }
    let r: u32 = round_32(neg, sig as u128, sh);
    proof {
        assert(signed(neg, sig * pow2(e)) * pow2(925) == signed(neg, m) * pow2(d)) by {
            assert((-(sig * pow2(e))) * pow2(925) == -(sig * pow2(e) * pow2(925))) by (
            nonlinear_arith);
            assert((-m) * pow2(d) == -(m * pow2(d))) by (nonlinear_arith);
        }
        lemma_rescale_32(r, signed(neg, sig * pow2(e)), pow2(d) as int, b.spec_value(), scale_32_to_64());
        lemma_rounds_to_32_generic(r, b.spec_value(), scale_32_to_64());
        assert(r.spec_is_sign_negative() == b.spec_is_sign_negative());
        lemma_rounds_to_32_generic(narrowed(b), b.spec_value(), scale_32_to_64());
        lemma_rounding_unique_32(r, narrowed(b), b.spec_value(), scale_32_to_64());
        <u32 as UnitIntervalFloat>::lemma_format();
        let s = scale_32_to_64();
        let u = mag_value(ONE_32 as nat, 23) as int;
        let v = b.spec_value();
        assert(u * s == crate::binary64::unit_64());
        assert((-u) * s == -(u * s)) by (nonlinear_arith);
        assert(-u * s <= v <= u * s);
        lemma_rounded_within(r, v, s, <u32 as UnitIntervalFloat>::spec_neg_one(), <u32 as UnitIntervalFloat>::spec_one());
        if is_in_unit(b) {
            lemma_rounded_within(r, v, s, <u32 as UnitIntervalFloat>::spec_zero(), <u32 as UnitIntervalFloat>::spec_one());
        }
    }
    r
}

/// One has the same number in both formats.
proof fn lemma_one_scaled()
    ensures
        mag_value(ONE_64 as nat, 52) == mag_value(ONE_32 as nat, 23) * scale_32_to_64(),
{
    lemma2_to64();
    lemma2_to64_rest();
    lemma_mag_value_fields(1023, 0, 52);
    lemma_mag_value_fields(127, 0, 23);
    assert(ONE_64 as nat == 1023 * pow2(52) + 0);
    assert(ONE_32 as nat == 127 * pow2(23) + 0);
    lemma_pow2_adds(52, 1022);
    lemma_pow2_adds(23, 126);
    lemma_pow2_adds(149, 925);
    assert(pow2(23) * pow2(126) * pow2(925) == pow2(23) * (pow2(126) * pow2(925))) by (
    nonlinear_arith);
    lemma_pow2_adds(126, 925);
    lemma_pow2_adds(23, 1051);
}

/// Narrowing undoes widening: a `binary32` number in `[-1, 1]`, widened to
/// `binary64` and narrowed back, is the pattern it started from.
pub proof fn law_narrow_undoes_widen(b: u32, w: u64)
    requires
        is_in_signed_unit(b),
        w.spec_is_finite(),
        w.spec_is_sign_negative() == b.spec_is_sign_negative(),
        w.spec_value() == b.spec_value() * scale_32_to_64(),
    ensures
        narrowed(w) == b,
{
    let s = scale_32_to_64();
    let x = w.spec_value();
    vstd::arithmetic::power2::lemma_pow2_pos(925);
    <u32 as UnitIntervalFloat>::lemma_format();
    assert forall|c: u32| #[trigger] c.spec_is_finite() implies distance(b.spec_value() * s, x)
        <= distance(c.spec_value() * s, x) && (distance(c.spec_value() * s, x) == distance(
        b.spec_value() * s,
        x,
    ) && c.spec_value() != b.spec_value() ==> b.spec_is_even()) by {
        let vc = c.spec_value();
        let vb = b.spec_value();
        assert(vc * s == vb * s ==> vc == vb) by (nonlinear_arith)
            requires
                s > 0,
        ;
    }
    assert(rounds_to(b, x, s));
    let n = narrowed(w);
    assert(n.spec_is_sign_negative() == w.spec_is_sign_negative() && rounds_to(n, x, s));
    let vb = b.spec_value();
    assert(vb * s > 0 ==> vb > 0) by (nonlinear_arith)
        requires
            s > 0,
    ;
    assert(vb * s < 0 ==> vb < 0) by (nonlinear_arith)
        requires
            s > 0,
    ;
    lemma_rounds_to_32_generic(b, x, s);
    lemma_rounds_to_32_generic(n, x, s);
    lemma_rounding_unique_32(b, n, x, s);
}

} // verus!
