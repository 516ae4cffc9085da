//! Correctly rounded arithmetic on `binary64` patterns.
//!
//! Each operation computes the exact result as an integer significand `n`
//! times a power of two `2^sh` (in the `binary64` scale) and rounds it to the
//! nearest `binary64` number, ties to even, as IEEE-754 does by default.
use crate::binary64::{magnitude_64, unit_64, value_64, INFINITY_64, SIGN_BIT_64};
use crate::float::{distance, signed, UnitIntervalFloat};
use crate::ieee::{
    bit_length, lemma_mag_value_fields, lemma_mag_value_monotone, lemma_mag_value_sig,
    lemma_mag_value_zero, lemma_rounding_gap, mag_value, neg_part, pos_part, pow2_u128,
};
use vstd::arithmetic::power2::*;
use vstd::prelude::*;

verus! {

/// `r` is a finite pattern whose number is nearest to `num / den` among all
/// finite `binary64` numbers, and when another finite number is as near,
/// `r` is even (ties to even): IEEE-754 rounding to nearest.
pub open spec fn rounds_to_64(r: u64, num: int, den: int) -> bool {
    &&& magnitude_64(r) < INFINITY_64
    &&& forall|c: u64|
        #[trigger] magnitude_64(c) < INFINITY_64 ==> distance(value_64(r) * den, num) <= distance(
            value_64(c) * den,
            num,
        )
    &&& forall|c: u64|
        #[trigger] magnitude_64(c) < INFINITY_64 && distance(value_64(c) * den, num) == distance(
            value_64(r) * den,
            num,
        ) && value_64(c) != value_64(r) ==> r % 2 == 0
}

/// Rounding does not depend on how the target fraction is written:
/// `num1 / den1` and `num2 / den2` are the same number.
pub proof fn lemma_rescale_64(r: u64, num1: int, den1: int, num2: int, den2: int)
    requires
        den1 > 0,
        den2 > 0,
        num1 * den2 == num2 * den1,
        rounds_to_64(r, num1, den1),
    ensures
        rounds_to_64(r, num2, den2),
{
    assert forall|v: int|
        #![trigger distance(v * den2, num2)]
        distance(v * den2, num2) * den1 == distance(v * den1, num1) * den2 by {
        assert(v * den1 * den2 - num1 * den2 == den1 * (v * den2 - num2)) by (nonlinear_arith)
            requires
                num1 * den2 == num2 * den1,
        ;
        assert(distance(v * den2, num2) * den1 == distance(v * den1, num1) * den2) by (
        nonlinear_arith)
            requires
                v * den1 * den2 - num1 * den2 == den1 * (v * den2 - num2),
                den1 > 0,
                den2 > 0,
        ;
    }
    assert forall|c: u64| #[trigger] magnitude_64(c) < INFINITY_64 implies distance(
        value_64(r) * den2,
        num2,
    ) <= distance(value_64(c) * den2, num2) && (distance(value_64(c) * den2, num2) == distance(
        value_64(r) * den2,
        num2,
    ) && value_64(c) != value_64(r) ==> r % 2 == 0) by {
        let a1 = distance(value_64(r) * den1, num1);
        let b1 = distance(value_64(c) * den1, num1);
        let a2 = distance(value_64(r) * den2, num2);
        let b2 = distance(value_64(c) * den2, num2);
        assert(a2 * den1 == a1 * den2);
        assert(b2 * den1 == b1 * den2);
        assert(a1 <= b1);
        assert(a2 <= b2) by (nonlinear_arith)
            requires
                a2 * den1 == a1 * den2,
                b2 * den1 == b1 * den2,
                a1 <= b1,
                den1 > 0,
                den2 > 0,
        ;
        assert(b2 == a2 ==> b1 == a1) by (nonlinear_arith)
            requires
                a2 * den1 == a1 * den2,
                b2 * den1 == b1 * den2,
                den1 > 0,
                den2 > 0,
        ;
    }
}

/// Scaling by a positive `den` keeps the order of magnitudes.
proof fn lemma_scaled_order_64(a: nat, c: nat, den: int)
    requires
        den > 0,
    ensures
        a <= c <==> mag_value(a, 52) * den <= mag_value(c, 52) * den,
        a == c <==> mag_value(a, 52) * den == mag_value(c, 52) * den,
        mag_value(a, 52) * den >= 0,
        a == 0 <==> mag_value(a, 52) * den == 0,
{
    lemma_mag_value_monotone(a, c, 52);
    lemma_mag_value_monotone(c, a, 52);
    lemma_mag_value_zero(a, 52);
    let va = mag_value(a, 52) as int;
    let vc = mag_value(c, 52) as int;
    assert(va <= vc <==> va * den <= vc * den) by (nonlinear_arith)
        requires
            den > 0,
    ;
    assert(va == vc <==> va * den == vc * den) by (nonlinear_arith)
        requires
            den > 0,
    ;
    assert(va * den >= 0) by (nonlinear_arith)
        requires
            den > 0,
            va >= 0,
    ;
    assert(va == 0 <==> va * den == 0) by (nonlinear_arith)
        requires
            den > 0,
    ;
}

/// Choosing the nearer of the neighbouring magnitudes `k` and `k + 1`
/// around `big_x / den`, ties to the even one, and giving it the sign of
/// the target, rounds to nearest.
pub proof fn lemma_round_signed_64(r: u64, big_x: int, neg: bool, k: nat, den: int)
    requires
        den > 0,
        big_x >= 0,
        magnitude_64(r) < INFINITY_64,
        mag_value(k, 52) * den <= big_x < mag_value(k + 1, 52) * den,
        (r >= SIGN_BIT_64) == neg,
        magnitude_64(r) == k || magnitude_64(r) == k + 1,
        magnitude_64(r) == k ==> big_x - mag_value(k, 52) * den <= mag_value(k + 1, 52) * den
            - big_x,
        magnitude_64(r) == k + 1 ==> mag_value(k + 1, 52) * den - big_x <= big_x - mag_value(
            k,
            52,
        ) * den,
        big_x - mag_value(k, 52) * den == mag_value(k + 1, 52) * den - big_x ==> magnitude_64(r)
            % 2 == 0,
    ensures
        rounds_to_64(r, signed(neg, big_x), den),
{
    let x = signed(neg, big_x);
    let lo = mag_value(k, 52) * den;
    let hi = mag_value(k + 1, 52) * den;
    let rm = magnitude_64(r);
    lemma_scaled_order_64(k, k + 1, den);
    lemma_scaled_order_64(rm as nat, k, den);
    lemma_scaled_order_64(rm as nat, k + 1, den);
    assert(value_64(r) * den == (if neg {
        -(mag_value(rm as nat, 52) * den)
    } else {
        mag_value(rm as nat, 52) * den
    })) by {
        let v = mag_value(rm as nat, 52) as int;
        assert((-v) * den == -(v * den)) by (nonlinear_arith);
    }
    assert(distance(value_64(r) * den, x) == (if rm == k {
        big_x - lo
    } else {
        hi - big_x
    }));
    assert((r % 0x8000_0000_0000_0000) % 2 == r % 2) by (bit_vector);
    assert forall|c: u64| #[trigger] magnitude_64(c) < INFINITY_64 implies distance(value_64(r) * den, x)
        <= distance(value_64(c) * den, x) && (distance(value_64(c) * den, x) == distance(
        value_64(r) * den,
        x,
    ) && value_64(c) != value_64(r) ==> (r % 2 == 0)) by {
        let j = magnitude_64(c);
        let vj = mag_value(j, 52) as int;
        lemma_scaled_order_64(j, k, den);
        lemma_scaled_order_64(j, k + 1, den);
        lemma_scaled_order_64(j, rm as nat, den);
        lemma_scaled_order_64(j, 0, den);
        lemma_scaled_order_64(k, 0, den);
        assert(value_64(c) * den == (if c >= SIGN_BIT_64 {
            -(vj * den)
        } else {
            vj * den
        })) by {
            assert((-vj) * den == -(vj * den)) by (nonlinear_arith);
        }
        lemma_mag_value_zero(j, 52);
        lemma_mag_value_zero(rm as nat, 52);
        if (c >= SIGN_BIT_64) == neg {
            assert(distance(value_64(c) * den, x) == distance(vj * den, big_x));
        } else {
            assert(distance(value_64(c) * den, x) == vj * den + big_x);
            if vj * den == 0 && lo == 0 {
                assert(j == 0);
                assert(k == 0);
            }
        }
    }
}

/// The significand and exponent of a finite magnitude `mag`: the pattern
/// is `k * 2^52 + sig` and its scaled magnitude is `sig * 2^k`, with the
/// significand normalized (`sig >= 2^52`) whenever `k > 0`.
pub fn split_64(mag: u64) -> (r: (u64, u64))
    requires
        mag < INFINITY_64,
    ensures
        r.0 < 0x20_0000_0000_0000,
        r.1 <= 2045,
        r.1 == 0 || r.0 >= 0x10_0000_0000_0000,
        mag == r.1 * 0x10_0000_0000_0000 + r.0,
        mag_value(mag as nat, 52) == r.0 * pow2(r.1 as nat),
{
    let e: u64 = mag / 0x10_0000_0000_0000;
    let m: u64 = mag % 0x10_0000_0000_0000;
    let r: (u64, u64) = if e == 0 {
        (m, 0)
    } else {
        (m + 0x10_0000_0000_0000, e - 1)
    };
    proof {
        lemma2_to64();
        lemma2_to64_rest();
        lemma_mag_value_sig(r.0 as nat, r.1 as nat, 52);
    }
    r
}

/// Facts about the exponent split of a rounding target `n * 2^sh`.
proof fn lemma_exponent_parts(sh: int)
    ensures
        pos_part(sh) - neg_part(sh) == sh,
        pos_part(sh) == 0 || neg_part(sh) == 0,
{
}

/// `2^a * 2^b == 2^c * 2^d` when `a + b == c + d`.
proof fn lemma_pow2_balance(a: nat, b: nat, c: nat, d: nat)
    requires
        a + b == c + d,
    ensures
        pow2(a) * pow2(b) == pow2(c) * pow2(d),
{
    lemma_pow2_adds(a, b);
    lemma_pow2_adds(c, d);
}

/// When the target is an exact multiple of the unit in the last place,
/// the significand `q = n * 2^d` fits and is normalized.
proof fn lemma_round_exact_64(n: nat, l: nat, sh: int, u: nat, d: nat, q: nat)
    requires
        1 <= l <= 127,
        pow2((l - 1) as nat) <= n < pow2(l),
        u == (if l - 53 + sh > 0 {
            l - 53 + sh
        } else {
            0
        }),
        d == sh - u,
        q == n * pow2(d),
    ensures
        d <= 52,
        q < 0x20_0000_0000_0000,
        u == 0 || q >= 0x10_0000_0000_0000,
        q * pow2(u) * pow2(neg_part(sh)) == n * pow2(pos_part(sh)),
{
    lemma2_to64();
    lemma2_to64_rest();
    lemma_exponent_parts(sh);
    lemma_pow2_pos(d);
    if u > 0 {
        assert(d == 53 - l);
        lemma_pow2_adds((l - 1) as nat, d);
        lemma_pow2_adds(l, d);
        assert(pow2((l - 1) as nat) * pow2(d) <= q < pow2(l) * pow2(d)) by (nonlinear_arith)
            requires
                pow2((l - 1) as nat) <= n < pow2(l),
                pow2(d) > 0,
                q == n * pow2(d),
        ;
        assert((l - 1) as nat + d == 52);
        assert(l + d == 53);
    } else {
        assert(l + d <= 53);
        lemma_pow2_adds(l, d);
        if l + d < 53 {
            lemma_pow2_strictly_increases(l + d, 53);
        }
        assert(q < pow2(l) * pow2(d)) by (nonlinear_arith)
            requires
                n < pow2(l),
                pow2(d) > 0,
                q == n * pow2(d),
        ;
    }
    lemma_pow2_balance(d, u + neg_part(sh), pos_part(sh), 0);
    assert(pow2(0) == 1);
    assert(q * pow2(u) * pow2(neg_part(sh)) == n * (pow2(d) * (pow2(u) * pow2(neg_part(sh)))))
        by (nonlinear_arith)
        requires
            q == n * pow2(d),
    ;
    lemma_pow2_adds(u, neg_part(sh));
}

/// When the target needs `s` bits shifted out, the significand
/// `q = n / 2^s` fits and is normalized.
proof fn lemma_round_shift_64(n: nat, l: nat, sh: int, u: nat, s: nat, q: nat, rem: nat)
    requires
        1 <= l <= 127,
        pow2((l - 1) as nat) <= n < pow2(l),
        u == (if l - 53 + sh > 0 {
            l - 53 + sh
        } else {
            0
        }),
        s == u - sh,
        s >= 1,
        n == q * pow2(s) + rem,
        rem < pow2(s),
    ensures
        q < 0x20_0000_0000_0000,
        u == 0 || q >= 0x10_0000_0000_0000,
        pow2(u) * pow2(neg_part(sh)) == pow2(s) * pow2(pos_part(sh)),
{
    lemma2_to64();
    lemma2_to64_rest();
    lemma_exponent_parts(sh);
    lemma_pow2_pos(s);
    lemma_pow2_balance(u, neg_part(sh), s, pos_part(sh));
    if u > 0 {
        assert(s == l - 53);
        lemma_pow2_adds(53, s);
        lemma_pow2_adds(52, s);
        assert(l == 53 + s);
        assert((l - 1) as nat == 52 + s);
        assert(q < pow2(53)) by (nonlinear_arith)
            requires
                n == q * pow2(s) + rem,
                rem >= 0,
                n < pow2(53) * pow2(s),
                pow2(s) > 0,
        ;
        assert(q >= pow2(52)) by (nonlinear_arith)
            requires
                n == q * pow2(s) + rem,
                rem < pow2(s),
                pow2(52) * pow2(s) <= n,
                pow2(s) > 0,
        ;
    } else {
        assert(l <= 53 + s);
        lemma_pow2_adds(53, s);
        if l < 53 + s {
            lemma_pow2_strictly_increases(l, 53 + s);
        }
        assert(q < pow2(53)) by (nonlinear_arith)
            requires
                n == q * pow2(s) + rem,
                rem >= 0,
                n < pow2(53) * pow2(s),
                pow2(s) > 0,
        ;
    }
}

/// The scaled magnitude from which on IEEE-754 rounding to nearest
/// overflows to infinity: the largest finite `binary64` number plus half its
/// unit in the last place.
pub open spec fn overflow_64() -> int {
    (0x40_0000_0000_0000 - 1) * pow2(2044)
}

/// `r` is `num / den` rounded as IEEE-754 rounds to nearest, ties to even,
/// in the `binary64` format: an infinity at or beyond the overflow threshold,
/// else the nearest finite number.
pub open spec fn rounds_to_ext_64(r: u64, num: int, den: int) -> bool {
    if num >= overflow_64() * den || -num >= overflow_64() * den {
        magnitude_64(r) == INFINITY_64
    } else {
        rounds_to_64(r, num, den)
    }
}

/// Rounds `(n + fnum / fden) * 2^sh` (in the `binary64` scale) as IEEE-754
/// rounds to nearest, ties to even, and gives the result the sign `neg`.
/// A nonzero fraction `fnum / fden` only says that the target lies strictly
/// between `n * 2^sh` and `(n + 1) * 2^sh`; it needs `n >= 2^54`, so that
/// `n` carries more bits than the result keeps.
pub fn round_frac_64(neg: bool, n: u128, sh: i64, fnum: u128, fden: u128) -> (r: u64)
    requires
        n < 0x8000_0000_0000_0000_0000_0000_0000_0000,
        -100_000 <= sh <= 100_000,
        fnum < fden,
        fnum > 0 ==> n >= 0x40_0000_0000_0000,
    ensures
        (r >= SIGN_BIT_64) == neg,
        rounds_to_ext_64(
            r,
            signed(neg, (n * fden + fnum) * pow2(pos_part(sh as int))),
            fden * pow2(neg_part(sh as int)),
        ),
{
    let ghost big_x: int = (n * fden + fnum) * pow2(pos_part(sh as int));
    let ghost den: int = fden * pow2(neg_part(sh as int));
    proof {
        lemma2_to64();
        lemma2_to64_rest();
        lemma_pow2_pos(neg_part(sh as int));
        lemma_pow2_pos(pos_part(sh as int));
        lemma_exponent_parts(sh as int);
        assert(den > 0) by (nonlinear_arith)
            requires
                fden > 0,
                pow2(neg_part(sh as int)) > 0,
                den == fden * pow2(neg_part(sh as int)),
        ;
        assert(big_x >= 0) by (nonlinear_arith)
            requires
                big_x == (n * fden + fnum) * pow2(pos_part(sh as int)),
                n >= 0,
                fden > 0,
                fnum >= 0,
        ;
    }
    if n == 0 {
        let r: u64 = if neg {
            SIGN_BIT_64
        } else {
            0
        };
        proof {
            lemma_mag_value_sig(0, 0, 52);
            assert(big_x == 0);
            lemma_round_signed_64(r, 0, neg, 0, den);
            lemma_overflow_positive_64(den);
        }
        return r;
    }
    let l: u64 = bit_length(n);
    let t: i64 = l as i64 - 53 + sh;
    let u: i64 = if t > 0 {
        t
    } else {
        0
    };
    if u > 2045 {
        let r: u64 = if neg {
            INFINITY_64 + SIGN_BIT_64
        } else {
            INFINITY_64
        };
        proof {
            lemma_round_overflow_64(n as nat, l as nat, sh as int, fnum as nat, fden as nat);
        }
        return r;
    }
    let d: i64 = sh - u;
    let ghost q_g: int;
    let ghost rem_g: int;
    let ghost half2: int;
    let ghost unit_g: int;
    let (q, up): (u128, bool) = if d >= 0 {
        proof {
            lemma_round_exact_64(
                n as nat,
                l as nat,
                sh as int,
                u as nat,
                d as nat,
                (n * pow2(d as nat)) as nat,
            );
            if fnum > 0 {
                lemma_pow2_adds(53, 1);
                assert(pow2(54) == 0x40_0000_0000_0000);
                if l < 55 {
                    lemma_pow2_strictly_increases(l as nat, 54);
                }
            }
        }
        let p: u128 = pow2_u128(d as u64);
        let qq: u128 = n * p;
        proof {
            q_g = qq as int;
            rem_g = 0;
            half2 = 1;
            unit_g = pow2(u as nat) * den;
            lemma_pow2_pos(u as nat);
            assert(unit_g > 0) by (nonlinear_arith)
                requires
                    pow2(u as nat) > 0,
                    den > 0,
                    unit_g == pow2(u as nat) * den,
            ;
            assert(q_g * pow2(u as nat) * den + rem_g * unit_g == big_x) by (nonlinear_arith)
                requires
                    q_g * pow2(u as nat) * pow2(neg_part(sh as int)) == n * pow2(
                        pos_part(sh as int),
                    ),
                    den == fden * pow2(neg_part(sh as int)),
                    big_x == (n * fden + fnum) * pow2(pos_part(sh as int)),
                    fnum == 0,
                    rem_g == 0,
            ;
            assert(half2 * unit_g == pow2(u as nat) * den);
        }
        (qq, false)
    } else {
        let s: i64 = -d;
        proof {
            assert(pow2(127) == 0x8000_0000_0000_0000_0000_0000_0000_0000) by {
                lemma2_to64_rest();
                lemma_pow2_adds(64, 63);
            }
            lemma_pow2_pos(s as nat);
            lemma_pow2_unfold(s as nat);
        }
        if s >= 128 {
            proof {
                lemma_pow2_adds(1, 127);
                if s > 128 {
                    lemma_pow2_strictly_increases(128, s as nat);
                }
                lemma_round_shift_64(
                    n as nat,
                    l as nat,
                    sh as int,
                    u as nat,
                    s as nat,
                    0,
                    n as nat,
                );
                assert(2 * n < pow2(s as nat));
                q_g = 0;
                rem_g = n * fden + fnum;
                half2 = pow2(s as nat) * fden;
                unit_g = pow2(pos_part(sh as int)) as int;
                lemma_round_frac_shift_64(
                    n as int,
                    0,
                    n as int,
                    fnum as int,
                    fden as int,
                    pow2(s as nat) as int,
                    pow2(u as nat) as int,
                    pow2(neg_part(sh as int)) as int,
                    unit_g,
                    false,
                );
            }
            (0, false)
        } else {
            let p: u128 = pow2_u128(s as u64);
            let q: u128 = n / p;
            let rem: u128 = n % p;
            proof {
                vstd::arithmetic::div_mod::lemma_fundamental_div_mod(n as int, p as int);
                vstd::arithmetic::div_mod::lemma_mod_bound(n as int, p as int);
                assert(n == q * pow2(s as nat) + rem) by (nonlinear_arith)
                    requires
                        n == p * q + rem,
                        p == pow2(s as nat),
                ;
                lemma_round_shift_64(
                    n as nat,
                    l as nat,
                    sh as int,
                    u as nat,
                    s as nat,
                    q as nat,
                    rem as nat,
                );
                if s < 127 {
                    lemma_pow2_strictly_increases(s as nat, 127);
                }
            }
            let up: bool = if fnum == 0 {
                rem * 2 > p || (rem * 2 == p && q % 2 == 1)
            } else {
                rem * 2 >= p
            };
            proof {
                q_g = q as int;
                rem_g = rem * fden + fnum;
                half2 = p * fden;
                unit_g = pow2(pos_part(sh as int)) as int;
                lemma_round_frac_shift_64(
                    n as int,
                    q as int,
                    rem as int,
                    fnum as int,
                    fden as int,
                    p as int,
                    pow2(u as nat) as int,
                    pow2(neg_part(sh as int)) as int,
                    unit_g,
                    up,
                );
            }
            (q, up)
        }
    };
    proof {
        assert(q == q_g);
        assert(0 <= rem_g < half2);
    }
    let k: u64 = (u as u64) * 0x10_0000_0000_0000 + (q as u64);
    let mag: u64 = if up {
        k + 1
    } else {
        k
    };
    let r: u64 = if neg {
        mag + SIGN_BIT_64
    } else {
        mag
    };
    proof {
        lemma_round_finish_64(
            r,
            neg,
            big_x,
            den,
            q as nat,
            u as nat,
            k as nat,
            up,
            rem_g,
            half2,
            unit_g,
        );
    }
    r
}

/// The overflow threshold is positive.
proof fn lemma_overflow_positive_64(den: int)
    requires
        den > 0,
    ensures
        overflow_64() > 0,
        overflow_64() * den > 0,
{
    lemma_pow2_pos(2044);
    assert(overflow_64() * den > 0) by (nonlinear_arith)
        requires
            overflow_64() > 0,
            den > 0,
    ;
}

/// A target whose unit in the last place would be `2^254` or more is beyond
/// the overflow threshold.
proof fn lemma_round_overflow_64(n: nat, l: nat, sh: int, fnum: nat, fden: nat)
    requires
        fden > 0,
        pow2((l - 1) as nat) <= n,
        l - 53 + sh > 2045,
    ensures
        (n * fden + fnum) * pow2(pos_part(sh)) >= overflow_64() * (fden * pow2(neg_part(sh))),
{
    let e = pos_part(sh);
    let d = neg_part(sh);
    lemma_exponent_parts(sh);
    lemma_pow2_pos(e);
    lemma_pow2_pos(d);
    lemma_pow2_pos(2044);
    // 2^(l - 1) * 2^e >= 2^2098 * 2^d > overflow_64() * 2^d.
    lemma_pow2_adds((l - 1) as nat, e);
    lemma_pow2_adds(2098, d);
    if (l - 1) as nat + e > 2098 + d {
        lemma_pow2_strictly_increases(2098 + d, (l - 1) as nat + e);
    }
    lemma_pow2_adds(54, 2044);
    lemma2_to64();
    lemma2_to64_rest();
    assert(overflow_64() < pow2(2098)) by (nonlinear_arith)
        requires
            overflow_64() == (0x40_0000_0000_0000 - 1) * pow2(2044),
            pow2(54) * pow2(2044) == pow2(2098),
            pow2(54) == 0x40_0000_0000_0000,
            pow2(2044) > 0,
    ;
    assert((n * fden + fnum) * pow2(e) >= overflow_64() * (fden * pow2(d))) by (nonlinear_arith)
        requires
            pow2((l - 1) as nat) <= n,
            pow2((l - 1) as nat) * pow2(e) >= pow2(2098) * pow2(d),
            overflow_64() < pow2(2098),
            fden > 0,
            fnum >= 0,
            pow2(e) > 0,
            pow2(d) > 0,
    ;
}

/// The rounding decision when bits are shifted out: the target lies
/// `(rem * fden + fnum) * unit` above `q * 2^u * den`, in a gap of
/// `2^s * fden * unit`, and the decision taken on `rem` alone agrees with
/// the one on the whole remainder.
proof fn lemma_round_frac_shift_64(
    n: int,
    q: int,
    rem: int,
    fnum: int,
    fden: int,
    p: int,
    pu: int,
    pd: int,
    pe: int,
    up: bool,
)
    requires
        n == q * p + rem,
        0 <= rem < p,
        p >= 2,
        p % 2 == 0,
        0 <= fnum < fden,
        pu * pd == p * pe,
        pe > 0,
        q >= 0,
        fnum == 0 ==> up == (2 * rem > p || (2 * rem == p && q % 2 == 1)),
        fnum > 0 ==> up == (2 * rem >= p),
    ensures
        q * pu * (fden * pd) + (rem * fden + fnum) * pe == (n * fden + fnum) * pe,
        (p * fden) * pe == pu * (fden * pd),
        0 <= rem * fden + fnum < p * fden,
        up ==> 2 * (rem * fden + fnum) >= p * fden,
        !up ==> 2 * (rem * fden + fnum) <= p * fden,
        2 * (rem * fden + fnum) == p * fden ==> (up == (q % 2 == 1)),
{
    assert(q * pu * (fden * pd) == q * p * fden * pe) by (nonlinear_arith)
        requires
            pu * pd == p * pe,
    ;
    assert(q * p * fden * pe + (rem * fden + fnum) * pe == (n * fden + fnum) * pe) by (
    nonlinear_arith)
        requires
            n == q * p + rem,
    ;
    assert((p * fden) * pe == pu * (fden * pd)) by (nonlinear_arith)
        requires
            pu * pd == p * pe,
    ;
    assert(0 <= rem * fden + fnum < p * fden) by (nonlinear_arith)
        requires
            0 <= rem < p,
            0 <= fnum < fden,
    ;
    if fnum == 0 {
        assert(2 * (rem * fden) >= p * fden <==> 2 * rem >= p) by (nonlinear_arith)
            requires
                fden > 0,
        ;
        assert(2 * (rem * fden) <= p * fden <==> 2 * rem <= p) by (nonlinear_arith)
            requires
                fden > 0,
        ;
        assert(2 * (rem * fden) == p * fden <==> 2 * rem == p) by (nonlinear_arith)
            requires
                fden > 0,
        ;
    } else {
        if 2 * rem >= p {
            assert(2 * (rem * fden + fnum) > p * fden) by (nonlinear_arith)
                requires
                    2 * rem >= p,
                    fnum > 0,
                    fden > 0,
            ;
        } else {
            // 2 * rem and p are even, so 2 * rem <= p - 2.
            assert(2 * rem <= p - 2);
            assert(2 * (rem * fden + fnum) < p * fden) by (nonlinear_arith)
                requires
                    2 * rem <= p - 2,
                    fnum < fden,
                    fden > 0,
            ;
        }
    }
}

/// The closing step of rounding: with the target `big_x / den` lying
/// `rem * unit` above the magnitude `k` and `half2 * unit` being the gap to
/// the next magnitude, taking `k + 1` exactly when `2 * rem` calls for it
/// (ties to the even one) rounds as IEEE-754 does, overflowing to infinity
/// when `k + 1` is the pattern of infinity.
proof fn lemma_round_finish_64(
    r: u64,
    neg: bool,
    big_x: int,
    den: int,
    q: nat,
    u: nat,
    k: nat,
    up: bool,
    rem: int,
    half2: int,
    unit: int,
)
    requires
        den > 0,
        unit > 0,
        0 <= rem < half2,
        q < 0x20_0000_0000_0000,
        u == 0 || q >= 0x10_0000_0000_0000,
        u <= 2045,
        k == u * 0x10_0000_0000_0000 + q,
        q * pow2(u) * den + rem * unit == big_x,
        half2 * unit == pow2(u) * den,
        up ==> 2 * rem >= half2,
        !up ==> 2 * rem <= half2,
        2 * rem == half2 ==> (up == (q % 2 == 1)),
        magnitude_64(r) == (if up {
            k + 1
        } else {
            k
        }),
        (r >= SIGN_BIT_64) == neg,
    ensures
        rounds_to_ext_64(r, signed(neg, big_x), den),
{
    lemma2_to64();
    lemma2_to64_rest();
    lemma_mag_value_sig(q, u, 52);
    let lo = mag_value(k, 52) * den;
    let hi = mag_value(k + 1, 52) * den;
    assert(lo == q * pow2(u) * den);
    assert(hi == (q + 1) * pow2(u) * den);
    assert(hi == lo + half2 * unit) by (nonlinear_arith)
        requires
            hi == (q + 1) * pow2(u) * den,
            lo == q * pow2(u) * den,
            half2 * unit == pow2(u) * den,
    ;
    lemma_rounding_gap(big_x, lo, hi, rem, half2, unit);
    assert(k % 2 == q % 2);
    assert(big_x >= 0) by {
        lemma_scaled_order_64(k, k, den);
    }
    // The largest finite pattern and the overflow threshold.
    let max_k: nat = 0x7FEF_FFFF_FFFF_FFFF;
    lemma_mag_value_sig(0x1F_FFFF_FFFF_FFFF, 2045, 52);
    lemma_pow2_unfold(2045);
    lemma_pow2_pos(2044);
    let top = mag_value(max_k, 52) * den;
    assert(2 * (overflow_64() * den) == 2 * top + pow2(2045) * den) by (nonlinear_arith)
        requires
            overflow_64() == (0x40_0000_0000_0000 - 1) * pow2(2044),
            pow2(2045) == 2 * pow2(2044),
            top == mag_value(max_k, 52) * den,
            mag_value(max_k, 52) == 0x1F_FFFF_FFFF_FFFF * pow2(2045),
    ;
    lemma_pow2_pos(2045);
    assert(pow2(2045) * den > 0) by (nonlinear_arith)
        requires
            pow2(2045) > 0,
            den > 0,
    ;
    if k == max_k {
        assert(u == 2045 && q == 0x1F_FFFF_FFFF_FFFF);
        // The midpoint between the largest finite number and 2^128 is the
        // overflow threshold.
        assert(lo + hi == 2 * (overflow_64() * den)) by (nonlinear_arith)
            requires
                lo == q * pow2(u) * den,
                hi == (q + 1) * pow2(u) * den,
                u == 2045,
                q == 0x1F_FFFF_FFFF_FFFF,
                2 * (overflow_64() * den) == 2 * top + pow2(2045) * den,
                top == 0x1F_FFFF_FFFF_FFFF * pow2(2045) * den,
        ;
        assert(top == lo);
    } else {
        assert(k < max_k);
        lemma_mag_value_monotone(k + 1, max_k, 52);
        assert(hi <= top) by (nonlinear_arith)
            requires
                mag_value(k + 1, 52) <= mag_value(max_k, 52),
                den > 0,
                hi == mag_value(k + 1, 52) * den,
                top == mag_value(max_k, 52) * den,
        ;
    }
    if magnitude_64(r) == INFINITY_64 {
        assert(k == max_k && up);
        assert(hi - big_x <= big_x - lo);
        assert(big_x >= overflow_64() * den);
    } else {
        if up {
            assert(k + 1 <= max_k);
            assert(big_x < hi);
            assert(hi <= top);
        } else {
            assert(big_x - lo <= hi - big_x);
            if k == max_k {
                assert(q % 2 == 1);
                assert(big_x - lo != hi - big_x);
            } else {
                assert(lo < hi);
            }
        }
        assert(big_x < overflow_64() * den);
        lemma_round_signed_64(r, big_x, neg, k, den);
    }
}

/// The sign of a sum: that of the exact sum, or for an exact zero sum the
/// sign bit only when both operands carry one.
pub open spec fn sum_sign_64(a: u64, b: u64) -> bool {
    if value_64(a) + value_64(b) == 0 {
        (a >= SIGN_BIT_64) && (b >= SIGN_BIT_64)
    } else {
        value_64(a) + value_64(b) < 0
    }
}

/// Scaled by a non-negative magnitude, the sign of a product is the
/// exclusive or of the signs.
proof fn lemma_product_sign_64(a: u64, b: u64)
    ensures
        value_64(a) * value_64(b) > 0 ==> (a >= SIGN_BIT_64) == (b >= SIGN_BIT_64),
        value_64(a) * value_64(b) < 0 ==> (a >= SIGN_BIT_64) != (b >= SIGN_BIT_64),
{
    let ma = mag_value(magnitude_64(a), 52) as int;
    let mb = mag_value(magnitude_64(b), 52) as int;
    lemma_signed_product(a >= SIGN_BIT_64, ma, b >= SIGN_BIT_64, mb);
    assert(ma * mb >= 0) by (nonlinear_arith)
        requires
            ma >= 0,
            mb >= 0,
    ;
}

/// The scaled number of `1.0` in `binary64` is `2^1074`.
pub proof fn lemma_unit_64()
    ensures
        unit_64() == pow2(1074),
{
    lemma2_to64();
    lemma2_to64_rest();
    lemma_mag_value_sig(0x10_0000_0000_0000, 1022, 52);
    lemma_pow2_adds(52, 1022);
}

/// The product of two signed magnitudes has the sign of the exclusive or.
proof fn lemma_signed_product(na: bool, ma: int, nb: bool, mb: int)
    ensures
        signed(na, ma) * signed(nb, mb) == signed(na != nb, ma * mb),
{
    assert((-ma) * (-mb) == ma * mb) by (nonlinear_arith);
    assert((-ma) * mb == -(ma * mb)) by (nonlinear_arith);
    assert(ma * (-mb) == -(ma * mb)) by (nonlinear_arith);
}

/// A `binary64` pattern rounding `num / den` to nearest, ties to even, is
/// unique once its sign is fixed, when that sign agrees with the sign of
/// the target.
pub proof fn lemma_rounding_unique_64(r1: u64, r2: u64, num: int, den: int)
    requires
        den > 0,
        rounds_to_64(r1, num, den),
        rounds_to_64(r2, num, den),
        (r1 >= SIGN_BIT_64) == (r2 >= SIGN_BIT_64),
        num > 0 ==> !(r1 >= SIGN_BIT_64),
        num < 0 ==> (r1 >= SIGN_BIT_64),
    ensures
        r1 == r2,
{
    if magnitude_64(r1) < magnitude_64(r2) {
        lemma_rounding_unique_ordered_64(r1, r2, num, den);
    } else if magnitude_64(r2) < magnitude_64(r1) {
        lemma_rounding_unique_ordered_64(r2, r1, num, den);
    }
    vstd::arithmetic::div_mod::lemma_fundamental_div_mod(r1 as int, SIGN_BIT_64 as int);
    vstd::arithmetic::div_mod::lemma_fundamental_div_mod(r2 as int, SIGN_BIT_64 as int);
}

proof fn lemma_rounding_unique_ordered_64(r1: u64, r2: u64, num: int, den: int)
    requires
        den > 0,
        rounds_to_64(r1, num, den),
        rounds_to_64(r2, num, den),
        (r1 >= SIGN_BIT_64) == (r2 >= SIGN_BIT_64),
        num > 0 ==> !(r1 >= SIGN_BIT_64),
        num < 0 ==> (r1 >= SIGN_BIT_64),
    ensures
        magnitude_64(r1) >= magnitude_64(r2),
{
    if magnitude_64(r1) < magnitude_64(r2) {
        let neg = (r1 >= SIGN_BIT_64);
        let j1 = magnitude_64(r1);
        let j2 = magnitude_64(r2);
        let big_x = if num < 0 {
            -num
        } else {
            num
        };
        let w1 = mag_value(j1, 52) * den;
        let w2 = mag_value(j2, 52) * den;
        lemma_scaled_order_64(j1, j2, den);
        lemma_scaled_order_64(j1 + 1, j2, den);
        lemma_scaled_order_64(j1, j1 + 1, den);
        let c: u64 = if neg {
            (SIGN_BIT_64 + j1 + 1) as u64
        } else {
            (j1 + 1) as u64
        };
        assert(magnitude_64(c) == j1 + 1);
        let wc = mag_value(j1 + 1, 52) * den;
        assert forall|v: int| #[trigger] ((-v) * den) == -(v * den) by {
            assert((-v) * den == -(v * den)) by (nonlinear_arith);
        }
        assert(distance(value_64(r1) * den, num) == distance(w1, big_x)) by {
            assert((-(mag_value(j1, 52) as int)) * den == -w1);
        }
        assert(distance(value_64(r2) * den, num) == distance(w2, big_x)) by {
            assert((-(mag_value(j2, 52) as int)) * den == -w2);
        }
        assert(distance(value_64(c) * den, num) == distance(wc, big_x)) by {
            assert((-(mag_value(j1 + 1, 52) as int)) * den == -wc);
        }
        assert((magnitude_64(c) < INFINITY_64));
        assert(value_64(r1) != value_64(r2));
        assert((r1 % 0x8000_0000_0000_0000) % 2 == r1 % 2) by (bit_vector);
        assert((r2 % 0x8000_0000_0000_0000) % 2 == r2 % 2) by (bit_vector);
        assert(j1 % 2 == 0 && j2 % 2 == 0);
        assert(j1 + 1 < j2);
        assert(w1 < wc < w2);
        assert(false);
    }
}

/// Any finite number other than the normal number `a` (with significand
/// `sig` and exponent `k >= 1`) is at least `2^(k - 1)` away from it.
proof fn lemma_normal_gap_64(a: u64, c: u64, sig: nat, k: nat)
    requires
        (magnitude_64(a) < INFINITY_64),
        (magnitude_64(c) < INFINITY_64),
        magnitude_64(a) == k * 0x10_0000_0000_0000 + sig,
        0x10_0000_0000_0000 <= sig < 0x20_0000_0000_0000,
        k >= 1,
        value_64(c) != value_64(a),
    ensures
        distance(value_64(c), value_64(a)) >= pow2((k - 1) as nat),
{
    lemma2_to64();
    lemma2_to64_rest();
    let m1 = magnitude_64(a);
    let j = magnitude_64(c);
    lemma_mag_value_sig(sig, k, 52);
    let ma = mag_value(m1, 52) as int;
    let mc = mag_value(j, 52) as int;
    lemma_pow2_unfold(k);
    lemma_pow2_pos((k - 1) as nat);
    assert(ma >= pow2(k)) by (nonlinear_arith)
        requires
            ma == sig * pow2(k),
            sig >= 1,
            pow2(k) > 0,
    ;
    if (a >= SIGN_BIT_64) == (c >= SIGN_BIT_64) {
        assert(j != m1);
        if j > m1 {
            lemma_mag_value_monotone(j, m1 + 1, 52);
            assert(mag_value(m1 + 1, 52) == (sig + 1) * pow2(k));
            assert((sig + 1) * pow2(k) == ma + pow2(k)) by (nonlinear_arith)
                requires
                    ma == sig * pow2(k),
            ;
        } else {
            lemma_mag_value_monotone(j, (m1 - 1) as nat, 52);
            if sig > 0x10_0000_0000_0000 {
                lemma_mag_value_sig((sig - 1) as nat, k, 52);
                assert((sig - 1) * pow2(k) == ma - pow2(k)) by (nonlinear_arith)
                    requires
                        ma == sig * pow2(k),
                ;
            } else {
                assert(m1 - 1 == (k - 1) * 0x10_0000_0000_0000 + 0x1F_FFFF_FFFF_FFFF);
                lemma_mag_value_sig(0x1F_FFFF_FFFF_FFFF, (k - 1) as nat, 52);
                assert(0x1F_FFFF_FFFF_FFFF * pow2((k - 1) as nat) == ma - pow2((k - 1) as nat)) by (
                nonlinear_arith)
                    requires
                        ma == sig * pow2(k),
                        sig == 0x10_0000_0000_0000,
                        pow2(k) == 2 * pow2((k - 1) as nat),
                ;
            }
        }
    }
}

/// When `b` is below a quarter of the unit in the last place of the normal
/// number `a`, the sum rounds to `a`.
proof fn lemma_sum_far_64(a: u64, b: u64, s1: nat, k1: nat, s2: nat, k2: nat)
    requires
        (magnitude_64(a) < INFINITY_64),
        (magnitude_64(b) < INFINITY_64),
        magnitude_64(a) == k1 * 0x10_0000_0000_0000 + s1,
        magnitude_64(b) == k2 * 0x10_0000_0000_0000 + s2,
        0x10_0000_0000_0000 <= s1 < 0x20_0000_0000_0000,
        s2 < 0x20_0000_0000_0000,
        mag_value(magnitude_64(b), 52) == s2 * pow2(k2),
        k1 > k2 + 64,
    ensures
        rounds_to_64(a, value_64(a) + value_64(b), 1),
        value_64(a) + value_64(b) != 0,
        value_64(a) + value_64(b) < 0 <==> (a >= SIGN_BIT_64),
{
    lemma2_to64();
    lemma2_to64_rest();
    let va = value_64(a);
    let vb = value_64(b);
    let x = va + vb;
    let mb = s2 * pow2(k2);
    let q = pow2((k1 - 2) as nat);
    // |vb| < 2^53 * 2^k2 <= 2^(k1 - 12) < 2^(k1 - 2)
    lemma_pow2_pos(k2);
    lemma_pow2_adds(53, k2);
    assert(mb < pow2(53) * pow2(k2)) by (nonlinear_arith)
        requires
            mb == s2 * pow2(k2),
            s2 < pow2(53),
            pow2(k2) > 0,
    ;
    lemma_pow2_strictly_increases(53 + k2, (k1 - 2) as nat);
    assert(mb < q);
    lemma_pow2_unfold((k1 - 1) as nat);
    lemma_mag_value_sig(s1, k1, 52);
    lemma_pow2_strictly_increases((k1 - 2) as nat, k1);
    assert(s1 * pow2(k1) >= pow2(k1)) by (nonlinear_arith)
        requires
            s1 >= 1,
    ;
    assert(distance(va, x) == mb);
    assert forall|c: u64| #[trigger] magnitude_64(c) < INFINITY_64 implies distance(value_64(a) * 1, x)
        <= distance(value_64(c) * 1, x) && (distance(value_64(c) * 1, x) == distance(
        value_64(a) * 1,
        x,
    ) && value_64(c) != value_64(a) ==> (a % 2 == 0)) by {
        if value_64(c) != value_64(a) {
            lemma_normal_gap_64(a, c, s1, k1);
        }
    }
}

/// The quiet NaN that the operations here give for every NaN result.
pub const QNAN_64: u64 = 0x7FF8_0000_0000_0000;

/// The pattern encodes `NaN`.
pub open spec fn is_nan_64(x: u64) -> bool {
    magnitude_64(x) > INFINITY_64
}

/// The pattern encodes an infinity.
pub open spec fn is_inf_64(x: u64) -> bool {
    magnitude_64(x) == INFINITY_64
}

/// The pattern encodes a zero (`+0.0` or `-0.0`).
pub open spec fn is_zero_64(x: u64) -> bool {
    magnitude_64(x) == 0
}

/// The infinity with the sign `neg`.
pub open spec fn infinity_64(neg: bool) -> u64 {
    if neg {
        (INFINITY_64 + SIGN_BIT_64) as u64
    } else {
        INFINITY_64
    }
}

/// The zero with the sign `neg`.
pub open spec fn zero_64(neg: bool) -> u64 {
    if neg {
        SIGN_BIT_64
    } else {
        0
    }
}

/// A pattern is its magnitude plus the sign bit when that is set.
proof fn lemma_pattern_64(r: u64)
    ensures
        r == (if r >= SIGN_BIT_64 {
            magnitude_64(r) + SIGN_BIT_64
        } else {
            magnitude_64(r) as int
        }),
{
    vstd::arithmetic::div_mod::lemma_fundamental_div_mod(r as int, SIGN_BIT_64 as int);
}

/// Rounding as IEEE-754 does is unique once the sign is fixed, when that
/// sign agrees with the sign of the target.
pub proof fn lemma_rounding_unique_ext_64(r1: u64, r2: u64, num: int, den: int)
    requires
        den > 0,
        rounds_to_ext_64(r1, num, den),
        rounds_to_ext_64(r2, num, den),
        (r1 >= SIGN_BIT_64) == (r2 >= SIGN_BIT_64),
        num > 0 ==> !(r1 >= SIGN_BIT_64),
        num < 0 ==> (r1 >= SIGN_BIT_64),
    ensures
        r1 == r2,
{
    if num >= overflow_64() * den || -num >= overflow_64() * den {
        lemma_pattern_64(r1);
        lemma_pattern_64(r2);
    } else {
        lemma_rounding_unique_64(r1, r2, num, den);
    }
}

/// IEEE-754 rounding does not depend on how the target fraction is written.
pub proof fn lemma_rescale_ext_64(r: u64, num1: int, den1: int, num2: int, den2: int)
    requires
        den1 > 0,
        den2 > 0,
        num1 * den2 == num2 * den1,
        rounds_to_ext_64(r, num1, den1),
    ensures
        rounds_to_ext_64(r, num2, den2),
{
    let t = overflow_64();
    assert(num1 >= t * den1 <==> num2 >= t * den2) by (nonlinear_arith)
        requires
            den1 > 0,
            den2 > 0,
            num1 * den2 == num2 * den1,
    ;
    assert(-num1 >= t * den1 <==> -num2 >= t * den2) by (nonlinear_arith)
        requires
            den1 > 0,
            den2 > 0,
            num1 * den2 == num2 * den1,
    ;
    if !(num1 >= t * den1 || -num1 >= t * den1) {
        lemma_rescale_64(r, num1, den1, num2, den2);
    }
}

/// The IEEE-754 product of two `binary64` patterns, rounding to nearest,
/// ties to even; every NaN result is [`QNAN_64`].
pub open spec fn product_64(a: u64, b: u64) -> u64 {
    if is_nan_64(a) || is_nan_64(b) || (is_inf_64(a) && is_zero_64(b)) || (is_zero_64(a)
        && is_inf_64(b)) {
        QNAN_64
    } else if is_inf_64(a) || is_inf_64(b) {
        infinity_64((a >= SIGN_BIT_64) != (b >= SIGN_BIT_64))
    } else {
        choose|r: u64|
            (r >= SIGN_BIT_64) == ((a >= SIGN_BIT_64) != (b >= SIGN_BIT_64))
                && #[trigger] rounds_to_ext_64(r, value_64(a) * value_64(b), unit_64())
    }
}

/// IEEE-754 multiplication of two `binary64` patterns: `NaN` for a `NaN`
/// operand or infinity times zero, an infinity for another infinite operand,
/// and otherwise the exact product rounded to nearest, ties to even (an
/// infinity on overflow). The sign is the exclusive or of the operands'
/// signs.
pub fn mul_64(a: u64, b: u64) -> (r: u64)
    ensures
        r == product_64(a, b),
        r == product_64(b, a),
        magnitude_64(a) < INFINITY_64 && magnitude_64(b) < INFINITY_64 ==> (r >= SIGN_BIT_64)
            == ((a >= SIGN_BIT_64) != (b >= SIGN_BIT_64)) && rounds_to_ext_64(
            r,
            value_64(a) * value_64(b),
            unit_64(),
        ),
{
    let ma: u64 = a % SIGN_BIT_64;
    let mb: u64 = b % SIGN_BIT_64;
    let neg: bool = (a >= SIGN_BIT_64) != (b >= SIGN_BIT_64);
    if ma > INFINITY_64 || mb > INFINITY_64 || (ma == INFINITY_64 && mb == 0) || (ma == 0 && mb
        == INFINITY_64) {
        return QNAN_64;
    }
    if ma == INFINITY_64 || mb == INFINITY_64 {
        return if neg {
            INFINITY_64 + SIGN_BIT_64
        } else {
            INFINITY_64
        };
    }
    let (sa, ka): (u64, u64) = split_64(ma);
    let (sb, kb): (u64, u64) = split_64(mb);
    proof {
        assert((sa as u128) * (sb as u128) < 0x400_0000_0000_0000_0000_0000_0000) by (nonlinear_arith)
            requires
                sa < 0x20_0000_0000_0000,
                sb < 0x20_0000_0000_0000,
        ;
    }
    let n: u128 = (sa as u128) * (sb as u128);
    let sh: i64 = ka as i64 + kb as i64 - 1074;
    let ghost e = pos_part(sh as int);
    let ghost d = neg_part(sh as int);
    let ghost prod: int = n * pow2((ka + kb) as nat);
    proof {
        let ma2 = mag_value(magnitude_64(a), 52) as int;
        let mb2 = mag_value(magnitude_64(b), 52) as int;
        lemma_unit_64();
        lemma2_to64();
        lemma2_to64_rest();
        lemma_exponent_parts(sh as int);
        lemma_pow2_pos(e);
        lemma_pow2_pos(d);
        lemma_pow2_pos(1074);
        lemma_pow2_adds(ka as nat, kb as nat);
        assert(ma2 * mb2 == prod) by (nonlinear_arith)
            requires
                ma2 == sa * pow2(ka as nat),
                mb2 == sb * pow2(kb as nat),
                n == sa * sb,
                prod == n * pow2((ka + kb) as nat),
                pow2(ka as nat) * pow2(kb as nat) == pow2((ka + kb) as nat),
        ;
        lemma_signed_product(a >= SIGN_BIT_64, ma2, b >= SIGN_BIT_64, mb2);
        assert(value_64(a) * value_64(b) == signed(neg, prod));
        lemma_pow2_balance(e, 1074, (ka + kb) as nat, d);
        assert(n * pow2(e) * pow2(1074) == prod * pow2(d)) by (nonlinear_arith)
            requires
                pow2(e) * pow2(1074) == pow2((ka + kb) as nat) * pow2(d),
                prod == n * pow2((ka + kb) as nat),
        ;
    }
    let r: u64 = round_frac_64(neg, n, sh, 0, 1);
    proof {
        assert((n * 1 + 0) * pow2(e) == n * pow2(e));
        assert(1 * pow2(d) == pow2(d));
        assert(signed(neg, n * pow2(e)) * pow2(1074) == signed(neg, prod) * pow2(d)) by {
            lemma_signed_product(neg, n * pow2(e), false, pow2(1074) as int);
            lemma_signed_product(neg, prod, false, pow2(d) as int);
        }
        lemma_rescale_ext_64(
            r,
            signed(neg, n * pow2(e)),
            pow2(d) as int,
            value_64(a) * value_64(b),
            unit_64(),
        );
        lemma_product_sign_64(a, b);
        lemma_rounding_unique_ext_64(
            r,
            product_64(a, b),
            value_64(a) * value_64(b),
            unit_64(),
        );
        let va = value_64(a);
        let vb = value_64(b);
        assert(vb * va == va * vb) by (nonlinear_arith);
        lemma_product_sign_64(b, a);
        assert(rounds_to_ext_64(r, vb * va, unit_64()));
        lemma_rounding_unique_ext_64(r, product_64(b, a), vb * va, unit_64());
    }
    r
}

/// A sum that rounds to the larger of two far apart finite summands stays
/// below the overflow threshold.
proof fn lemma_sum_far_bound_64(a: u64, b: u64, s1: nat, k1: nat, s2: nat, k2: nat)
    requires
        magnitude_64(a) == k1 * 0x10_0000_0000_0000 + s1,
        magnitude_64(b) == k2 * 0x10_0000_0000_0000 + s2,
        0x10_0000_0000_0000 <= s1 < 0x20_0000_0000_0000,
        s2 < 0x20_0000_0000_0000,
        mag_value(magnitude_64(b), 52) == s2 * pow2(k2),
        k1 > k2 + 64,
        k1 <= 2045,
    ensures
        -overflow_64() < value_64(a) + value_64(b) < overflow_64(),
{
    lemma2_to64();
    lemma2_to64_rest();
    let ma = s1 * pow2(k1);
    let mb = s2 * pow2(k2);
    lemma_mag_value_sig(s1, k1, 52);
    lemma_pow2_pos(k2);
    lemma_pow2_adds(53, k2);
    assert(mb < pow2(53) * pow2(k2)) by (nonlinear_arith)
        requires
            mb == s2 * pow2(k2),
            s2 < pow2(53),
            pow2(k2) > 0,
    ;
    lemma_pow2_strictly_increases(53 + k2, 2043);
    lemma_pow2_unfold(2045);
    lemma_pow2_unfold(2044);
    if k1 < 2045 {
        lemma_pow2_strictly_increases(k1, 2045);
    }
    lemma_pow2_pos(k1);
    assert(ma <= (0x20_0000_0000_0000 - 1) * pow2(2045)) by (nonlinear_arith)
        requires
            ma == s1 * pow2(k1),
            s1 < 0x20_0000_0000_0000,
            pow2(k1) <= pow2(2045),
            pow2(k1) > 0,
    ;
    assert(ma + mb < overflow_64());
}

/// The IEEE-754 sum of two `binary64` patterns, rounding to nearest, ties
/// to even; every NaN result is [`QNAN_64`].
pub open spec fn sum_64(a: u64, b: u64) -> u64 {
    if is_nan_64(a) || is_nan_64(b) || (is_inf_64(a) && is_inf_64(b) && (a >= SIGN_BIT_64) != (b
        >= SIGN_BIT_64)) {
        QNAN_64
    } else if is_inf_64(a) {
        a
    } else if is_inf_64(b) {
        b
    } else {
        choose|r: u64|
            (r >= SIGN_BIT_64) == sum_sign_64(a, b) && #[trigger] rounds_to_ext_64(
                r,
                value_64(a) + value_64(b),
                1,
            )
    }
}

/// The general sum of two finite `binary64` numbers whose exponents are
/// ordered.
fn add_ordered_64(a: u64, b: u64, s1: u64, k1: u64, s2: u64, k2: u64) -> (r: u64)
    requires
        (magnitude_64(a) < INFINITY_64),
        (magnitude_64(b) < INFINITY_64),
        magnitude_64(a) == k1 * 0x10_0000_0000_0000 + s1,
        magnitude_64(b) == k2 * 0x10_0000_0000_0000 + s2,
        s1 < 0x20_0000_0000_0000,
        s2 < 0x20_0000_0000_0000,
        k1 == 0 || s1 >= 0x10_0000_0000_0000,
        k2 == 0 || s2 >= 0x10_0000_0000_0000,
        k1 <= 2045,
        mag_value(magnitude_64(a), 52) == s1 * pow2(k1 as nat),
        mag_value(magnitude_64(b), 52) == s2 * pow2(k2 as nat),
        k1 >= k2,
    ensures
        (r >= SIGN_BIT_64) == sum_sign_64(a, b),
        rounds_to_ext_64(r, value_64(a) + value_64(b), 1),
{
    proof {
        lemma2_to64();
        lemma2_to64_rest();
        lemma_overflow_positive_64(1);
    }
    let d: u64 = k1 - k2;
    if d > 64 {
        proof {
            lemma_sum_far_64(a, b, s1 as nat, k1 as nat, s2 as nat, k2 as nat);
            lemma_sum_far_bound_64(a, b, s1 as nat, k1 as nat, s2 as nat, k2 as nat);
        }
        return a;
    }
    let p: u128 = pow2_u128(d as u64);
    proof {
        lemma_pow2_strictly_increases(d as nat, 65);
        lemma2_to64_rest();
        lemma_pow2_adds(64, 1);
        assert((s1 as u128) * p <= 0x20_0000_0000_0000 * 0x2_0000_0000_0000_0000) by (nonlinear_arith)
            requires
                s1 < 0x20_0000_0000_0000,
                p < 0x2_0000_0000_0000_0000,
        ;
    }
    let big: u128 = (s1 as u128) * p;
    let small: u128 = s2 as u128;
    let na: bool = a >= SIGN_BIT_64;
    let nb: bool = b >= SIGN_BIT_64;
    let (n, neg): (u128, bool) = if na == nb {
        (big + small, na)
    } else if big >= small {
        (big - small, na)
    } else {
        (small - big, nb)
    };
    let ghost va: int = value_64(a);
    let ghost vb: int = value_64(b);
    let ghost w: int = pow2(k2 as nat) as int;
    proof {
        lemma_pow2_adds(d as nat, k2 as nat);
        assert(s1 * pow2(k1 as nat) == big * w) by (nonlinear_arith)
            requires
                big == s1 * p,
                p * w == pow2(k1 as nat),
        ;
        assert(va == signed(na, big * w));
        assert(vb == signed(nb, small * w));
        assert(va + vb == signed(neg, n * w)) by (nonlinear_arith)
            requires
                va == signed(na, big * w),
                vb == signed(nb, small * w),
                na == nb ==> n == big + small && neg == na,
                na != nb && big >= small ==> n == big - small && neg == na,
                na != nb && big < small ==> n == small - big && neg == nb,
        ;
        lemma_pow2_pos(k2 as nat);
    }
    if n == 0 {
        let r: u64 = if na && nb {
            SIGN_BIT_64
        } else {
            0
        };
        proof {
            assert(va + vb == 0) by (nonlinear_arith)
                requires
                    va + vb == signed(neg, n * w),
                    n == 0,
            ;
            lemma_mag_value_sig(0, 0, 52);
            lemma_round_signed_64(r, 0, na && nb, 0, 1);
        }
        return r;
    }
    proof {
        assert(n * w > 0) by (nonlinear_arith)
            requires
                n > 0,
                w > 0,
        ;
        assert(pow2(0) == 1);
        assert(pos_part(k2 as int) == k2 as nat);
        assert(neg_part(k2 as int) == 0);
        assert((n * 1 + 0) * pow2(k2 as nat) == n * w);
        assert(1 * pow2(0) == 1);
    }
    let r: u64 = round_frac_64(neg, n, k2 as i64, 0, 1);
    r
}

/// IEEE-754 addition of two `binary64` patterns: `NaN` for a `NaN` operand
/// or infinities of opposite signs, the infinite operand for another
/// infinite one, and otherwise the exact sum rounded to nearest, ties to
/// even (an infinity on overflow). A nonzero exact sum gives its sign; an
/// exact zero sum is `-0.0` only when both operands carry a sign bit.
pub fn add_64(a: u64, b: u64) -> (r: u64)
    ensures
        r == sum_64(a, b),
        r == sum_64(b, a),
        magnitude_64(a) < INFINITY_64 && magnitude_64(b) < INFINITY_64 ==> (r >= SIGN_BIT_64)
            == sum_sign_64(a, b) && rounds_to_ext_64(r, value_64(a) + value_64(b), 1),
        magnitude_64(a) < INFINITY_64 && magnitude_64(b) < INFINITY_64 && magnitude_64(r)
            < INFINITY_64 ==> magnitude_64(sum_64(negate_64(b), negate_64(a))) < INFINITY_64
            && value_64(sum_64(negate_64(b), negate_64(a))) == -value_64(r),
{
    let ma: u64 = a % SIGN_BIT_64;
    let mb: u64 = b % SIGN_BIT_64;
    if ma > INFINITY_64 || mb > INFINITY_64 || (ma == INFINITY_64 && mb == INFINITY_64 && (a
        >= SIGN_BIT_64) != (b >= SIGN_BIT_64)) {
        return QNAN_64;
    }
    if ma == INFINITY_64 {
        return a;
    }
    if mb == INFINITY_64 {
        return b;
    }
    let (sa, ka): (u64, u64) = split_64(ma);
    let (sb, kb): (u64, u64) = split_64(mb);
    let r: u64 = if ka >= kb {
        add_ordered_64(a, b, sa, ka, sb, kb)
    } else {
        add_ordered_64(b, a, sb, kb, sa, ka)
    };
    proof {
        assert((r >= SIGN_BIT_64) == sum_sign_64(a, b));
        if value_64(a) + value_64(b) > 0 {
            assert(!(r >= SIGN_BIT_64));
        }
        lemma_rounding_unique_ext_64(r, sum_64(a, b), value_64(a) + value_64(b), 1);
        assert((r >= SIGN_BIT_64) == sum_sign_64(b, a));
        assert(rounds_to_ext_64(r, value_64(b) + value_64(a), 1));
        lemma_rounding_unique_ext_64(r, sum_64(b, a), value_64(b) + value_64(a), 1);
        if magnitude_64(r) < INFINITY_64 {
            lemma_sum_negated_64(a, b, r);
        }
    }
    r
}

/// Shifts a nonzero significand up until its leading bit is bit 52:
/// `sig * 2^z` lies in `[2^52, 2^53)`.
fn normalize_64(sig: u64) -> (r: (u128, u64))
    requires
        0 < sig < 0x20_0000_0000_0000,
    ensures
        r.1 <= 52,
        r.0 == sig * pow2(r.1 as nat),
        0x10_0000_0000_0000 <= r.0 < 0x20_0000_0000_0000,
{
    let l: u64 = bit_length(sig as u128);
    proof {
        lemma2_to64();
        lemma2_to64_rest();
        if l > 53 {
            lemma_pow2_strictly_increases(53, (l - 1) as nat);
        }
    }
    let z: u64 = 53 - l;
    let p: u128 = pow2_u128(z);
    proof {
        lemma_pow2_adds((l - 1) as nat, z as nat);
        lemma_pow2_adds(l as nat, z as nat);
        assert(pow2((l - 1) as nat) * p <= sig * p < pow2(l as nat) * p) by (nonlinear_arith)
            requires
                pow2((l - 1) as nat) <= sig < pow2(l as nat),
                p > 0,
        ;
    }
    ((sig as u128) * p, z)
}

/// `2^a * 2^b * 2^c * 2^d == 2^(a + b + c + d)`.
proof fn lemma_pow2_four(a: nat, b: nat, c: nat, d: nat)
    ensures
        pow2(a) * pow2(b) * pow2(c) * pow2(d) == pow2(a + b + c + d),
{
    lemma_pow2_adds(a, b);
    lemma_pow2_adds(a + b, c);
    lemma_pow2_adds(a + b + c, d);
}

/// The IEEE-754 quotient of two `binary64` patterns, rounding to nearest,
/// ties to even; every NaN result is [`QNAN_64`]. The exact quotient of
/// finite nonzero operands is `signed(xor, |a| * 2^1074) / |b|` in the
/// `binary64` scale.
pub open spec fn quotient_64(a: u64, b: u64) -> u64 {
    let neg = (a >= SIGN_BIT_64) != (b >= SIGN_BIT_64);
    if is_nan_64(a) || is_nan_64(b) || (is_inf_64(a) && is_inf_64(b)) || (is_zero_64(a)
        && is_zero_64(b)) {
        QNAN_64
    } else if is_inf_64(a) || is_zero_64(b) {
        infinity_64(neg)
    } else if is_inf_64(b) || is_zero_64(a) {
        zero_64(neg)
    } else {
        choose|r: u64|
            (r >= SIGN_BIT_64) == neg && #[trigger] rounds_to_ext_64(
                r,
                signed(neg, mag_value(magnitude_64(a), 52) * unit_64()),
                mag_value(magnitude_64(b), 52) as int,
            )
    }
}

/// IEEE-754 division of two `binary64` patterns: `NaN` for a `NaN`
/// operand, two infinities or two zeros, an infinity for an infinite
/// dividend or a zero divisor, a zero for an infinite divisor or a zero
/// dividend, and otherwise the exact quotient rounded to nearest, ties to
/// even (an infinity on overflow). The sign is the exclusive or of the
/// operands' signs.
pub fn div_64(a: u64, b: u64) -> (r: u64)
    ensures
        r == quotient_64(a, b),
        0 < magnitude_64(a) < INFINITY_64 && 0 < magnitude_64(b) < INFINITY_64 ==> (r
            >= SIGN_BIT_64) == ((a >= SIGN_BIT_64) != (b >= SIGN_BIT_64)) && rounds_to_ext_64(
            r,
            signed(
                (a >= SIGN_BIT_64) != (b >= SIGN_BIT_64),
                mag_value(magnitude_64(a), 52) * unit_64(),
            ),
            mag_value(magnitude_64(b), 52) as int,
        ),
{
    let ma: u64 = a % SIGN_BIT_64;
    let mb: u64 = b % SIGN_BIT_64;
    let neg: bool = (a >= SIGN_BIT_64) != (b >= SIGN_BIT_64);
    if ma > INFINITY_64 || mb > INFINITY_64 || (ma == INFINITY_64 && mb == INFINITY_64) || (ma
        == 0 && mb == 0) {
        return QNAN_64;
    }
    if ma == INFINITY_64 || mb == 0 {
        return if neg {
            INFINITY_64 + SIGN_BIT_64
        } else {
            INFINITY_64
        };
    }
    if mb == INFINITY_64 || ma == 0 {
        return if neg {
            SIGN_BIT_64
        } else {
            0
        };
    }
    let (sa, ka): (u64, u64) = split_64(ma);
    let (sb, kb): (u64, u64) = split_64(mb);
    let (na, za): (u128, u64) = normalize_64(sa);
    let (nb, zb): (u128, u64) = normalize_64(sb);
    let p: u128 = pow2_u128(62);
    proof {
        lemma2_to64();
        lemma2_to64_rest();
        assert(na * p < 0x20_0000_0000_0000 * 0x4000_0000_0000_0000) by (nonlinear_arith)
            requires
                na < 0x20_0000_0000_0000,
                p == 0x4000_0000_0000_0000,
        ;
    }
    let big_n: u128 = na * p;
    let q: u128 = big_n / nb;
    let rem: u128 = big_n % nb;
    let sh: i64 = ka as i64 - za as i64 - kb as i64 + zb as i64 + 1012;
    let ghost e = pos_part(sh as int);
    let ghost d = neg_part(sh as int);
    proof {
        vstd::arithmetic::div_mod::lemma_fundamental_div_mod(big_n as int, nb as int);
        vstd::arithmetic::div_mod::lemma_mod_bound(big_n as int, nb as int);
        // q >= 2^52 * 2^62 / 2^53 = 2^61.
        assert(q >= 0x2000_0000_0000_0000) by (nonlinear_arith)
            requires
                big_n == nb * q + rem,
                rem < nb,
                big_n >= 0x10_0000_0000_0000 * 0x4000_0000_0000_0000,
                nb < 0x20_0000_0000_0000,
        ;
        assert(q <= big_n) by (nonlinear_arith)
            requires
                big_n == nb * q + rem,
                rem >= 0,
                nb >= 1,
                q >= 0,
        ;
    }
    let r: u64 = round_frac_64(neg, q, sh, rem, nb);
    proof {
        let mva = mag_value(magnitude_64(a), 52) as int;
        let mvb = mag_value(magnitude_64(b), 52) as int;
        lemma_exponent_parts(sh as int);
        lemma_unit_64();
        // (q * nb + rem) * 2^e * mvb == mva * 2^1074 * (nb * 2^d): both are
        // sa * sb * 2^(za + 62 + e + kb).
        assert(za + 62 + e + kb == ka + 1074 + zb + d);
        lemma_pow2_four(za as nat, 62, e, kb as nat);
        lemma_pow2_four(ka as nat, 1074, zb as nat, d);
        let x1 = (q * nb + rem) * pow2(e);
        let p1 = pow2(za as nat);
        let p2 = pow2(zb as nat);
        let pa = pow2(ka as nat);
        let pb = pow2(kb as nat);
        let pe = pow2(e);
        let pd = pow2(d);
        let w1 = p1 * pow2(62) * pe * pb;
        let w2 = pa * pow2(1074) * p2 * pd;
        assert(w1 == w2);
        assert(x1 == sa * p1 * pow2(62) * pe) by (nonlinear_arith)
            requires
                x1 == (q * nb + rem) * pe,
                nb * q + rem == na * p,
                na == sa * p1,
                p == pow2(62),
        ;
        assert(sa * p1 * pow2(62) * pe * (sb * pb) == sa * sb * w1) by (nonlinear_arith)
            requires
                w1 == p1 * pow2(62) * pe * pb,
        ;
        assert(sa * pa * pow2(1074) * (sb * p2 * pd) == sa * sb * w2) by (nonlinear_arith)
            requires
                w2 == pa * pow2(1074) * p2 * pd,
        ;
        assert(mva * pow2(1074) == sa * pa * pow2(1074));
        assert(nb * pd == sb * p2 * pd);
        assert(x1 * mvb == (mva * pow2(1074)) * (nb * pow2(d)));
        lemma_pow2_pos(d);
        lemma_pow2_pos(kb as nat);
        assert(mvb > 0) by (nonlinear_arith)
            requires
                mvb == sb * pow2(kb as nat),
                sb > 0,
                pow2(kb as nat) > 0,
        ;
        assert(nb * pow2(d) > 0) by (nonlinear_arith)
            requires
                nb > 0,
                pow2(d) > 0,
        ;
        assert(signed(neg, x1) * mvb == signed(neg, mva * pow2(1074)) * (nb * pow2(d))) by {
            lemma_signed_product(neg, x1, false, mvb);
            lemma_signed_product(neg, mva * pow2(1074), false, nb * pow2(d));
        }
        lemma_rescale_ext_64(r, signed(neg, x1), nb * pow2(d), signed(neg, mva * unit_64()), mvb);
        assert(mva * pow2(1074) >= 0) by (nonlinear_arith)
            requires
                mva >= 0,
        ;
        lemma_rounding_unique_ext_64(
            r,
            quotient_64(a, b),
            signed(neg, mva * unit_64()),
            mvb,
        );
    }
    r
}

/// The overflow threshold lies far above `4.0`.
pub proof fn lemma_overflow_large_64()
    ensures
        overflow_64() > 4 * unit_64(),
{
    lemma_unit_64();
    lemma2_to64();
    lemma2_to64_rest();
    lemma_pow2_adds(2, 1074);
    lemma_pow2_strictly_increases(1076, 2044);
    lemma_pow2_pos(2044);
    assert(overflow_64() >= pow2(2044)) by (nonlinear_arith)
        requires
            overflow_64() == (0x40_0000_0000_0000 - 1) * pow2(2044),
            pow2(2044) > 0,
    ;
}

/// Every finite number lies strictly inside the overflow threshold.
pub proof fn lemma_finite_below_overflow_64(x: u64)
    requires
        magnitude_64(x) < INFINITY_64,
    ensures
        -overflow_64() < value_64(x) < overflow_64(),
{
    lemma2_to64();
    lemma2_to64_rest();
    lemma_mag_value_monotone(magnitude_64(x), 0x7FEF_FFFF_FFFF_FFFF, 52);
    lemma_mag_value_sig(0x1F_FFFF_FFFF_FFFF, 2045, 52);
    lemma_pow2_unfold(2045);
    lemma_pow2_pos(2044);
}

/// The pattern with its sign bit flipped.
pub open spec fn negate_64(x: u64) -> u64 {
    if x >= SIGN_BIT_64 {
        (x - SIGN_BIT_64) as u64
    } else {
        (x + SIGN_BIT_64) as u64
    }
}

/// Rounding to nearest is symmetric: negating the result rounds the
/// negated target.
pub proof fn lemma_rounds_negate_64(r: u64, num: int, den: int)
    requires
        den > 0,
        rounds_to_64(r, num, den),
    ensures
        rounds_to_64(negate_64(r), -num, den),
{
    let nr = negate_64(r);
    assert(value_64(nr) == -value_64(r));
    assert((-value_64(r)) * den == -(value_64(r) * den)) by (nonlinear_arith);
    assert(nr % 2 == r % 2);
    assert forall|c: u64| #[trigger] magnitude_64(c) < INFINITY_64 implies distance(
        value_64(nr) * den,
        -num,
    ) <= distance(value_64(c) * den, -num) && (distance(value_64(c) * den, -num) == distance(
        value_64(nr) * den,
        -num,
    ) && value_64(c) != value_64(nr) ==> nr % 2 == 0) by {
        let nc = negate_64(c);
        assert(magnitude_64(nc) < INFINITY_64);
        assert(value_64(nc) == -value_64(c));
        assert((-value_64(c)) * den == -(value_64(c) * den)) by (nonlinear_arith);
    }
}


/// An even finite pattern with the same number as a rounded result is a
/// rounded result too.
proof fn lemma_rounds_same_value_64(r: u64, w: u64, num: int, den: int)
    requires
        rounds_to_64(r, num, den),
        magnitude_64(w) < INFINITY_64,
        value_64(w) == value_64(r),
        w % 2 == 0,
    ensures
        rounds_to_64(w, num, den),
{
}

/// Negating both operands of a finite sum negates the number of the sum
/// (the sign of a zero sum may differ).
proof fn lemma_sum_negated_64(a: u64, b: u64, r: u64)
    requires
        magnitude_64(a) < INFINITY_64,
        magnitude_64(b) < INFINITY_64,
        magnitude_64(r) < INFINITY_64,
        (r >= SIGN_BIT_64) == sum_sign_64(a, b),
        rounds_to_ext_64(r, value_64(a) + value_64(b), 1),
    ensures
        magnitude_64(sum_64(negate_64(b), negate_64(a))) < INFINITY_64,
        value_64(sum_64(negate_64(b), negate_64(a))) == -value_64(r),
{
    let na = negate_64(a);
    let nb = negate_64(b);
    let nr = negate_64(r);
    let x = value_64(a) + value_64(b);
    lemma_pattern_64(a);
    lemma_pattern_64(b);
    lemma_pattern_64(r);
    lemma_mag_value_zero(magnitude_64(r), 52);
    lemma_mag_value_zero(0, 52);
    assert(magnitude_64(na) == magnitude_64(a));
    assert(magnitude_64(nb) == magnitude_64(b));
    assert(magnitude_64(nr) == magnitude_64(r));
    assert(value_64(na) == -value_64(a));
    assert(value_64(nb) == -value_64(b));
    assert(value_64(nr) == -value_64(r));
    assert(rounds_to_64(r, x, 1));
    assert(magnitude_64(0u64) < INFINITY_64);
    assert(value_64(0u64) == 0);
    assert(distance(value_64(r) * 1, x) <= distance(value_64(0u64) * 1, x));
    lemma_rounds_negate_64(r, x, 1);
    let num = value_64(nb) + value_64(na);
    assert(num == -x);
    let w = if value_64(r) == 0 {
        zero_64(sum_sign_64(nb, na))
    } else {
        nr
    };
    if value_64(r) == 0 {
        assert(magnitude_64(w) == 0);
        assert(value_64(w) == 0);
        lemma_rounds_same_value_64(nr, w, -x, 1);
    }
    assert(rounds_to_64(w, num, 1));
    assert(rounds_to_ext_64(w, num, 1));
    assert((w >= SIGN_BIT_64) == sum_sign_64(nb, na));
    lemma_rounding_unique_ext_64(w, sum_64(nb, na), num, 1);
}

} // verus!
