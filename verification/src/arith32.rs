//! Correctly rounded arithmetic on `binary32` patterns.
//!
//! Each operation computes the exact result as an integer significand `n`
//! times a power of two `2^sh` (in the `binary32` scale) and rounds it to the
//! nearest `binary32` number, ties to even, as IEEE-754 does by default.
use crate::binary32::{magnitude_32, unit_32, value_32, INFINITY_32, SIGN_BIT_32};
use crate::float::{distance, signed, UnitIntervalFloat};
use crate::ieee::{
    bit_length, lemma_mag_value_fields, lemma_mag_value_monotone, lemma_mag_value_sig,
    lemma_mag_value_zero, lemma_rounding_gap, mag_value, neg_part, pos_part, pow2_u128,
};
use vstd::arithmetic::power2::*;
use vstd::prelude::*;

verus! {

/// `r` is a finite pattern whose number is nearest to `num / den` among all
/// finite `binary32` numbers, and when another finite number is as near,
/// `r` is even (ties to even): IEEE-754 rounding to nearest.
pub open spec fn rounds_to_32(r: u32, num: int, den: int) -> bool {
    &&& magnitude_32(r) < INFINITY_32
    &&& forall|c: u32|
        #[trigger] magnitude_32(c) < INFINITY_32 ==> distance(value_32(r) * den, num) <= distance(
            value_32(c) * den,
            num,
        )
    &&& forall|c: u32|
        #[trigger] magnitude_32(c) < INFINITY_32 && distance(value_32(c) * den, num) == distance(
            value_32(r) * den,
            num,
        ) && value_32(c) != value_32(r) ==> r % 2 == 0
}

/// Rounding does not depend on how the target fraction is written:
/// `num1 / den1` and `num2 / den2` are the same number.
pub proof fn lemma_rescale_32(r: u32, num1: int, den1: int, num2: int, den2: int)
    requires
        den1 > 0,
        den2 > 0,
        num1 * den2 == num2 * den1,
        rounds_to_32(r, num1, den1),
    ensures
        rounds_to_32(r, num2, den2),
{
    assert forall|v: int|
        #![trigger distance(v * den2, num2)]
        distance(v * den2, num2) * den1 == distance(v * den1, num1) * den2 by {
        assert(v * den1 * den2 - num1 * den2 == den1 * (v * den2 - num2)) by (nonlinear_arith)
            requires
                num1 * den2 == num2 * den1,
        ;
        assert(distance(v * den2, num2) * den1 == distance(v * den1, num1) * den2) by (
        nonlinear_arith)
            requires
                v * den1 * den2 - num1 * den2 == den1 * (v * den2 - num2),
                den1 > 0,
                den2 > 0,
        ;
    }
    assert forall|c: u32| #[trigger] magnitude_32(c) < INFINITY_32 implies distance(
        value_32(r) * den2,
        num2,
    ) <= distance(value_32(c) * den2, num2) && (distance(value_32(c) * den2, num2) == distance(
        value_32(r) * den2,
        num2,
    ) && value_32(c) != value_32(r) ==> r % 2 == 0) by {
        let a1 = distance(value_32(r) * den1, num1);
        let b1 = distance(value_32(c) * den1, num1);
        let a2 = distance(value_32(r) * den2, num2);
        let b2 = distance(value_32(c) * den2, num2);
        assert(a2 * den1 == a1 * den2);
        assert(b2 * den1 == b1 * den2);
        assert(a1 <= b1);
        assert(a2 <= b2) by (nonlinear_arith)
            requires
                a2 * den1 == a1 * den2,
                b2 * den1 == b1 * den2,
                a1 <= b1,
                den1 > 0,
                den2 > 0,
        ;
        assert(b2 == a2 ==> b1 == a1) by (nonlinear_arith)
            requires
                a2 * den1 == a1 * den2,
                b2 * den1 == b1 * den2,
                den1 > 0,
                den2 > 0,
        ;
    }
}

/// Scaling by a positive `den` keeps the order of magnitudes.
proof fn lemma_scaled_order_32(a: nat, c: nat, den: int)
    requires
        den > 0,
    ensures
        a <= c <==> mag_value(a, 23) * den <= mag_value(c, 23) * den,
        a == c <==> mag_value(a, 23) * den == mag_value(c, 23) * den,
        mag_value(a, 23) * den >= 0,
        a == 0 <==> mag_value(a, 23) * den == 0,
{
    lemma_mag_value_monotone(a, c, 23);
    lemma_mag_value_monotone(c, a, 23);
    lemma_mag_value_zero(a, 23);
    let va = mag_value(a, 23) as int;
    let vc = mag_value(c, 23) as int;
    assert(va <= vc <==> va * den <= vc * den) by (nonlinear_arith)
        requires
            den > 0,
    ;
    assert(va == vc <==> va * den == vc * den) by (nonlinear_arith)
        requires
            den > 0,
    ;
    assert(va * den >= 0) by (nonlinear_arith)
        requires
            den > 0,
            va >= 0,
    ;
    assert(va == 0 <==> va * den == 0) by (nonlinear_arith)
        requires
            den > 0,
    ;
}

/// Choosing the nearer of the neighbouring magnitudes `k` and `k + 1`
/// around `big_x / den`, ties to the even one, and giving it the sign of
/// the target, rounds to nearest.
pub proof fn lemma_round_signed_32(r: u32, big_x: int, neg: bool, k: nat, den: int)
    requires
        den > 0,
        big_x >= 0,
        magnitude_32(r) < INFINITY_32,
        mag_value(k, 23) * den <= big_x < mag_value(k + 1, 23) * den,
        (r >= SIGN_BIT_32) == neg,
        magnitude_32(r) == k || magnitude_32(r) == k + 1,
        magnitude_32(r) == k ==> big_x - mag_value(k, 23) * den <= mag_value(k + 1, 23) * den
            - big_x,
        magnitude_32(r) == k + 1 ==> mag_value(k + 1, 23) * den - big_x <= big_x - mag_value(
            k,
            23,
        ) * den,
        big_x - mag_value(k, 23) * den == mag_value(k + 1, 23) * den - big_x ==> magnitude_32(r)
            % 2 == 0,
    ensures
        rounds_to_32(r, signed(neg, big_x), den),
{
    let x = signed(neg, big_x);
    let lo = mag_value(k, 23) * den;
    let hi = mag_value(k + 1, 23) * den;
    let rm = magnitude_32(r);
    lemma_scaled_order_32(k, k + 1, den);
    lemma_scaled_order_32(rm as nat, k, den);
    lemma_scaled_order_32(rm as nat, k + 1, den);
    assert(value_32(r) * den == (if neg {
        -(mag_value(rm as nat, 23) * den)
    } else {
        mag_value(rm as nat, 23) * den
    })) by {
        let v = mag_value(rm as nat, 23) as int;
        assert((-v) * den == -(v * den)) by (nonlinear_arith);
    }
    assert(distance(value_32(r) * den, x) == (if rm == k {
        big_x - lo
    } else {
        hi - big_x
    }));
    assert((r % 0x8000_0000) % 2 == r % 2) by (bit_vector);
    assert forall|c: u32| #[trigger] magnitude_32(c) < INFINITY_32 implies distance(value_32(r) * den, x)
        <= distance(value_32(c) * den, x) && (distance(value_32(c) * den, x) == distance(
        value_32(r) * den,
        x,
    ) && value_32(c) != value_32(r) ==> (r % 2 == 0)) by {
        let j = magnitude_32(c);
        let vj = mag_value(j, 23) as int;
        lemma_scaled_order_32(j, k, den);
        lemma_scaled_order_32(j, k + 1, den);
        lemma_scaled_order_32(j, rm as nat, den);
        lemma_scaled_order_32(j, 0, den);
        lemma_scaled_order_32(k, 0, den);
        assert(value_32(c) * den == (if c >= SIGN_BIT_32 {
            -(vj * den)
        } else {
            vj * den
        })) by {
            assert((-vj) * den == -(vj * den)) by (nonlinear_arith);
        }
        lemma_mag_value_zero(j, 23);
        lemma_mag_value_zero(rm as nat, 23);
        if (c >= SIGN_BIT_32) == neg {
            assert(distance(value_32(c) * den, x) == distance(vj * den, big_x));
        } else {
            assert(distance(value_32(c) * den, x) == vj * den + big_x);
            if vj * den == 0 && lo == 0 {
                assert(j == 0);
                assert(k == 0);
            }
        }
    }
}

/// The significand and exponent of a finite magnitude `mag`: the pattern
/// is `k * 2^23 + sig` and its scaled magnitude is `sig * 2^k`, with the
/// significand normalized (`sig >= 2^23`) whenever `k > 0`.
pub fn split_32(mag: u32) -> (r: (u32, u32))
    requires
        mag < INFINITY_32,
    ensures
        r.0 < 0x100_0000,
        r.1 <= 253,
        r.1 == 0 || r.0 >= 0x80_0000,
        mag == r.1 * 0x80_0000 + r.0,
        mag_value(mag as nat, 23) == r.0 * pow2(r.1 as nat),
{
    let e: u32 = mag / 0x80_0000;
    let m: u32 = mag % 0x80_0000;
    let r: (u32, u32) = if e == 0 {
        (m, 0)
    } else {
        (m + 0x80_0000, e - 1)
    };
    proof {
        lemma2_to64();
        lemma_mag_value_sig(r.0 as nat, r.1 as nat, 23);
    }
    r
}

/// Facts about the exponent split of a rounding target `n * 2^sh`.
proof fn lemma_exponent_parts(sh: int)
    ensures
        pos_part(sh) - neg_part(sh) == sh,
        pos_part(sh) == 0 || neg_part(sh) == 0,
{
}

/// `2^a * 2^b == 2^c * 2^d` when `a + b == c + d`.
proof fn lemma_pow2_balance(a: nat, b: nat, c: nat, d: nat)
    requires
        a + b == c + d,
    ensures
        pow2(a) * pow2(b) == pow2(c) * pow2(d),
{
    lemma_pow2_adds(a, b);
    lemma_pow2_adds(c, d);
}

/// When the target is an exact multiple of the unit in the last place,
/// the significand `q = n * 2^d` fits and is normalized.
proof fn lemma_round_exact_32(n: nat, l: nat, sh: int, u: nat, d: nat, q: nat)
    requires
        1 <= l <= 127,
        pow2((l - 1) as nat) <= n < pow2(l),
        u == (if l - 24 + sh > 0 {
            l - 24 + sh
        } else {
            0
        }),
        d == sh - u,
        q == n * pow2(d),
    ensures
        d <= 23,
        q < 0x100_0000,
        u == 0 || q >= 0x80_0000,
        q * pow2(u) * pow2(neg_part(sh)) == n * pow2(pos_part(sh)),
{
    lemma2_to64();
    lemma_exponent_parts(sh);
    lemma_pow2_pos(d);
    if u > 0 {
        assert(d == 24 - l);
        lemma_pow2_adds((l - 1) as nat, d);
        lemma_pow2_adds(l, d);
        assert(pow2((l - 1) as nat) * pow2(d) <= q < pow2(l) * pow2(d)) by (nonlinear_arith)
            requires
                pow2((l - 1) as nat) <= n < pow2(l),
                pow2(d) > 0,
                q == n * pow2(d),
        ;
        assert((l - 1) as nat + d == 23);
        assert(l + d == 24);
    } else {
        assert(l + d <= 24);
        lemma_pow2_adds(l, d);
        if l + d < 24 {
            lemma_pow2_strictly_increases(l + d, 24);
        }
        assert(q < pow2(l) * pow2(d)) by (nonlinear_arith)
            requires
                n < pow2(l),
                pow2(d) > 0,
                q == n * pow2(d),
        ;
    }
    lemma_pow2_balance(d, u + neg_part(sh), pos_part(sh), 0);
    assert(pow2(0) == 1);
    assert(q * pow2(u) * pow2(neg_part(sh)) == n * (pow2(d) * (pow2(u) * pow2(neg_part(sh)))))
        by (nonlinear_arith)
        requires
            q == n * pow2(d),
    ;
    lemma_pow2_adds(u, neg_part(sh));
}

/// When the target needs `s` bits shifted out, the significand
/// `q = n / 2^s` fits and is normalized.
proof fn lemma_round_shift_32(n: nat, l: nat, sh: int, u: nat, s: nat, q: nat, rem: nat)
    requires
        1 <= l <= 127,
        pow2((l - 1) as nat) <= n < pow2(l),
        u == (if l - 24 + sh > 0 {
            l - 24 + sh
        } else {
            0
        }),
        s == u - sh,
        s >= 1,
        n == q * pow2(s) + rem,
        rem < pow2(s),
    ensures
        q < 0x100_0000,
        u == 0 || q >= 0x80_0000,
        pow2(u) * pow2(neg_part(sh)) == pow2(s) * pow2(pos_part(sh)),
{
    lemma2_to64();
    lemma_exponent_parts(sh);
    lemma_pow2_pos(s);
    lemma_pow2_balance(u, neg_part(sh), s, pos_part(sh));
    if u > 0 {
        assert(s == l - 24);
        lemma_pow2_adds(24, s);
        lemma_pow2_adds(23, s);
        assert(l == 24 + s);
        assert((l - 1) as nat == 23 + s);
        assert(q < pow2(24)) by (nonlinear_arith)
            requires
                n == q * pow2(s) + rem,
                rem >= 0,
                n < pow2(24) * pow2(s),
                pow2(s) > 0,
        ;
        assert(q >= pow2(23)) by (nonlinear_arith)
            requires
                n == q * pow2(s) + rem,
                rem < pow2(s),
                pow2(23) * pow2(s) <= n,
                pow2(s) > 0,
        ;
    } else {
        assert(l <= 24 + s);
        lemma_pow2_adds(24, s);
        if l < 24 + s {
            lemma_pow2_strictly_increases(l, 24 + s);
        }
        assert(q < pow2(24)) by (nonlinear_arith)
            requires
                n == q * pow2(s) + rem,
                rem >= 0,
                n < pow2(24) * pow2(s),
                pow2(s) > 0,
        ;
    }
}

/// The scaled magnitude from which on IEEE-754 rounding to nearest
/// overflows to infinity: the largest finite `binary32` number plus half its
/// unit in the last place.
pub open spec fn overflow_32() -> int {
    (0x200_0000 - 1) * pow2(252)
}

/// `r` is `num / den` rounded as IEEE-754 rounds to nearest, ties to even,
/// in the `binary32` format: an infinity at or beyond the overflow threshold,
/// else the nearest finite number.
pub open spec fn rounds_to_ext_32(r: u32, num: int, den: int) -> bool {
    if num >= overflow_32() * den || -num >= overflow_32() * den {
        magnitude_32(r) == INFINITY_32
    } else {
        rounds_to_32(r, num, den)
    }
}

/// Rounds `(n + fnum / fden) * 2^sh` (in the `binary32` scale) as IEEE-754
/// rounds to nearest, ties to even, and gives the result the sign `neg`.
/// A nonzero fraction `fnum / fden` only says that the target lies strictly
/// between `n * 2^sh` and `(n + 1) * 2^sh`; it needs `n >= 2^25`, so that
/// `n` carries more bits than the result keeps.
pub fn round_frac_32(neg: bool, n: u128, sh: i64, fnum: u128, fden: u128) -> (r: u32)
    requires
        n < 0x8000_0000_0000_0000_0000_0000_0000_0000,
        -100_000 <= sh <= 100_000,
        fnum < fden,
        fnum > 0 ==> n >= 0x200_0000,
    ensures
        (r >= SIGN_BIT_32) == neg,
        rounds_to_ext_32(
            r,
            signed(neg, (n * fden + fnum) * pow2(pos_part(sh as int))),
            fden * pow2(neg_part(sh as int)),
        ),
{
    let ghost big_x: int = (n * fden + fnum) * pow2(pos_part(sh as int));
    let ghost den: int = fden * pow2(neg_part(sh as int));
    proof {
        lemma2_to64();
        lemma_pow2_pos(neg_part(sh as int));
        lemma_pow2_pos(pos_part(sh as int));
        lemma_exponent_parts(sh as int);
        assert(den > 0) by (nonlinear_arith)
            requires
                fden > 0,
                pow2(neg_part(sh as int)) > 0,
                den == fden * pow2(neg_part(sh as int)),
        ;
        assert(big_x >= 0) by (nonlinear_arith)
            requires
                big_x == (n * fden + fnum) * pow2(pos_part(sh as int)),
                n >= 0,
                fden > 0,
                fnum >= 0,
        ;
    }
    if n == 0 {
        let r: u32 = if neg {
            SIGN_BIT_32
        } else {
            0
        };
        proof {
            lemma_mag_value_sig(0, 0, 23);
            assert(big_x == 0);
            lemma_round_signed_32(r, 0, neg, 0, den);
            lemma_overflow_positive_32(den);
        }
        return r;
    }
    let l: u64 = bit_length(n);
    let t: i64 = l as i64 - 24 + sh;
    let u: i64 = if t > 0 {
        t
    } else {
        0
    };
    if u > 253 {
        let r: u32 = if neg {
            INFINITY_32 + SIGN_BIT_32
        } else {
            INFINITY_32
        };
        proof {
            lemma_round_overflow_32(n as nat, l as nat, sh as int, fnum as nat, fden as nat);
        }
        return r;
    }
    let d: i64 = sh - u;
    let ghost q_g: int;
    let ghost rem_g: int;
    let ghost half2: int;
    let ghost unit_g: int;
    let (q, up): (u128, bool) = if d >= 0 {
        proof {
            lemma_round_exact_32(
                n as nat,
                l as nat,
                sh as int,
                u as nat,
                d as nat,
                (n * pow2(d as nat)) as nat,
            );
            if fnum > 0 {
                lemma_pow2_adds(24, 1);
                assert(pow2(25) == 0x200_0000);
                if l < 26 {
                    lemma_pow2_strictly_increases(l as nat, 25);
                }
            }
        }
        let p: u128 = pow2_u128(d as u64);
        let qq: u128 = n * p;
        proof {
            q_g = qq as int;
            rem_g = 0;
            half2 = 1;
            unit_g = pow2(u as nat) * den;
            lemma_pow2_pos(u as nat);
            assert(unit_g > 0) by (nonlinear_arith)
                requires
                    pow2(u as nat) > 0,
                    den > 0,
                    unit_g == pow2(u as nat) * den,
            ;
            assert(q_g * pow2(u as nat) * den + rem_g * unit_g == big_x) by (nonlinear_arith)
                requires
                    q_g * pow2(u as nat) * pow2(neg_part(sh as int)) == n * pow2(
                        pos_part(sh as int),
                    ),
                    den == fden * pow2(neg_part(sh as int)),
                    big_x == (n * fden + fnum) * pow2(pos_part(sh as int)),
                    fnum == 0,
                    rem_g == 0,
            ;
            assert(half2 * unit_g == pow2(u as nat) * den);
        }
        (qq, false)
    } else {
        let s: i64 = -d;
        proof {
            assert(pow2(127) == 0x8000_0000_0000_0000_0000_0000_0000_0000) by {
                lemma2_to64_rest();
                lemma_pow2_adds(64, 63);
            }
            lemma_pow2_pos(s as nat);
            lemma_pow2_unfold(s as nat);
        }
        if s >= 128 {
            proof {
                lemma_pow2_adds(1, 127);
                if s > 128 {
                    lemma_pow2_strictly_increases(128, s as nat);
                }
                lemma_round_shift_32(
                    n as nat,
                    l as nat,
                    sh as int,
                    u as nat,
                    s as nat,
                    0,
                    n as nat,
                );
                assert(2 * n < pow2(s as nat));
                q_g = 0;
                rem_g = n * fden + fnum;
                half2 = pow2(s as nat) * fden;
                unit_g = pow2(pos_part(sh as int)) as int;
                lemma_round_frac_shift_32(
                    n as int,
                    0,
                    n as int,
                    fnum as int,
                    fden as int,
                    pow2(s as nat) as int,
                    pow2(u as nat) as int,
                    pow2(neg_part(sh as int)) as int,
                    unit_g,
                    false,
                );
            }
            (0, false)
        } else {
            let p: u128 = pow2_u128(s as u64);
            let q: u128 = n / p;
            let rem: u128 = n % p;
            proof {
                vstd::arithmetic::div_mod::lemma_fundamental_div_mod(n as int, p as int);
                vstd::arithmetic::div_mod::lemma_mod_bound(n as int, p as int);
                assert(n == q * pow2(s as nat) + rem) by (nonlinear_arith)
                    requires
                        n == p * q + rem,
                        p == pow2(s as nat),
                ;
                lemma_round_shift_32(
                    n as nat,
                    l as nat,
                    sh as int,
                    u as nat,
                    s as nat,
                    q as nat,
                    rem as nat,
                );
                if s < 127 {
                    lemma_pow2_strictly_increases(s as nat, 127);
                }
            }
            let up: bool = if fnum == 0 {
                rem * 2 > p || (rem * 2 == p && q % 2 == 1)
            } else {
                rem * 2 >= p
            };
            proof {
                q_g = q as int;
                rem_g = rem * fden + fnum;
                half2 = p * fden;
                unit_g = pow2(pos_part(sh as int)) as int;
                lemma_round_frac_shift_32(
                    n as int,
                    q as int,
                    rem as int,
                    fnum as int,
                    fden as int,
                    p as int,
                    pow2(u as nat) as int,
                    pow2(neg_part(sh as int)) as int,
                    unit_g,
                    up,
                );
            }
            (q, up)
        }
    };
    proof {
        assert(q == q_g);
        assert(0 <= rem_g < half2);
    }
    let k: u32 = (u as u32) * 0x80_0000 + (q as u32);
    let mag: u32 = if up {
        k + 1
    } else {
        k
    };
    let r: u32 = if neg {
        mag + SIGN_BIT_32
    } else {
        mag
    };
    proof {
        lemma_round_finish_32(
            r,
            neg,
            big_x,
            den,
            q as nat,
            u as nat,
            k as nat,
            up,
            rem_g,
            half2,
            unit_g,
        );
    }
    r
}

/// Rounds `n * 2^sh` (in the `binary32` scale) to the nearest `binary32`
/// number, ties to even, and gives the result the sign `neg`; the target
/// must lie below `4.0`.
pub fn round_32(neg: bool, n: u128, sh: i64) -> (r: u32)
    requires
        n < 0x8000_0000_0000_0000_0000_0000_0000_0000,
        -100_000 <= sh <= 100_000,
        n * pow2(pos_part(sh as int)) < pow2(151) * pow2(neg_part(sh as int)),
    ensures
        (r >= SIGN_BIT_32) == neg,
        rounds_to_32(r, signed(neg, n * pow2(pos_part(sh as int))), pow2(neg_part(sh as int)) as int),
{
    let r = round_frac_32(neg, n, sh, 0, 1);
    proof {
        lemma_pow2_pos(neg_part(sh as int));
        let d = pow2(neg_part(sh as int));
        let x = n * pow2(pos_part(sh as int));
        assert((n * 1 + 0) * pow2(pos_part(sh as int)) == x);
        assert(1 * d == d);
        lemma_overflow_above_32(x, d as int);
    }
    r
}

/// The overflow threshold is positive.
proof fn lemma_overflow_positive_32(den: int)
    requires
        den > 0,
    ensures
        overflow_32() > 0,
        overflow_32() * den > 0,
{
    lemma_pow2_pos(252);
    assert(overflow_32() * den > 0) by (nonlinear_arith)
        requires
            overflow_32() > 0,
            den > 0,
    ;
}

/// Targets below `4.0` are far from the overflow threshold.
proof fn lemma_overflow_above_32(x: int, den: int)
    requires
        den > 0,
        0 <= x < pow2(151) * den,
    ensures
        x < overflow_32() * den,
{
    lemma_pow2_strictly_increases(151, 252);
    lemma_pow2_pos(252);
    assert(pow2(151) * den <= overflow_32() * den) by (nonlinear_arith)
        requires
            pow2(151) < pow2(252),
            overflow_32() == (0x200_0000 - 1) * pow2(252),
            den > 0,
    ;
}

/// A target whose unit in the last place would be `2^254` or more is beyond
/// the overflow threshold.
proof fn lemma_round_overflow_32(n: nat, l: nat, sh: int, fnum: nat, fden: nat)
    requires
        fden > 0,
        pow2((l - 1) as nat) <= n,
        l - 24 + sh > 253,
    ensures
        (n * fden + fnum) * pow2(pos_part(sh)) >= overflow_32() * (fden * pow2(neg_part(sh))),
{
    let e = pos_part(sh);
    let d = neg_part(sh);
    lemma_exponent_parts(sh);
    lemma_pow2_pos(e);
    lemma_pow2_pos(d);
    lemma_pow2_pos(252);
    // 2^(l - 1) * 2^e >= 2^277 * 2^d > overflow_32() * 2^d.
    lemma_pow2_adds((l - 1) as nat, e);
    lemma_pow2_adds(277, d);
    if (l - 1) as nat + e > 277 + d {
        lemma_pow2_strictly_increases(277 + d, (l - 1) as nat + e);
    }
    lemma_pow2_adds(25, 252);
    lemma2_to64();
    assert(overflow_32() < pow2(277)) by (nonlinear_arith)
        requires
            overflow_32() == (0x200_0000 - 1) * pow2(252),
            pow2(25) * pow2(252) == pow2(277),
            pow2(25) == 0x200_0000,
            pow2(252) > 0,
    ;
    assert((n * fden + fnum) * pow2(e) >= overflow_32() * (fden * pow2(d))) by (nonlinear_arith)
        requires
            pow2((l - 1) as nat) <= n,
            pow2((l - 1) as nat) * pow2(e) >= pow2(277) * pow2(d),
            overflow_32() < pow2(277),
            fden > 0,
            fnum >= 0,
            pow2(e) > 0,
            pow2(d) > 0,
    ;
}

/// The rounding decision when bits are shifted out: the target lies
/// `(rem * fden + fnum) * unit` above `q * 2^u * den`, in a gap of
/// `2^s * fden * unit`, and the decision taken on `rem` alone agrees with
/// the one on the whole remainder.
proof fn lemma_round_frac_shift_32(
    n: int,
    q: int,
    rem: int,
    fnum: int,
    fden: int,
    p: int,
    pu: int,
    pd: int,
    pe: int,
    up: bool,
)
    requires
        n == q * p + rem,
        0 <= rem < p,
        p >= 2,
        p % 2 == 0,
        0 <= fnum < fden,
        pu * pd == p * pe,
        pe > 0,
        q >= 0,
        fnum == 0 ==> up == (2 * rem > p || (2 * rem == p && q % 2 == 1)),
        fnum > 0 ==> up == (2 * rem >= p),
    ensures
        q * pu * (fden * pd) + (rem * fden + fnum) * pe == (n * fden + fnum) * pe,
        (p * fden) * pe == pu * (fden * pd),
        0 <= rem * fden + fnum < p * fden,
        up ==> 2 * (rem * fden + fnum) >= p * fden,
        !up ==> 2 * (rem * fden + fnum) <= p * fden,
        2 * (rem * fden + fnum) == p * fden ==> (up == (q % 2 == 1)),
{
    assert(q * pu * (fden * pd) == q * p * fden * pe) by (nonlinear_arith)
        requires
            pu * pd == p * pe,
    ;
    assert(q * p * fden * pe + (rem * fden + fnum) * pe == (n * fden + fnum) * pe) by (
    nonlinear_arith)
        requires
            n == q * p + rem,
    ;
    assert((p * fden) * pe == pu * (fden * pd)) by (nonlinear_arith)
        requires
            pu * pd == p * pe,
    ;
    assert(0 <= rem * fden + fnum < p * fden) by (nonlinear_arith)
        requires
            0 <= rem < p,
            0 <= fnum < fden,
    ;
    if fnum == 0 {
        assert(2 * (rem * fden) >= p * fden <==> 2 * rem >= p) by (nonlinear_arith)
            requires
                fden > 0,
        ;
        assert(2 * (rem * fden) <= p * fden <==> 2 * rem <= p) by (nonlinear_arith)
            requires
                fden > 0,
        ;
        assert(2 * (rem * fden) == p * fden <==> 2 * rem == p) by (nonlinear_arith)
            requires
                fden > 0,
        ;
    } else {
        if 2 * rem >= p {
            assert(2 * (rem * fden + fnum) > p * fden) by (nonlinear_arith)
                requires
                    2 * rem >= p,
                    fnum > 0,
                    fden > 0,
            ;
        } else {
            // 2 * rem and p are even, so 2 * rem <= p - 2.
            assert(2 * rem <= p - 2);
            assert(2 * (rem * fden + fnum) < p * fden) by (nonlinear_arith)
                requires
                    2 * rem <= p - 2,
                    fnum < fden,
                    fden > 0,
            ;
        }
    }
}

/// The closing step of rounding: with the target `big_x / den` lying
/// `rem * unit` above the magnitude `k` and `half2 * unit` being the gap to
/// the next magnitude, taking `k + 1` exactly when `2 * rem` calls for it
/// (ties to the even one) rounds as IEEE-754 does, overflowing to infinity
/// when `k + 1` is the pattern of infinity.
proof fn lemma_round_finish_32(
    r: u32,
    neg: bool,
    big_x: int,
    den: int,
    q: nat,
    u: nat,
    k: nat,
    up: bool,
    rem: int,
    half2: int,
    unit: int,
)
    requires
        den > 0,
        unit > 0,
        0 <= rem < half2,
        q < 0x100_0000,
        u == 0 || q >= 0x80_0000,
        u <= 253,
        k == u * 0x80_0000 + q,
        q * pow2(u) * den + rem * unit == big_x,
        half2 * unit == pow2(u) * den,
        up ==> 2 * rem >= half2,
        !up ==> 2 * rem <= half2,
        2 * rem == half2 ==> (up == (q % 2 == 1)),
        magnitude_32(r) == (if up {
            k + 1
        } else {
            k
        }),
        (r >= SIGN_BIT_32) == neg,
    ensures
        rounds_to_ext_32(r, signed(neg, big_x), den),
{
    lemma2_to64();
    lemma_mag_value_sig(q, u, 23);
    let lo = mag_value(k, 23) * den;
    let hi = mag_value(k + 1, 23) * den;
    assert(lo == q * pow2(u) * den);
    assert(hi == (q + 1) * pow2(u) * den);
    assert(hi == lo + half2 * unit) by (nonlinear_arith)
        requires
            hi == (q + 1) * pow2(u) * den,
            lo == q * pow2(u) * den,
            half2 * unit == pow2(u) * den,
    ;
    lemma_rounding_gap(big_x, lo, hi, rem, half2, unit);
    assert(k % 2 == q % 2);
    assert(big_x >= 0) by {
        lemma_scaled_order_32(k, k, den);
    }
    // The largest finite pattern and the overflow threshold.
    let max_k: nat = 0x7F7F_FFFF;
    lemma_mag_value_sig(0xFF_FFFF, 253, 23);
    lemma_pow2_unfold(253);
    lemma_pow2_pos(252);
    let top = mag_value(max_k, 23) * den;
    assert(2 * (overflow_32() * den) == 2 * top + pow2(253) * den) by (nonlinear_arith)
        requires
            overflow_32() == (0x200_0000 - 1) * pow2(252),
            pow2(253) == 2 * pow2(252),
            top == mag_value(max_k, 23) * den,
            mag_value(max_k, 23) == 0xFF_FFFF * pow2(253),
    ;
    lemma_pow2_pos(253);
    assert(pow2(253) * den > 0) by (nonlinear_arith)
        requires
            pow2(253) > 0,
            den > 0,
    ;
    if k == max_k {
        assert(u == 253 && q == 0xFF_FFFF);
        // The midpoint between the largest finite number and 2^128 is the
        // overflow threshold.
        assert(lo + hi == 2 * (overflow_32() * den)) by (nonlinear_arith)
            requires
                lo == q * pow2(u) * den,
                hi == (q + 1) * pow2(u) * den,
                u == 253,
                q == 0xFF_FFFF,
                2 * (overflow_32() * den) == 2 * top + pow2(253) * den,
                top == 0xFF_FFFF * pow2(253) * den,
        ;
        assert(top == lo);
    } else {
        assert(k < max_k);
        lemma_mag_value_monotone(k + 1, max_k, 23);
        assert(hi <= top) by (nonlinear_arith)
            requires
                mag_value(k + 1, 23) <= mag_value(max_k, 23),
                den > 0,
                hi == mag_value(k + 1, 23) * den,
                top == mag_value(max_k, 23) * den,
        ;
    }
    if magnitude_32(r) == INFINITY_32 {
        assert(k == max_k && up);
        assert(hi - big_x <= big_x - lo);
        assert(big_x >= overflow_32() * den);
    } else {
        if up {
            assert(k + 1 <= max_k);
            assert(big_x < hi);
            assert(hi <= top);
        } else {
            assert(big_x - lo <= hi - big_x);
            if k == max_k {
                assert(q % 2 == 1);
                assert(big_x - lo != hi - big_x);
            } else {
                assert(lo < hi);
            }
        }
        assert(big_x < overflow_32() * den);
        lemma_round_signed_32(r, big_x, neg, k, den);
    }
}

/// The sign of a sum: that of the exact sum, or for an exact zero sum the
/// sign bit only when both operands carry one.
pub open spec fn sum_sign_32(a: u32, b: u32) -> bool {
    if value_32(a) + value_32(b) == 0 {
        (a >= SIGN_BIT_32) && (b >= SIGN_BIT_32)
    } else {
        value_32(a) + value_32(b) < 0
    }
}

/// Scaled by a non-negative magnitude, the sign of a product is the
/// exclusive or of the signs.
proof fn lemma_product_sign_32(a: u32, b: u32)
    ensures
        value_32(a) * value_32(b) > 0 ==> (a >= SIGN_BIT_32) == (b >= SIGN_BIT_32),
        value_32(a) * value_32(b) < 0 ==> (a >= SIGN_BIT_32) != (b >= SIGN_BIT_32),
{
    let ma = mag_value(magnitude_32(a), 23) as int;
    let mb = mag_value(magnitude_32(b), 23) as int;
    lemma_signed_product(a >= SIGN_BIT_32, ma, b >= SIGN_BIT_32, mb);
    assert(ma * mb >= 0) by (nonlinear_arith)
        requires
            ma >= 0,
            mb >= 0,
    ;
}

/// The scaled number of `1.0` in `binary32` is `2^149`.
pub proof fn lemma_unit_32()
    ensures
        unit_32() == pow2(149),
{
    lemma2_to64();
    lemma_mag_value_sig(0x80_0000, 126, 23);
    lemma_pow2_adds(23, 126);
}

/// The product of two signed magnitudes has the sign of the exclusive or.
proof fn lemma_signed_product(na: bool, ma: int, nb: bool, mb: int)
    ensures
        signed(na, ma) * signed(nb, mb) == signed(na != nb, ma * mb),
{
    assert((-ma) * (-mb) == ma * mb) by (nonlinear_arith);
    assert((-ma) * mb == -(ma * mb)) by (nonlinear_arith);
    assert(ma * (-mb) == -(ma * mb)) by (nonlinear_arith);
}

/// A `binary32` pattern rounding `num / den` to nearest, ties to even, is
/// unique once its sign is fixed, when that sign agrees with the sign of
/// the target.
pub proof fn lemma_rounding_unique_32(r1: u32, r2: u32, num: int, den: int)
    requires
        den > 0,
        rounds_to_32(r1, num, den),
        rounds_to_32(r2, num, den),
        (r1 >= SIGN_BIT_32) == (r2 >= SIGN_BIT_32),
        num > 0 ==> !(r1 >= SIGN_BIT_32),
        num < 0 ==> (r1 >= SIGN_BIT_32),
    ensures
        r1 == r2,
{
    if magnitude_32(r1) < magnitude_32(r2) {
        lemma_rounding_unique_ordered_32(r1, r2, num, den);
    } else if magnitude_32(r2) < magnitude_32(r1) {
        lemma_rounding_unique_ordered_32(r2, r1, num, den);
    }
    vstd::arithmetic::div_mod::lemma_fundamental_div_mod(r1 as int, SIGN_BIT_32 as int);
    vstd::arithmetic::div_mod::lemma_fundamental_div_mod(r2 as int, SIGN_BIT_32 as int);
}

proof fn lemma_rounding_unique_ordered_32(r1: u32, r2: u32, num: int, den: int)
    requires
        den > 0,
        rounds_to_32(r1, num, den),
        rounds_to_32(r2, num, den),
        (r1 >= SIGN_BIT_32) == (r2 >= SIGN_BIT_32),
        num > 0 ==> !(r1 >= SIGN_BIT_32),
        num < 0 ==> (r1 >= SIGN_BIT_32),
    ensures
        magnitude_32(r1) >= magnitude_32(r2),
{
    if magnitude_32(r1) < magnitude_32(r2) {
        let neg = (r1 >= SIGN_BIT_32);
        let j1 = magnitude_32(r1);
        let j2 = magnitude_32(r2);
        let big_x = if num < 0 {
            -num
        } else {
            num
        };
        let w1 = mag_value(j1, 23) * den;
        let w2 = mag_value(j2, 23) * den;
        lemma_scaled_order_32(j1, j2, den);
        lemma_scaled_order_32(j1 + 1, j2, den);
        lemma_scaled_order_32(j1, j1 + 1, den);
        let c: u32 = if neg {
            (SIGN_BIT_32 + j1 + 1) as u32
        } else {
            (j1 + 1) as u32
        };
        assert(magnitude_32(c) == j1 + 1);
        let wc = mag_value(j1 + 1, 23) * den;
        assert forall|v: int| #[trigger] ((-v) * den) == -(v * den) by {
            assert((-v) * den == -(v * den)) by (nonlinear_arith);
        }
        assert(distance(value_32(r1) * den, num) == distance(w1, big_x)) by {
            assert((-(mag_value(j1, 23) as int)) * den == -w1);
        }
        assert(distance(value_32(r2) * den, num) == distance(w2, big_x)) by {
            assert((-(mag_value(j2, 23) as int)) * den == -w2);
        }
        assert(distance(value_32(c) * den, num) == distance(wc, big_x)) by {
            assert((-(mag_value(j1 + 1, 23) as int)) * den == -wc);
        }
        assert((magnitude_32(c) < INFINITY_32));
        assert(value_32(r1) != value_32(r2));
        assert((r1 % 0x8000_0000) % 2 == r1 % 2) by (bit_vector);
        assert((r2 % 0x8000_0000) % 2 == r2 % 2) by (bit_vector);
        assert(j1 % 2 == 0 && j2 % 2 == 0);
        assert(j1 + 1 < j2);
        assert(w1 < wc < w2);
        assert(false);
    }
}

/// Any finite number other than the normal number `a` (with significand
/// `sig` and exponent `k >= 1`) is at least `2^(k - 1)` away from it.
proof fn lemma_normal_gap_32(a: u32, c: u32, sig: nat, k: nat)
    requires
        (magnitude_32(a) < INFINITY_32),
        (magnitude_32(c) < INFINITY_32),
        magnitude_32(a) == k * 0x80_0000 + sig,
        0x80_0000 <= sig < 0x100_0000,
        k >= 1,
        value_32(c) != value_32(a),
    ensures
        distance(value_32(c), value_32(a)) >= pow2((k - 1) as nat),
{
    lemma2_to64();
    let m1 = magnitude_32(a);
    let j = magnitude_32(c);
    lemma_mag_value_sig(sig, k, 23);
    let ma = mag_value(m1, 23) as int;
    let mc = mag_value(j, 23) as int;
    lemma_pow2_unfold(k);
    lemma_pow2_pos((k - 1) as nat);
    assert(ma >= pow2(k)) by (nonlinear_arith)
        requires
            ma == sig * pow2(k),
            sig >= 1,
            pow2(k) > 0,
    ;
    if (a >= SIGN_BIT_32) == (c >= SIGN_BIT_32) {
        assert(j != m1);
        if j > m1 {
            lemma_mag_value_monotone(j, m1 + 1, 23);
            assert(mag_value(m1 + 1, 23) == (sig + 1) * pow2(k));
            assert((sig + 1) * pow2(k) == ma + pow2(k)) by (nonlinear_arith)
                requires
                    ma == sig * pow2(k),
            ;
        } else {
            lemma_mag_value_monotone(j, (m1 - 1) as nat, 23);
            if sig > 0x80_0000 {
                lemma_mag_value_sig((sig - 1) as nat, k, 23);
                assert((sig - 1) * pow2(k) == ma - pow2(k)) by (nonlinear_arith)
                    requires
                        ma == sig * pow2(k),
                ;
            } else {
                assert(m1 - 1 == (k - 1) * 0x80_0000 + 0xFF_FFFF);
                lemma_mag_value_sig(0xFF_FFFF, (k - 1) as nat, 23);
                assert(0xFF_FFFF * pow2((k - 1) as nat) == ma - pow2((k - 1) as nat)) by (
                nonlinear_arith)
                    requires
                        ma == sig * pow2(k),
                        sig == 0x80_0000,
                        pow2(k) == 2 * pow2((k - 1) as nat),
                ;
            }
        }
    }
}

/// When `b` is below a quarter of the unit in the last place of the normal
/// number `a`, the sum rounds to `a`.
proof fn lemma_sum_far_32(a: u32, b: u32, s1: nat, k1: nat, s2: nat, k2: nat)
    requires
        (magnitude_32(a) < INFINITY_32),
        (magnitude_32(b) < INFINITY_32),
        magnitude_32(a) == k1 * 0x80_0000 + s1,
        magnitude_32(b) == k2 * 0x80_0000 + s2,
        0x80_0000 <= s1 < 0x100_0000,
        s2 < 0x100_0000,
        mag_value(magnitude_32(b), 23) == s2 * pow2(k2),
        k1 > k2 + 64,
    ensures
        rounds_to_32(a, value_32(a) + value_32(b), 1),
        value_32(a) + value_32(b) != 0,
        value_32(a) + value_32(b) < 0 <==> (a >= SIGN_BIT_32),
{
    lemma2_to64();
    let va = value_32(a);
    let vb = value_32(b);
    let x = va + vb;
    let mb = s2 * pow2(k2);
    let q = pow2((k1 - 2) as nat);
    // |vb| < 2^24 * 2^k2 <= 2^(k1 - 41) < 2^(k1 - 2)
    lemma_pow2_pos(k2);
    lemma_pow2_adds(24, k2);
    assert(mb < pow2(24) * pow2(k2)) by (nonlinear_arith)
        requires
            mb == s2 * pow2(k2),
            s2 < pow2(24),
            pow2(k2) > 0,
    ;
    lemma_pow2_strictly_increases(24 + k2, (k1 - 2) as nat);
    assert(mb < q);
    lemma_pow2_unfold((k1 - 1) as nat);
    lemma_mag_value_sig(s1, k1, 23);
    lemma_pow2_strictly_increases((k1 - 2) as nat, k1);
    assert(s1 * pow2(k1) >= pow2(k1)) by (nonlinear_arith)
        requires
            s1 >= 1,
    ;
    assert(distance(va, x) == mb);
    assert forall|c: u32| #[trigger] magnitude_32(c) < INFINITY_32 implies distance(value_32(a) * 1, x)
        <= distance(value_32(c) * 1, x) && (distance(value_32(c) * 1, x) == distance(
        value_32(a) * 1,
        x,
    ) && value_32(c) != value_32(a) ==> (a % 2 == 0)) by {
        if value_32(c) != value_32(a) {
            lemma_normal_gap_32(a, c, s1, k1);
        }
    }
}

/// The `binary32` statement of rounding to nearest is the generic one of
/// [`crate::float::rounds_to`].
pub proof fn lemma_rounds_to_32_generic(r: u32, num: int, den: int)
    ensures
        rounds_to_32(r, num, den) <==> crate::float::rounds_to(r, num, den),
{
    if rounds_to_32(r, num, den) {
        assert forall|c: u32| #[trigger] c.spec_is_finite() implies distance(
            r.spec_value() * den,
            num,
        ) <= distance(c.spec_value() * den, num) && (distance(c.spec_value() * den, num)
            == distance(r.spec_value() * den, num) && c.spec_value() != r.spec_value()
            ==> r.spec_is_even()) by {
            assert(magnitude_32(c) < INFINITY_32);
        }
    }
    if crate::float::rounds_to(r, num, den) {
        assert forall|c: u32| #[trigger] magnitude_32(c) < INFINITY_32 implies distance(
            value_32(r) * den,
            num,
        ) <= distance(value_32(c) * den, num) && (distance(value_32(c) * den, num) == distance(
            value_32(r) * den,
            num,
        ) && value_32(c) != value_32(r) ==> r % 2 == 0) by {
            assert(c.spec_is_finite());
        }
    }
}

/// The quiet NaN that the operations here give for every NaN result.
pub const QNAN_32: u32 = 0x7FC0_0000;

/// The pattern encodes `NaN`.
pub open spec fn is_nan_32(x: u32) -> bool {
    magnitude_32(x) > INFINITY_32
}

/// The pattern encodes an infinity.
pub open spec fn is_inf_32(x: u32) -> bool {
    magnitude_32(x) == INFINITY_32
}

/// The pattern encodes a zero (`+0.0` or `-0.0`).
pub open spec fn is_zero_32(x: u32) -> bool {
    magnitude_32(x) == 0
}

/// The infinity with the sign `neg`.
pub open spec fn infinity_32(neg: bool) -> u32 {
    if neg {
        (INFINITY_32 + SIGN_BIT_32) as u32
    } else {
        INFINITY_32
    }
}

/// The zero with the sign `neg`.
pub open spec fn zero_32(neg: bool) -> u32 {
    if neg {
        SIGN_BIT_32
    } else {
        0
    }
}

/// A pattern is its magnitude plus the sign bit when that is set.
proof fn lemma_pattern_32(r: u32)
    ensures
        r == (if r >= SIGN_BIT_32 {
            magnitude_32(r) + SIGN_BIT_32
        } else {
            magnitude_32(r) as int
        }),
{
    vstd::arithmetic::div_mod::lemma_fundamental_div_mod(r as int, SIGN_BIT_32 as int);
}

/// Rounding as IEEE-754 does is unique once the sign is fixed, when that
/// sign agrees with the sign of the target.
pub proof fn lemma_rounding_unique_ext_32(r1: u32, r2: u32, num: int, den: int)
    requires
        den > 0,
        rounds_to_ext_32(r1, num, den),
        rounds_to_ext_32(r2, num, den),
        (r1 >= SIGN_BIT_32) == (r2 >= SIGN_BIT_32),
        num > 0 ==> !(r1 >= SIGN_BIT_32),
        num < 0 ==> (r1 >= SIGN_BIT_32),
    ensures
        r1 == r2,
{
    if num >= overflow_32() * den || -num >= overflow_32() * den {
        lemma_pattern_32(r1);
        lemma_pattern_32(r2);
    } else {
        lemma_rounding_unique_32(r1, r2, num, den);
    }
}

/// IEEE-754 rounding does not depend on how the target fraction is written.
pub proof fn lemma_rescale_ext_32(r: u32, num1: int, den1: int, num2: int, den2: int)
    requires
        den1 > 0,
        den2 > 0,
        num1 * den2 == num2 * den1,
        rounds_to_ext_32(r, num1, den1),
    ensures
        rounds_to_ext_32(r, num2, den2),
{
    let t = overflow_32();
    assert(num1 >= t * den1 <==> num2 >= t * den2) by (nonlinear_arith)
        requires
            den1 > 0,
            den2 > 0,
            num1 * den2 == num2 * den1,
    ;
    assert(-num1 >= t * den1 <==> -num2 >= t * den2) by (nonlinear_arith)
        requires
            den1 > 0,
            den2 > 0,
            num1 * den2 == num2 * den1,
    ;
    if !(num1 >= t * den1 || -num1 >= t * den1) {
        lemma_rescale_32(r, num1, den1, num2, den2);
    }
}

/// The IEEE-754 product of two `binary32` patterns, rounding to nearest,
/// ties to even; every NaN result is [`QNAN_32`].
pub open spec fn product_32(a: u32, b: u32) -> u32 {
    if is_nan_32(a) || is_nan_32(b) || (is_inf_32(a) && is_zero_32(b)) || (is_zero_32(a)
        && is_inf_32(b)) {
        QNAN_32
    } else if is_inf_32(a) || is_inf_32(b) {
        infinity_32((a >= SIGN_BIT_32) != (b >= SIGN_BIT_32))
    } else {
        choose|r: u32|
            (r >= SIGN_BIT_32) == ((a >= SIGN_BIT_32) != (b >= SIGN_BIT_32))
                && #[trigger] rounds_to_ext_32(r, value_32(a) * value_32(b), unit_32())
    }
}

/// IEEE-754 multiplication of two `binary32` patterns: `NaN` for a `NaN`
/// operand or infinity times zero, an infinity for another infinite operand,
/// and otherwise the exact product rounded to nearest, ties to even (an
/// infinity on overflow). The sign is the exclusive or of the operands'
/// signs.
pub fn mul_32(a: u32, b: u32) -> (r: u32)
    ensures
        r == product_32(a, b),
        r == product_32(b, a),
        magnitude_32(a) < INFINITY_32 && magnitude_32(b) < INFINITY_32 ==> (r >= SIGN_BIT_32)
            == ((a >= SIGN_BIT_32) != (b >= SIGN_BIT_32)) && rounds_to_ext_32(
            r,
            value_32(a) * value_32(b),
            unit_32(),
        ),
{
    let ma: u32 = a % SIGN_BIT_32;
    let mb: u32 = b % SIGN_BIT_32;
    let neg: bool = (a >= SIGN_BIT_32) != (b >= SIGN_BIT_32);
    if ma > INFINITY_32 || mb > INFINITY_32 || (ma == INFINITY_32 && mb == 0) || (ma == 0 && mb
        == INFINITY_32) {
        return QNAN_32;
    }
    if ma == INFINITY_32 || mb == INFINITY_32 {
        return if neg {
            INFINITY_32 + SIGN_BIT_32
        } else {
            INFINITY_32
        };
    }
    let (sa, ka): (u32, u32) = split_32(ma);
    let (sb, kb): (u32, u32) = split_32(mb);
    proof {
        assert((sa as u128) * (sb as u128) < 0x1_0000_0000_0000) by (nonlinear_arith)
            requires
                sa < 0x100_0000,
                sb < 0x100_0000,
        ;
    }
    let n: u128 = (sa as u128) * (sb as u128);
    let sh: i64 = ka as i64 + kb as i64 - 149;
    let ghost e = pos_part(sh as int);
    let ghost d = neg_part(sh as int);
    let ghost prod: int = n * pow2((ka + kb) as nat);
    proof {
        let ma2 = mag_value(magnitude_32(a), 23) as int;
        let mb2 = mag_value(magnitude_32(b), 23) as int;
        lemma_unit_32();
        lemma2_to64();
        lemma_exponent_parts(sh as int);
        lemma_pow2_pos(e);
        lemma_pow2_pos(d);
        lemma_pow2_pos(149);
        lemma_pow2_adds(ka as nat, kb as nat);
        assert(ma2 * mb2 == prod) by (nonlinear_arith)
            requires
                ma2 == sa * pow2(ka as nat),
                mb2 == sb * pow2(kb as nat),
                n == sa * sb,
                prod == n * pow2((ka + kb) as nat),
                pow2(ka as nat) * pow2(kb as nat) == pow2((ka + kb) as nat),
        ;
        lemma_signed_product(a >= SIGN_BIT_32, ma2, b >= SIGN_BIT_32, mb2);
        assert(value_32(a) * value_32(b) == signed(neg, prod));
        lemma_pow2_balance(e, 149, (ka + kb) as nat, d);
        assert(n * pow2(e) * pow2(149) == prod * pow2(d)) by (nonlinear_arith)
            requires
                pow2(e) * pow2(149) == pow2((ka + kb) as nat) * pow2(d),
                prod == n * pow2((ka + kb) as nat),
        ;
    }
    let r: u32 = round_frac_32(neg, n, sh, 0, 1);
    proof {
        assert((n * 1 + 0) * pow2(e) == n * pow2(e));
        assert(1 * pow2(d) == pow2(d));
        assert(signed(neg, n * pow2(e)) * pow2(149) == signed(neg, prod) * pow2(d)) by {
            lemma_signed_product(neg, n * pow2(e), false, pow2(149) as int);
            lemma_signed_product(neg, prod, false, pow2(d) as int);
        }
        lemma_rescale_ext_32(
            r,
            signed(neg, n * pow2(e)),
            pow2(d) as int,
            value_32(a) * value_32(b),
            unit_32(),
        );
        lemma_product_sign_32(a, b);
        lemma_rounding_unique_ext_32(
            r,
            product_32(a, b),
            value_32(a) * value_32(b),
            unit_32(),
        );
        let va = value_32(a);
        let vb = value_32(b);
        assert(vb * va == va * vb) by (nonlinear_arith);
        lemma_product_sign_32(b, a);
        assert(rounds_to_ext_32(r, vb * va, unit_32()));
        lemma_rounding_unique_ext_32(r, product_32(b, a), vb * va, unit_32());
    }
    r
}

/// A sum that rounds to the larger of two far apart finite summands stays
/// below the overflow threshold.
proof fn lemma_sum_far_bound_32(a: u32, b: u32, s1: nat, k1: nat, s2: nat, k2: nat)
    requires
        magnitude_32(a) == k1 * 0x80_0000 + s1,
        magnitude_32(b) == k2 * 0x80_0000 + s2,
        0x80_0000 <= s1 < 0x100_0000,
        s2 < 0x100_0000,
        mag_value(magnitude_32(b), 23) == s2 * pow2(k2),
        k1 > k2 + 64,
        k1 <= 253,
    ensures
        -overflow_32() < value_32(a) + value_32(b) < overflow_32(),
{
    lemma2_to64();
    let ma = s1 * pow2(k1);
    let mb = s2 * pow2(k2);
    lemma_mag_value_sig(s1, k1, 23);
    lemma_pow2_pos(k2);
    lemma_pow2_adds(24, k2);
    assert(mb < pow2(24) * pow2(k2)) by (nonlinear_arith)
        requires
            mb == s2 * pow2(k2),
            s2 < pow2(24),
            pow2(k2) > 0,
    ;
    lemma_pow2_strictly_increases(24 + k2, 251);
    lemma_pow2_unfold(253);
    lemma_pow2_unfold(252);
    if k1 < 253 {
        lemma_pow2_strictly_increases(k1, 253);
    }
    lemma_pow2_pos(k1);
    assert(ma <= (0x100_0000 - 1) * pow2(253)) by (nonlinear_arith)
        requires
            ma == s1 * pow2(k1),
            s1 < 0x100_0000,
            pow2(k1) <= pow2(253),
            pow2(k1) > 0,
    ;
    assert(ma + mb < overflow_32());
}

/// The IEEE-754 sum of two `binary32` patterns, rounding to nearest, ties
/// to even; every NaN result is [`QNAN_32`].
pub open spec fn sum_32(a: u32, b: u32) -> u32 {
    if is_nan_32(a) || is_nan_32(b) || (is_inf_32(a) && is_inf_32(b) && (a >= SIGN_BIT_32) != (b
        >= SIGN_BIT_32)) {
        QNAN_32
    } else if is_inf_32(a) {
        a
    } else if is_inf_32(b) {
        b
    } else {
        choose|r: u32|
            (r >= SIGN_BIT_32) == sum_sign_32(a, b) && #[trigger] rounds_to_ext_32(
                r,
                value_32(a) + value_32(b),
                1,
            )
    }
}

/// The general sum of two finite `binary32` numbers whose exponents are
/// ordered.
fn add_ordered_32(a: u32, b: u32, s1: u32, k1: u32, s2: u32, k2: u32) -> (r: u32)
    requires
        (magnitude_32(a) < INFINITY_32),
        (magnitude_32(b) < INFINITY_32),
        magnitude_32(a) == k1 * 0x80_0000 + s1,
        magnitude_32(b) == k2 * 0x80_0000 + s2,
        s1 < 0x100_0000,
        s2 < 0x100_0000,
        k1 == 0 || s1 >= 0x80_0000,
        k2 == 0 || s2 >= 0x80_0000,
        k1 <= 253,
        mag_value(magnitude_32(a), 23) == s1 * pow2(k1 as nat),
        mag_value(magnitude_32(b), 23) == s2 * pow2(k2 as nat),
        k1 >= k2,
    ensures
        (r >= SIGN_BIT_32) == sum_sign_32(a, b),
        rounds_to_ext_32(r, value_32(a) + value_32(b), 1),
{
    proof {
        lemma2_to64();
        lemma_overflow_positive_32(1);
    }
    let d: u32 = k1 - k2;
    if d > 64 {
        proof {
            lemma_sum_far_32(a, b, s1 as nat, k1 as nat, s2 as nat, k2 as nat);
            lemma_sum_far_bound_32(a, b, s1 as nat, k1 as nat, s2 as nat, k2 as nat);
        }
        return a;
    }
    let p: u128 = pow2_u128(d as u64);
    proof {
        lemma_pow2_strictly_increases(d as nat, 65);
        lemma2_to64_rest();
        lemma_pow2_adds(64, 1);
        assert((s1 as u128) * p <= 0x100_0000 * 0x2_0000_0000_0000_0000) by (nonlinear_arith)
            requires
                s1 < 0x100_0000,
                p < 0x2_0000_0000_0000_0000,
        ;
    }
    let big: u128 = (s1 as u128) * p;
    let small: u128 = s2 as u128;
    let na: bool = a >= SIGN_BIT_32;
    let nb: bool = b >= SIGN_BIT_32;
    let (n, neg): (u128, bool) = if na == nb {
        (big + small, na)
    } else if big >= small {
        (big - small, na)
    } else {
        (small - big, nb)
    };
    let ghost va: int = value_32(a);
    let ghost vb: int = value_32(b);
    let ghost w: int = pow2(k2 as nat) as int;
    proof {
        lemma_pow2_adds(d as nat, k2 as nat);
        assert(s1 * pow2(k1 as nat) == big * w) by (nonlinear_arith)
            requires
                big == s1 * p,
                p * w == pow2(k1 as nat),
        ;
        assert(va == signed(na, big * w));
        assert(vb == signed(nb, small * w));
        assert(va + vb == signed(neg, n * w)) by (nonlinear_arith)
            requires
                va == signed(na, big * w),
                vb == signed(nb, small * w),
                na == nb ==> n == big + small && neg == na,
                na != nb && big >= small ==> n == big - small && neg == na,
                na != nb && big < small ==> n == small - big && neg == nb,
        ;
        lemma_pow2_pos(k2 as nat);
    }
    if n == 0 {
        let r: u32 = if na && nb {
            SIGN_BIT_32
        } else {
            0
        };
        proof {
            assert(va + vb == 0) by (nonlinear_arith)
                requires
                    va + vb == signed(neg, n * w),
                    n == 0,
            ;
            lemma_mag_value_sig(0, 0, 23);
            lemma_round_signed_32(r, 0, na && nb, 0, 1);
        }
        return r;
    }
    proof {
        assert(n * w > 0) by (nonlinear_arith)
            requires
                n > 0,
                w > 0,
        ;
        assert(pow2(0) == 1);
        assert(pos_part(k2 as int) == k2 as nat);
        assert(neg_part(k2 as int) == 0);
        assert((n * 1 + 0) * pow2(k2 as nat) == n * w);
        assert(1 * pow2(0) == 1);
    }
    let r: u32 = round_frac_32(neg, n, k2 as i64, 0, 1);
    r
}

/// IEEE-754 addition of two `binary32` patterns: `NaN` for a `NaN` operand
/// or infinities of opposite signs, the infinite operand for another
/// infinite one, and otherwise the exact sum rounded to nearest, ties to
/// even (an infinity on overflow). A nonzero exact sum gives its sign; an
/// exact zero sum is `-0.0` only when both operands carry a sign bit.
pub fn add_32(a: u32, b: u32) -> (r: u32)
    ensures
        r == sum_32(a, b),
        r == sum_32(b, a),
        magnitude_32(a) < INFINITY_32 && magnitude_32(b) < INFINITY_32 ==> (r >= SIGN_BIT_32)
            == sum_sign_32(a, b) && rounds_to_ext_32(r, value_32(a) + value_32(b), 1),
        magnitude_32(a) < INFINITY_32 && magnitude_32(b) < INFINITY_32 && magnitude_32(r)
            < INFINITY_32 ==> magnitude_32(sum_32(negate_32(b), negate_32(a))) < INFINITY_32
            && value_32(sum_32(negate_32(b), negate_32(a))) == -value_32(r),
{
    let ma: u32 = a % SIGN_BIT_32;
    let mb: u32 = b % SIGN_BIT_32;
    if ma > INFINITY_32 || mb > INFINITY_32 || (ma == INFINITY_32 && mb == INFINITY_32 && (a
        >= SIGN_BIT_32) != (b >= SIGN_BIT_32)) {
        return QNAN_32;
    }
    if ma == INFINITY_32 {
        return a;
    }
    if mb == INFINITY_32 {
        return b;
    }
    let (sa, ka): (u32, u32) = split_32(ma);
    let (sb, kb): (u32, u32) = split_32(mb);
    let r: u32 = if ka >= kb {
        add_ordered_32(a, b, sa, ka, sb, kb)
    } else {
        add_ordered_32(b, a, sb, kb, sa, ka)
    };
    proof {
        assert((r >= SIGN_BIT_32) == sum_sign_32(a, b));
        if value_32(a) + value_32(b) > 0 {
            assert(!(r >= SIGN_BIT_32));
        }
        lemma_rounding_unique_ext_32(r, sum_32(a, b), value_32(a) + value_32(b), 1);
        assert((r >= SIGN_BIT_32) == sum_sign_32(b, a));
        assert(rounds_to_ext_32(r, value_32(b) + value_32(a), 1));
        lemma_rounding_unique_ext_32(r, sum_32(b, a), value_32(b) + value_32(a), 1);
        if magnitude_32(r) < INFINITY_32 {
            lemma_sum_negated_32(a, b, r);
        }
    }
    r
}

/// Shifts a nonzero significand up until its leading bit is bit 23:
/// `sig * 2^z` lies in `[2^23, 2^24)`.
fn normalize_32(sig: u32) -> (r: (u128, u64))
    requires
        0 < sig < 0x100_0000,
    ensures
        r.1 <= 23,
        r.0 == sig * pow2(r.1 as nat),
        0x80_0000 <= r.0 < 0x100_0000,
{
    let l: u64 = bit_length(sig as u128);
    proof {
        lemma2_to64();
        if l > 24 {
            lemma_pow2_strictly_increases(24, (l - 1) as nat);
        }
    }
    let z: u64 = 24 - l;
    let p: u128 = pow2_u128(z);
    proof {
        lemma_pow2_adds((l - 1) as nat, z as nat);
        lemma_pow2_adds(l as nat, z as nat);
        assert(pow2((l - 1) as nat) * p <= sig * p < pow2(l as nat) * p) by (nonlinear_arith)
            requires
                pow2((l - 1) as nat) <= sig < pow2(l as nat),
                p > 0,
        ;
    }
    ((sig as u128) * p, z)
}

/// `2^a * 2^b * 2^c * 2^d == 2^(a + b + c + d)`.
proof fn lemma_pow2_four(a: nat, b: nat, c: nat, d: nat)
    ensures
        pow2(a) * pow2(b) * pow2(c) * pow2(d) == pow2(a + b + c + d),
{
    lemma_pow2_adds(a, b);
    lemma_pow2_adds(a + b, c);
    lemma_pow2_adds(a + b + c, d);
}

/// The IEEE-754 quotient of two `binary32` patterns, rounding to nearest,
/// ties to even; every NaN result is [`QNAN_32`]. The exact quotient of
/// finite nonzero operands is `signed(xor, |a| * 2^149) / |b|` in the
/// `binary32` scale.
pub open spec fn quotient_32(a: u32, b: u32) -> u32 {
    let neg = (a >= SIGN_BIT_32) != (b >= SIGN_BIT_32);
    if is_nan_32(a) || is_nan_32(b) || (is_inf_32(a) && is_inf_32(b)) || (is_zero_32(a)
        && is_zero_32(b)) {
        QNAN_32
    } else if is_inf_32(a) || is_zero_32(b) {
        infinity_32(neg)
    } else if is_inf_32(b) || is_zero_32(a) {
        zero_32(neg)
    } else {
        choose|r: u32|
            (r >= SIGN_BIT_32) == neg && #[trigger] rounds_to_ext_32(
                r,
                signed(neg, mag_value(magnitude_32(a), 23) * unit_32()),
                mag_value(magnitude_32(b), 23) as int,
            )
    }
}

/// IEEE-754 division of two `binary32` patterns: `NaN` for a `NaN`
/// operand, two infinities or two zeros, an infinity for an infinite
/// dividend or a zero divisor, a zero for an infinite divisor or a zero
/// dividend, and otherwise the exact quotient rounded to nearest, ties to
/// even (an infinity on overflow). The sign is the exclusive or of the
/// operands' signs.
pub fn div_32(a: u32, b: u32) -> (r: u32)
    ensures
        r == quotient_32(a, b),
        0 < magnitude_32(a) < INFINITY_32 && 0 < magnitude_32(b) < INFINITY_32 ==> (r
            >= SIGN_BIT_32) == ((a >= SIGN_BIT_32) != (b >= SIGN_BIT_32)) && rounds_to_ext_32(
            r,
            signed(
                (a >= SIGN_BIT_32) != (b >= SIGN_BIT_32),
                mag_value(magnitude_32(a), 23) * unit_32(),
            ),
            mag_value(magnitude_32(b), 23) as int,
        ),
{
    let ma: u32 = a % SIGN_BIT_32;
    let mb: u32 = b % SIGN_BIT_32;
    let neg: bool = (a >= SIGN_BIT_32) != (b >= SIGN_BIT_32);
    if ma > INFINITY_32 || mb > INFINITY_32 || (ma == INFINITY_32 && mb == INFINITY_32) || (ma
        == 0 && mb == 0) {
        return QNAN_32;
    }
    if ma == INFINITY_32 || mb == 0 {
        return if neg {
            INFINITY_32 + SIGN_BIT_32
        } else {
            INFINITY_32
        };
    }
    if mb == INFINITY_32 || ma == 0 {
        return if neg {
            SIGN_BIT_32
        } else {
            0
        };
    }
    let (sa, ka): (u32, u32) = split_32(ma);
    let (sb, kb): (u32, u32) = split_32(mb);
    let (na, za): (u128, u64) = normalize_32(sa);
    let (nb, zb): (u128, u64) = normalize_32(sb);
    let p: u128 = pow2_u128(62);
    proof {
        lemma2_to64();
        lemma2_to64_rest();
        assert(na * p < 0x100_0000 * 0x4000_0000_0000_0000) by (nonlinear_arith)
            requires
                na < 0x100_0000,
                p == 0x4000_0000_0000_0000,
        ;
    }
    let big_n: u128 = na * p;
    let q: u128 = big_n / nb;
    let rem: u128 = big_n % nb;
    let sh: i64 = ka as i64 - za as i64 - kb as i64 + zb as i64 + 87;
    let ghost e = pos_part(sh as int);
    let ghost d = neg_part(sh as int);
    proof {
        vstd::arithmetic::div_mod::lemma_fundamental_div_mod(big_n as int, nb as int);
        vstd::arithmetic::div_mod::lemma_mod_bound(big_n as int, nb as int);
        // q >= 2^23 * 2^62 / 2^24 = 2^61.
        assert(q >= 0x2000_0000_0000_0000) by (nonlinear_arith)
            requires
                big_n == nb * q + rem,
                rem < nb,
                big_n >= 0x80_0000 * 0x4000_0000_0000_0000,
                nb < 0x100_0000,
        ;
        assert(q <= big_n) by (nonlinear_arith)
            requires
                big_n == nb * q + rem,
                rem >= 0,
                nb >= 1,
                q >= 0,
        ;
    }
    let r: u32 = round_frac_32(neg, q, sh, rem, nb);
    proof {
        let mva = mag_value(magnitude_32(a), 23) as int;
        let mvb = mag_value(magnitude_32(b), 23) as int;
        lemma_exponent_parts(sh as int);
        lemma_unit_32();
        // (q * nb + rem) * 2^e * mvb == mva * 2^149 * (nb * 2^d): both are
        // sa * sb * 2^(za + 62 + e + kb).
        assert(za + 62 + e + kb == ka + 149 + zb + d);
        lemma_pow2_four(za as nat, 62, e, kb as nat);
        lemma_pow2_four(ka as nat, 149, zb as nat, d);
        let x1 = (q * nb + rem) * pow2(e);
        let p1 = pow2(za as nat);
        let p2 = pow2(zb as nat);
        let pa = pow2(ka as nat);
        let pb = pow2(kb as nat);
        let pe = pow2(e);
        let pd = pow2(d);
        let w1 = p1 * pow2(62) * pe * pb;
        let w2 = pa * pow2(149) * p2 * pd;
        assert(w1 == w2);
        assert(x1 == sa * p1 * pow2(62) * pe) by (nonlinear_arith)
            requires
                x1 == (q * nb + rem) * pe,
                nb * q + rem == na * p,
                na == sa * p1,
                p == pow2(62),
        ;
        assert(sa * p1 * pow2(62) * pe * (sb * pb) == sa * sb * w1) by (nonlinear_arith)
            requires
                w1 == p1 * pow2(62) * pe * pb,
        ;
        assert(sa * pa * pow2(149) * (sb * p2 * pd) == sa * sb * w2) by (nonlinear_arith)
            requires
                w2 == pa * pow2(149) * p2 * pd,
        ;
        assert(mva * pow2(149) == sa * pa * pow2(149));
        assert(nb * pd == sb * p2 * pd);
        assert(x1 * mvb == (mva * pow2(149)) * (nb * pow2(d)));
        lemma_pow2_pos(d);
        lemma_pow2_pos(kb as nat);
        assert(mvb > 0) by (nonlinear_arith)
            requires
                mvb == sb * pow2(kb as nat),
                sb > 0,
                pow2(kb as nat) > 0,
        ;
        assert(nb * pow2(d) > 0) by (nonlinear_arith)
            requires
                nb > 0,
                pow2(d) > 0,
        ;
        assert(signed(neg, x1) * mvb == signed(neg, mva * pow2(149)) * (nb * pow2(d))) by {
            lemma_signed_product(neg, x1, false, mvb);
            lemma_signed_product(neg, mva * pow2(149), false, nb * pow2(d));
        }
        lemma_rescale_ext_32(r, signed(neg, x1), nb * pow2(d), signed(neg, mva * unit_32()), mvb);
        assert(mva * pow2(149) >= 0) by (nonlinear_arith)
            requires
                mva >= 0,
        ;
        lemma_rounding_unique_ext_32(
            r,
            quotient_32(a, b),
            signed(neg, mva * unit_32()),
            mvb,
        );
    }
    r
}

/// The overflow threshold lies far above `4.0`.
pub proof fn lemma_overflow_large_32()
    ensures
        overflow_32() > 4 * unit_32(),
{
    lemma_unit_32();
    lemma2_to64();
    lemma_pow2_adds(2, 149);
    lemma_pow2_strictly_increases(151, 252);
    lemma_pow2_pos(252);
    assert(overflow_32() >= pow2(252)) by (nonlinear_arith)
        requires
            overflow_32() == (0x200_0000 - 1) * pow2(252),
            pow2(252) > 0,
    ;
}

/// Every finite number lies strictly inside the overflow threshold.
pub proof fn lemma_finite_below_overflow_32(x: u32)
    requires
        magnitude_32(x) < INFINITY_32,
    ensures
        -overflow_32() < value_32(x) < overflow_32(),
{
    lemma2_to64();
    lemma_mag_value_monotone(magnitude_32(x), 0x7F7F_FFFF, 23);
    lemma_mag_value_sig(0xFF_FFFF, 253, 23);
    lemma_pow2_unfold(253);
    lemma_pow2_pos(252);
}

/// The pattern with its sign bit flipped.
pub open spec fn negate_32(x: u32) -> u32 {
    if x >= SIGN_BIT_32 {
        (x - SIGN_BIT_32) as u32
    } else {
        (x + SIGN_BIT_32) as u32
    }
}

/// Rounding to nearest is symmetric: negating the result rounds the
/// negated target.
pub proof fn lemma_rounds_negate_32(r: u32, num: int, den: int)
    requires
        den > 0,
        rounds_to_32(r, num, den),
    ensures
        rounds_to_32(negate_32(r), -num, den),
{
    let nr = negate_32(r);
    assert(value_32(nr) == -value_32(r));
    assert((-value_32(r)) * den == -(value_32(r) * den)) by (nonlinear_arith);
    assert(nr % 2 == r % 2);
    assert forall|c: u32| #[trigger] magnitude_32(c) < INFINITY_32 implies distance(
        value_32(nr) * den,
        -num,
    ) <= distance(value_32(c) * den, -num) && (distance(value_32(c) * den, -num) == distance(
        value_32(nr) * den,
        -num,
    ) && value_32(c) != value_32(nr) ==> nr % 2 == 0) by {
        let nc = negate_32(c);
        assert(magnitude_32(nc) < INFINITY_32);
        assert(value_32(nc) == -value_32(c));
        assert((-value_32(c)) * den == -(value_32(c) * den)) by (nonlinear_arith);
    }
}


/// An even finite pattern with the same number as a rounded result is a
/// rounded result too.
proof fn lemma_rounds_same_value_32(r: u32, w: u32, num: int, den: int)
    requires
        rounds_to_32(r, num, den),
        magnitude_32(w) < INFINITY_32,
        value_32(w) == value_32(r),
        w % 2 == 0,
    ensures
        rounds_to_32(w, num, den),
{
}

/// Negating both operands of a finite sum negates the number of the sum
/// (the sign of a zero sum may differ).
proof fn lemma_sum_negated_32(a: u32, b: u32, r: u32)
    requires
        magnitude_32(a) < INFINITY_32,
        magnitude_32(b) < INFINITY_32,
        magnitude_32(r) < INFINITY_32,
        (r >= SIGN_BIT_32) == sum_sign_32(a, b),
        rounds_to_ext_32(r, value_32(a) + value_32(b), 1),
    ensures
        magnitude_32(sum_32(negate_32(b), negate_32(a))) < INFINITY_32,
        value_32(sum_32(negate_32(b), negate_32(a))) == -value_32(r),
{
    let na = negate_32(a);
    let nb = negate_32(b);
    let nr = negate_32(r);
    let x = value_32(a) + value_32(b);
    lemma_pattern_32(a);
    lemma_pattern_32(b);
    lemma_pattern_32(r);
    lemma_mag_value_zero(magnitude_32(r), 23);
    lemma_mag_value_zero(0, 23);
    assert(magnitude_32(na) == magnitude_32(a));
    assert(magnitude_32(nb) == magnitude_32(b));
    assert(magnitude_32(nr) == magnitude_32(r));
    assert(value_32(na) == -value_32(a));
    assert(value_32(nb) == -value_32(b));
    assert(value_32(nr) == -value_32(r));
    assert(rounds_to_32(r, x, 1));
    assert(magnitude_32(0u32) < INFINITY_32);
    assert(value_32(0u32) == 0);
    assert(distance(value_32(r) * 1, x) <= distance(value_32(0u32) * 1, x));
    lemma_rounds_negate_32(r, x, 1);
    let num = value_32(nb) + value_32(na);
    assert(num == -x);
    let w = if value_32(r) == 0 {
        zero_32(sum_sign_32(nb, na))
    } else {
        nr
    };
    if value_32(r) == 0 {
        assert(magnitude_32(w) == 0);
        assert(value_32(w) == 0);
        lemma_rounds_same_value_32(nr, w, -x, 1);
    }
    assert(rounds_to_32(w, num, 1));
    assert(rounds_to_ext_32(w, num, 1));
    assert((w >= SIGN_BIT_32) == sum_sign_32(nb, na));
    lemma_rounding_unique_ext_32(w, sum_32(nb, na), num, 1);
}

} // verus!
