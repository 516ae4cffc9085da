//! The numeric meaning of IEEE-754 binary interchange bit patterns.
//!
//! Every finite number of a binary format with `mbits` stored mantissa bits
//! and exponent bias `b` is an integer multiple of `2^(1 - b - mbits)`, the
//! smallest subnormal. Scaling by `2^(mbits + b - 1)` therefore maps each
//! finite pattern to an integer, and the ordering of the scaled integers is
//! the ordering of the numbers. The functions here work on that scaled form.
use vstd::arithmetic::div_mod::*;
use vstd::arithmetic::mul::*;
use vstd::arithmetic::power2::*;
use vstd::prelude::*;

verus! {

/// Scaled magnitude of a finite pattern whose bits without the sign bit
/// are `mag`, in a format with `mbits` stored mantissa bits.
///
/// A zero exponent field encodes a subnormal whose scaled magnitude is the
/// mantissa; an exponent field `e > 0` encodes a normal number whose
/// scaled magnitude is `(2^mbits + mantissa) * 2^(e - 1)`.
pub open spec fn mag_value(mag: nat, mbits: nat) -> nat {
    let e = mag / pow2(mbits);
    let m = mag % pow2(mbits);
    if e == 0 {
        m
    } else {
        ((pow2(mbits) + m) * pow2((e - 1) as nat)) as nat
    }
}

proof fn lemma_split(mag: nat, mbits: nat)
    ensures
        pow2(mbits) > 0,
        mag == (mag / pow2(mbits)) * pow2(mbits) + mag % pow2(mbits),
        0 <= mag % pow2(mbits) < pow2(mbits),
{
    lemma_pow2_pos(mbits);
    lemma_fundamental_div_mod(mag as int, pow2(mbits) as int);
    lemma_mod_bound(mag as int, pow2(mbits) as int);
}

/// The scaled magnitude of a pattern with exponent field `e` stays below
/// `2^mbits * 2^e`.
proof fn lemma_mag_value_below_next_binade(mag: nat, mbits: nat)
    ensures
        mag_value(mag, mbits) < pow2(mbits) * pow2(mag / pow2(mbits)),
{
    lemma_split(mag, mbits);
    let p = pow2(mbits);
    let e = mag / p;
    let m = mag % p;
    if e == 0 {
        lemma2_to64();
        assert(p * pow2(0) == p);
    } else {
        let q = pow2((e - 1) as nat);
        lemma_pow2_unfold(e);
        lemma_pow2_pos((e - 1) as nat);
        assert((p + m) * q < p * (2 * q)) by (nonlinear_arith)
            requires
                m < p,
                q > 0,
        ;
    }
}

/// A normal pattern with exponent field `e >= 1` has scaled magnitude at
/// least `2^mbits * 2^(e - 1)`.
proof fn lemma_mag_value_at_least_binade(mag: nat, mbits: nat)
    requires
        mag / pow2(mbits) >= 1,
    ensures
        mag_value(mag, mbits) >= pow2(mbits) * pow2((mag / pow2(mbits) - 1) as nat),
{
    lemma_split(mag, mbits);
    let p = pow2(mbits);
    let e = mag / p;
    let m = mag % p;
    let q = pow2((e - 1) as nat);
    assert((p + m) * q >= p * q) by (nonlinear_arith)
        requires
            m >= 0,
            q >= 0,
    ;
}

/// The scaled magnitude of the pattern with exponent field `e` and
/// mantissa field `m`.
pub proof fn lemma_mag_value_fields(e: nat, m: nat, mbits: nat)
    requires
        m < pow2(mbits),
    ensures
        mag_value(e * pow2(mbits) + m, mbits) == (if e == 0 {
            m as int
        } else {
            ((pow2(mbits) + m) * pow2((e - 1) as nat)) as int
        }),
{
    lemma_pow2_pos(mbits);
    lemma_fundamental_div_mod_converse(
        (e * pow2(mbits) + m) as int,
        pow2(mbits) as int,
        e as int,
        m as int,
    );
}

/// Consecutive patterns differ in scaled magnitude by one inside the
/// subnormal range and by `2^(e - 1)` in the binade with exponent field `e`.
pub proof fn lemma_mag_value_step(k: nat, mbits: nat)
    ensures
        mag_value(k + 1, mbits) == mag_value(k, mbits) + (if k / pow2(mbits) == 0 {
            1
        } else {
            pow2((k / pow2(mbits) - 1) as nat) as int
        }),
{
    lemma_split(k, mbits);
    let p = pow2(mbits);
    let e = k / p;
    let m = k % p;
    if m + 1 < p {
        assert(k + 1 == e * p + (m + 1));
        lemma_mag_value_fields(e, m, mbits);
        lemma_mag_value_fields(e, m + 1, mbits);
        if e != 0 {
            let q = pow2((e - 1) as nat);
            assert((p + m + 1) * q == (p + m) * q + q) by (nonlinear_arith);
        }
    } else {
        assert(k + 1 == (e + 1) * p + 0) by (nonlinear_arith)
            requires
                k == e * p + m,
                m + 1 == p,
        ;
        lemma_pow2_pos(mbits);
        lemma_mag_value_fields(e, m, mbits);
        lemma_mag_value_fields(e + 1, 0, mbits);
        if e == 0 {
            lemma2_to64();
            assert(p * pow2(0) == p);
        } else {
            let q = pow2((e - 1) as nat);
            lemma_pow2_unfold(e);
            assert((p + 0) * pow2(e) == (p + m) * q + q) by (nonlinear_arith)
                requires
                    m + 1 == p,
                    pow2(e) == 2 * q,
            ;
        }
    }
}

/// The scaled magnitude is strictly increasing in the pattern.
pub proof fn lemma_mag_value_strictly_increasing(a: nat, c: nat, mbits: nat)
    requires
        a < c,
    ensures
        mag_value(a, mbits) < mag_value(c, mbits),
{
    lemma_split(a, mbits);
    lemma_split(c, mbits);
    let p = pow2(mbits);
    let e1 = a / p;
    let e2 = c / p;
    let m1 = a % p;
    let m2 = c % p;
    assert(e1 <= e2) by {
        if e1 > e2 {
            assert(e1 * p >= (e2 + 1) * p) by (nonlinear_arith)
                requires
                    e1 >= e2 + 1,
                    p > 0,
            ;
            assert((e2 + 1) * p == e2 * p + p) by (nonlinear_arith);
        }
    }
    if e1 == e2 {
        assert(m1 < m2);
        if e1 != 0 {
            let q = pow2((e1 - 1) as nat);
            lemma_pow2_pos((e1 - 1) as nat);
            assert((p + m1) * q < (p + m2) * q) by (nonlinear_arith)
                requires
                    m1 < m2,
                    q > 0,
            ;
        }
    } else {
        lemma_mag_value_below_next_binade(a, mbits);
        lemma_mag_value_at_least_binade(c, mbits);
        let lo = pow2(e1);
        let hi = pow2((e2 - 1) as nat);
        if e1 < e2 - 1 {
            lemma_pow2_strictly_increases(e1, (e2 - 1) as nat);
        }
        assert(p * lo <= p * hi) by (nonlinear_arith)
            requires
                lo <= hi,
                p > 0,
        ;
    }
}

/// The scaled magnitude is monotone in the pattern.
pub proof fn lemma_mag_value_monotone(a: nat, c: nat, mbits: nat)
    ensures
        a <= c <==> mag_value(a, mbits) <= mag_value(c, mbits),
{
    if a < c {
        lemma_mag_value_strictly_increasing(a, c, mbits);
    } else if c < a {
        lemma_mag_value_strictly_increasing(c, a, mbits);
    }
}

/// Only the all-zero magnitude has scaled magnitude zero.
pub proof fn lemma_mag_value_zero(mag: nat, mbits: nat)
    ensures
        mag_value(mag, mbits) == 0 <==> mag == 0,
{
    lemma_split(mag, mbits);
    if mag > 0 {
        lemma_mag_value_strictly_increasing(0, mag, mbits);
    }
    assert(0nat / pow2(mbits) == 0) by {
        lemma_pow2_pos(mbits);
    }
}

/// A significand `q` below `2^(mbits + 1)` times `2^u` is the scaled
/// magnitude of the pattern `u * 2^mbits + q`, when the significand is
/// normalized (`q >= 2^mbits`) or `u` is zero; the next pattern is `2^u`
/// larger.
pub proof fn lemma_mag_value_sig(q: nat, u: nat, mbits: nat)
    requires
        q < 2 * pow2(mbits),
        u == 0 || q >= pow2(mbits),
    ensures
        mag_value(u * pow2(mbits) + q, mbits) == q * pow2(u),
        mag_value(u * pow2(mbits) + q + 1, mbits) == (q + 1) * pow2(u),
{
    let p = pow2(mbits);
    lemma_pow2_pos(mbits);
    lemma2_to64();
    if q < p {
        assert(u * p == 0) by (nonlinear_arith)
            requires
                u == 0,
        ;
        lemma_mag_value_fields(0, q, mbits);
        assert(0 * p + q == q);
        lemma_mag_value_step(q, mbits);
        lemma_basic_div(q as int, p as int);
    } else {
        let m = (q - p) as nat;
        let k = u * p + q;
        assert(k == (u + 1) * p + m) by (nonlinear_arith)
            requires
                k == u * p + q,
                m == q - p,
        ;
        lemma_mag_value_fields(u + 1, m, mbits);
        lemma_mag_value_step(k, mbits);
        lemma_fundamental_div_mod_converse(k as int, p as int, (u + 1) as int, m as int);
        assert((p + m) * pow2(u) + pow2(u) == (q + 1) * pow2(u)) by (nonlinear_arith)
            requires
                m == q - p,
        ;
    }
}

/// `2^s` as a `u128`.
pub fn pow2_u128(s: u64) -> (p: u128)
    requires
        s <= 127,
    ensures
        p == pow2(s as nat),
{
    let mut p: u128 = 1;
    let mut i: u64 = 0;
    proof {
        lemma2_to64();
    }
    while i < s
        invariant
            i <= s <= 127,
            p == pow2(i as nat),
        decreases s - i,
    {
        proof {
            lemma_pow2_unfold((i + 1) as nat);
            if i + 1 < 127 {
                lemma_pow2_strictly_increases((i + 1) as nat, 127);
            }
            assert(pow2(127) == 0x8000_0000_0000_0000_0000_0000_0000_0000) by {
                lemma2_to64();
                lemma2_to64_rest();
                lemma_pow2_adds(64, 63);
            }
        }
        p = p * 2;
        i = i + 1;
    }
    p
}

/// The number of bits of a positive `n`: `2^(l - 1) <= n < 2^l`.
pub fn bit_length(n: u128) -> (l: u64)
    requires
        0 < n < 0x8000_0000_0000_0000_0000_0000_0000_0000,
    ensures
        1 <= l <= 127,
        pow2((l - 1) as nat) <= n < pow2(l as nat),
{
    let mut p: u128 = 1;
    let mut l: u64 = 0;
    proof {
        lemma2_to64();
    }
    while p <= n
        invariant
            0 < n < 0x8000_0000_0000_0000_0000_0000_0000_0000,
            l <= 127,
            p == pow2(l as nat),
            l == 0 || pow2((l - 1) as nat) <= n,
        decreases 127 - l,
    {
        proof {
            lemma_pow2_unfold((l + 1) as nat);
            assert(pow2(127) == 0x8000_0000_0000_0000_0000_0000_0000_0000) by {
                lemma2_to64();
                lemma2_to64_rest();
                lemma_pow2_adds(64, 63);
            }
            if l >= 127 {
                lemma_pow2_strictly_increases(127, l as nat);
            }
        }
        p = p * 2;
        l = l + 1;
    }
    l
}

/// The non-negative part of an exponent: `sh` when `sh >= 0`, else zero.
pub open spec fn pos_part(sh: int) -> nat {
    if sh >= 0 {
        sh as nat
    } else {
        0
    }
}

/// The magnitude of the negative part of an exponent: `-sh` when `sh < 0`,
/// else zero.
pub open spec fn neg_part(sh: int) -> nat {
    if sh < 0 {
        (-sh) as nat
    } else {
        0
    }
}

/// The rounding decision: with `x = lo + rem * u` and
/// `hi = lo + half2 * u`, comparing `2 * rem` with `half2` compares the
/// distances from `x` to `lo` and to `hi`.
pub proof fn lemma_rounding_gap(x: int, lo: int, hi: int, rem: int, half2: int, u: int)
    requires
        u > 0,
        0 <= rem < half2,
        lo + rem * u == x,
        hi == lo + half2 * u,
    ensures
        lo <= x < hi,
        (x - lo <= hi - x) <==> 2 * rem <= half2,
        (hi - x <= x - lo) <==> 2 * rem >= half2,
        (x - lo == hi - x) <==> 2 * rem == half2,
{
    assert(rem * u >= 0) by (nonlinear_arith)
        requires
            rem >= 0,
            u > 0,
    ;
    assert(rem * u < half2 * u) by (nonlinear_arith)
        requires
            rem < half2,
            u > 0,
    ;
    assert((rem * u <= (half2 - rem) * u) <==> 2 * rem <= half2) by (nonlinear_arith)
        requires
            u > 0,
    ;
    assert(((half2 - rem) * u <= rem * u) <==> 2 * rem >= half2) by (nonlinear_arith)
        requires
            u > 0,
    ;
    assert((rem * u == (half2 - rem) * u) <==> 2 * rem == half2) by (nonlinear_arith)
        requires
            u > 0,
    ;
    assert(half2 * u - rem * u == (half2 - rem) * u) by (nonlinear_arith);
}

} // verus!
