//! The number model of the codec.
//!
//! Tot has a single surface form for numbers: a decimal literal.  The
//! codec keeps the parsed value exactly, as a sign, a decimal mantissa
//! and a power-of-ten exponent, and coerces it to an integer width only
//! when a caller asks for one.  Rounding is to the nearest integer,
//! ties away from zero.  Values that a 64-bit target cannot hold
//! saturate to its nearest bound; negative values saturate to zero for
//! unsigned targets; for widths below 64 bits an out-of-range value is
//! reported to the caller instead.

use vstd::prelude::*;
use vstd::arithmetic::mul::{lemma_mul_inequality, lemma_mul_is_associative};

verus! {

/// 10 to the power `e`.
pub open spec fn pow10(e: nat) -> nat
    decreases e,
{
    if e == 0 {
        1
    } else {
        10 * pow10((e - 1) as nat)
    }
}

pub proof fn lemma_pow10_pos(e: nat)
    ensures
        pow10(e) >= 1,
    decreases e,
{
    if e > 0 {
        lemma_pow10_pos((e - 1) as nat);
    }
}

/// pow10 of 19 still fits in a u64; pow10 of 20 does not.
pub proof fn lemma_pow10_key_values()
    ensures
        pow10(19) == 10_000_000_000_000_000_000,
        pow10(20) == 100_000_000_000_000_000_000,
{
    assert(pow10(0) == 1);
    assert(pow10(1) == 10);
    assert(pow10(2) == 100);
    assert(pow10(3) == 1000);
    assert(pow10(4) == 10000);
    assert(pow10(5) == 100000);
    assert(pow10(6) == 1000000);
    assert(pow10(7) == 10000000);
    assert(pow10(8) == 100000000);
    assert(pow10(9) == 1000000000);
    assert(pow10(10) == 10000000000);
    assert(pow10(11) == 100000000000);
    assert(pow10(12) == 1000000000000);
    assert(pow10(13) == 10000000000000);
    assert(pow10(14) == 100000000000000);
    assert(pow10(15) == 1000000000000000);
    assert(pow10(16) == 10000000000000000);
    assert(pow10(17) == 100000000000000000);
    assert(pow10(18) == 1000000000000000000);
    assert(pow10(19) == 10000000000000000000);
    assert(pow10(20) == 100000000000000000000);
}

pub proof fn lemma_pow10_mono(a: nat, b: nat)
    requires
        a <= b,
    ensures
        pow10(a) <= pow10(b),
    decreases b,
{
    if a < b {
        lemma_pow10_mono(a, (b - 1) as nat);
        lemma_pow10_pos((b - 1) as nat);
    }
}

pub proof fn lemma_pow10_add(a: nat, b: nat)
    ensures
        pow10(a + b) == pow10(a) * pow10(b),
    decreases a,
{
    if a == 0 {
        assert(pow10(0nat + b) == pow10(b));
        assert(pow10(0) == 1);
    } else {
        lemma_pow10_add((a - 1) as nat, b);
        let p = pow10((a - 1) as nat) as int;
        let q = pow10(b) as int;
        assert((a + b - 1) as nat == (a - 1) as nat + b);
        assert(pow10(a + b) as int == 10 * pow10((a + b - 1) as nat) as int);
        assert(pow10((a - 1) as nat + b) as int == p * q);
        lemma_mul_is_associative(10, p, q);
        assert(pow10(a + b) as int == (10 * p) * q);
        assert(pow10(a) as int == 10 * p);
        assert(pow10(a + b) as int == pow10(a) as int * q);
    }
}

/// A number kept exactly: `(-1)^neg * mantissa * 10^exp`.
///
/// A value produced by the parser is normalized: a zero mantissa comes
/// with a zero exponent, and a nonzero mantissa is not divisible by
/// ten.
#[derive(Clone, Copy, Debug, PartialEq, Eq, Structural)]
pub struct Decimal {
    pub neg: bool,
    pub mantissa: u64,
    pub exp: i32,
}

/// Whether a decimal is in normal form.
pub open spec fn dec_normal(d: Decimal) -> bool {
    if d.mantissa == 0 {
        d.exp == 0
    } else {
        d.mantissa % 10 != 0
    }
}

/// Normal form of a mantissa/exponent pair: trailing decimal zeros of
/// the mantissa are folded into the exponent, and zero gets exponent
/// zero.
pub open spec fn norm(m: nat, e: int) -> (nat, int)
    decreases m,
{
    if m == 0 {
        (0, 0)
    } else if m % 10 == 0 {
        norm(m / 10, e + 1)
    } else {
        (m, e)
    }
}

pub proof fn lemma_norm_keeps_value(m: nat, e: int)
    ensures
        m == 0 ==> norm(m, e) == (0nat, 0int),
        m > 0 ==> norm(m, e).0 > 0 && norm(m, e).0 % 10 != 0,
        m > 0 ==> norm(m, e).1 >= e,
        m > 0 ==> m == norm(m, e).0 * pow10((norm(m, e).1 - e) as nat),
    decreases m,
{
    if m > 0 && m % 10 == 0 {
        vstd::arithmetic::div_mod::lemma_fundamental_div_mod(m as int, 10);
        assert(m == 10 * (m / 10));
        assert(m / 10 > 0);
        lemma_norm_keeps_value(m / 10, e + 1);
        let (n0, n1) = norm(m, e);
        assert((n0, n1) == norm(m / 10, e + 1));
        let p = pow10((n1 - e - 1) as nat) as int;
        assert(m / 10 == (n0 as int) * p);
        lemma_mul_is_associative(10, n0 as int, p);
        lemma_mul_is_associative(n0 as int, 10, p);
        assert(m as int == 10 * ((n0 as int) * p));
        assert(10 * ((n0 as int) * p) == (n0 as int) * (10 * p));
        assert((n1 - e) as nat == ((n1 - e - 1) as nat) + 1);
        assert(pow10(((n1 - e - 1) as nat) + 1nat) == 10 * pow10((n1 - e - 1) as nat));
        assert(pow10((n1 - e) as nat) as int == 10 * p);
        assert(m as int == (n0 as int) * (pow10((n1 - e) as nat) as int));
        assert(norm(m, e).0 == n0 && norm(m, e).1 == n1);
        assert(m == norm(m, e).0 * pow10((norm(m, e).1 - e) as nat));
    } else if m > 0 {
        assert(norm(m, e) == (m, e));
        assert(norm(m, e).0 == m);
        assert(norm(m, e).1 == e);
        assert((norm(m, e).1 - e) as nat == 0nat);
        assert(pow10(0) == 1);
        assert(m == m * 1nat);
        assert(m == norm(m, e).0 * pow10((norm(m, e).1 - e) as nat));
    }
}

/// A parsed numeric literal: either an exact signed 64-bit integer
/// (a literal with no point and no exponent that fits), or a decimal.
#[derive(Clone, Copy, Debug, PartialEq, Eq, Structural)]
pub enum Number {
    Int(i64),
    Dec(Decimal),
}

/// The magnitude `m * 10^e` rounded to the nearest integer, ties away
/// from zero.
pub open spec fn round_mag(m: nat, e: int) -> nat {
    if e >= 0 {
        m * pow10(e as nat)
    } else {
        let d = pow10((-e) as nat);
        if 2 * (m % d) >= d {
            m / d + 1
        } else {
            m / d
        }
    }
}

/// The signed integer a number rounds to, ties away from zero.
pub open spec fn num_round(n: Number) -> int {
    match n {
        Number::Int(i) => i as int,
        Number::Dec(d) => {
            if d.neg {
                -(round_mag(d.mantissa as nat, d.exp as int) as int)
            } else {
                round_mag(d.mantissa as nat, d.exp as int) as int
            }
        },
    }
}

/// Exec computation of `min(round_mag(m, e), u64::MAX)`.
pub fn round_mag_sat(m: u64, e: i32) -> (r: u64)
    ensures
        r == if round_mag(m as nat, e as int) > u64::MAX {
            u64::MAX as nat
        } else {
            round_mag(m as nat, e as int)
        },
{
    proof {
        lemma_pow10_key_values();
    }
    if m == 0 {
        proof {
            if e >= 0 {
                assert(round_mag(0, e as int) == 0 * pow10(e as nat));
            } else {
                lemma_pow10_pos((-e) as nat);
            }
        }
        0
    } else if e >= 20 {
        // m >= 1, so m * 10^e >= 10^20 > u64::MAX.
        proof {
            lemma_pow10_mono(20, e as nat);
            lemma_mul_inequality(1, m as int, pow10(e as nat) as int);
        }
        u64::MAX
    } else if e >= 0 {
        proof {
            assert(pow10(0) == 1);
        }
        let mut cur: u64 = m;
        let mut k: u32 = 0;
        let mut sat: bool = false;
        while k < e as u32
            invariant
                0 <= e < 20,
                k <= e as u32,
                m >= 1,
                !sat ==> cur as nat == m as nat * pow10(k as nat),
                sat ==> m as nat * pow10(k as nat) > u64::MAX,
                sat ==> cur == u64::MAX,
                cur >= 1,
            decreases e as int - k as int,
        {
            proof {
                lemma_mul_is_associative(m as int, pow10(k as nat) as int, 10);
                assert(pow10((k + 1) as nat) == 10 * pow10(k as nat));
            }
            if !sat {
                if cur > u64::MAX / 10 {
                    proof {
                        lemma_mul_inequality(
                            (u64::MAX / 10 + 1) as int,
                            cur as int,
                            10,
                        );
                    }
                    sat = true;
                    cur = u64::MAX;
                } else {
                    proof {
                        lemma_mul_inequality(cur as int, (u64::MAX / 10) as int, 10);
                    }
                    cur = cur * 10;
                }
            } else {
                proof {
                    lemma_mul_inequality(
                        m as int * pow10(k as nat),
                        m as int * pow10(k as nat) * 10,
                        1,
                    );
                    lemma_pow10_pos(k as nat);
                    lemma_mul_inequality(1, 10, m as int * pow10(k as nat));
                }
            }
            k = k + 1;
        }
        cur
    } else if e <= -20 {
        // The divisor is at least 10^20, more than twice any u64, so
        // the fraction is below one half and rounds to zero.
        proof {
            lemma_pow10_mono(20, (-e) as nat);
            let d = pow10((-e) as nat);
            assert(m as nat % d == m as nat) by {
                vstd::arithmetic::div_mod::lemma_small_mod(m as nat, d);
            }
            assert(m as nat / d == 0) by {
                vstd::arithmetic::div_mod::lemma_basic_div(m as int, d as int);
            }
        }
        0
    } else {
        let k: u32 = (-e) as u32;
        let d: u64 = pow10_u64(k);
        proof {
            assert(pow10(1) == 10);
            lemma_pow10_mono(1, k as nat);
            vstd::arithmetic::div_mod::lemma_div_is_ordered_by_denominator(
                m as int,
                2,
                d as int,
            );
        }
        let q = m / d;
        let r = m % d;
        if r >= d - r {
            q + 1
        } else {
            q
        }
    }
}

/// Exec `pow10` for exponents that fit a u64.
pub fn pow10_u64(k: u32) -> (r: u64)
    requires
        k <= 19,
    ensures
        r as nat == pow10(k as nat),
        r >= 1,
{
    proof {
        lemma_pow10_key_values();
        assert(pow10(0) == 1);
    }
    let mut i: u32 = 0;
    let mut acc: u64 = 1;
    while i < k
        invariant
            i <= k <= 19,
            acc as nat == pow10(i as nat),
            acc >= 1,
        decreases k as int - i as int,
    {
        proof {
            lemma_pow10_key_values();
            lemma_pow10_mono((i + 1) as nat, 19);
            assert(pow10((i + 1) as nat) == 10 * pow10(i as nat));
            lemma_pow10_pos(i as nat);
        }
        acc = acc * 10;
        i = i + 1;
    }
    acc
}

/// The rounded value of a number, saturated to the i64 range.
pub open spec fn clamp_i64(v: int) -> int {
    if v < i64::MIN as int {
        i64::MIN as int
    } else if v > i64::MAX as int {
        i64::MAX as int
    } else {
        v
    }
}

/// The rounded value of a number, saturated to the u64 range.
pub open spec fn clamp_u64(v: int) -> int {
    if v < 0 {
        0
    } else if v > u64::MAX as int {
        u64::MAX as int
    } else {
        v
    }
}

/// Round a number and saturate it to the signed 64-bit range.
pub fn coerce_i64(n: &Number) -> (r: i64)
    ensures
        r as int == clamp_i64(num_round(*n)),
{
    match n {
        Number::Int(i) => *i,
        Number::Dec(d) => {
            let mag = round_mag_sat(d.mantissa, d.exp);
            if d.neg {
                if mag >= 9_223_372_036_854_775_808u64 {
                    i64::MIN
                } else {
                    -(mag as i64)
                }
            } else {
                if mag > i64::MAX as u64 {
                    i64::MAX
                } else {
                    mag as i64
                }
            }
        },
    }
}

/// Round a number and saturate it to the unsigned 64-bit range.
pub fn coerce_u64(n: &Number) -> (r: u64)
    ensures
        r as int == clamp_u64(num_round(*n)),
{
    match n {
        Number::Int(i) => {
            if *i < 0 {
                0
            } else {
                *i as u64
            }
        },
        Number::Dec(d) => {
            let mag = round_mag_sat(d.mantissa, d.exp);
            if d.neg {
                0
            } else {
                mag
            }
        },
    }
}

} // verus!
