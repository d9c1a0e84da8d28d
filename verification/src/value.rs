//! Exact decimal gauge values.
//!
//! A gauge holds the latest sensor reading. Readings come out of decimal text
//! and are kept exactly as a sign, an integer mantissa and a power-of-ten
//! scale: the value denoted is `mantissa / 10^scale`, negated when `neg` is
//! set. This representation loses nothing of the source text and renders
//! back to plain decimal notation.

use vstd::arithmetic::div_mod::{lemma_basic_div, lemma_fundamental_div_mod, lemma_small_mod};
use vstd::prelude::*;

use crate::num::{
    dec_digits, digit_char, lemma_pow10_mono, lemma_pow10_pos, lemma_pow10_u64_range,
    padded_digits, pow10, pow10_u64, push_digit, push_padded_u64, push_u64_decimal,
};

verus! {

/// A decimal number `mantissa / 10^scale`, negative when `neg` is set.
///
/// A freshly created gauge holds `DecValue::zero()`. Values built by
/// [`DecValue::new`] are normalized so that zero is never negative.
#[derive(Clone, Copy, PartialEq, Eq, Structural, Debug)]
pub struct DecValue {
    pub neg: bool,
    pub mantissa: u64,
    pub scale: usize,
}

impl DecValue {
    /// The zero value a gauge starts from.
    pub fn zero() -> (r: DecValue)
        ensures
            r == (DecValue { neg: false, mantissa: 0, scale: 0 }),
    {
        DecValue { neg: false, mantissa: 0, scale: 0 }
    }

    /// Builds a value, normalizing a negative zero to plain zero.
    pub fn new(neg: bool, mantissa: u64, scale: usize) -> (r: DecValue)
        ensures
            r.neg == (neg && mantissa != 0),
            r.mantissa == mantissa,
            r.scale == scale,
    {
        DecValue { neg: neg && mantissa != 0, mantissa, scale }
    }
}

/// Drops trailing zero digits of the fraction: divides the mantissa by ten
/// as long as the scale is positive and the mantissa is divisible by ten.
pub open spec fn strip_zeros(m: nat, s: nat) -> (nat, nat)
    decreases s,
{
    if s > 0 && m % 10 == 0 {
        strip_zeros(m / 10, (s - 1) as nat)
    } else {
        (m, s)
    }
}

/// The decimal rendering of the unsigned magnitude `m / 10^s`: trailing
/// fractional zeros are dropped, and the fraction (with its dot) disappears
/// entirely when nothing of it remains.
pub open spec fn magnitude_chars(m: nat, s: nat) -> Seq<char> {
    let (m2, s2) = strip_zeros(m, s);
    if s2 == 0 {
        dec_digits(m2)
    } else {
        dec_digits(m2 / pow10(s2)) + seq!['.'] + padded_digits(m2 % pow10(s2), s2)
    }
}

/// The decimal rendering of a value, with a leading minus sign when negative.
pub open spec fn value_chars(v: DecValue) -> Seq<char> {
    if v.neg {
        seq!['-'] + magnitude_chars(v.mantissa as nat, v.scale as nat)
    } else {
        magnitude_chars(v.mantissa as nat, v.scale as nat)
    }
}

/// Appends `value_chars(v)` to `out`.
pub fn push_value(out: &mut String, v: DecValue)
    ensures
        final(out)@ == old(out)@ + value_chars(v),
{
    if v.neg {
        out.append("-");
        proof {
            reveal_strlit("-");
            assert(out@ =~= old(out)@ + seq!['-']);
        }
    }
    let ghost mid = out@;

    // Strip trailing fractional zeros.
    let mut m: u64 = v.mantissa;
    let mut s: usize = v.scale;
    while s > 0 && m % 10 == 0
        invariant
            strip_zeros(m as nat, s as nat) == strip_zeros(v.mantissa as nat, v.scale as nat),
        decreases s,
    {
        m = m / 10;
        s = s - 1;
    }
    proof {
        assert(strip_zeros(m as nat, s as nat) == (m as nat, s as nat));
    }
    let ghost m2 = m as nat;
    let ghost s2 = s as nat;

    if s == 0 {
        push_u64_decimal(out, m);
        proof {
            assert(out@ =~= old(out)@ + value_chars(v));
        }
    } else if s <= 19 {
        let p = pow10_u64(s);
        proof {
            lemma_pow10_pos(s as nat);
        }
        push_u64_decimal(out, m / p);
        out.append(".");
        push_padded_u64(out, m % p, s);
        proof {
            reveal_strlit(".");
            assert(out@ =~= mid + dec_digits(m2 / pow10(s2)) + seq!['.'] + padded_digits(
                m2 % pow10(s2),
                s2,
            ));
            assert(out@ =~= old(out)@ + value_chars(v));
        }
    } else {
        // The scale exceeds every power of ten a u64 can reach, so the
        // integer part is zero and the mantissa is the whole fraction.
        proof {
            lemma_pow10_u64_range();
            lemma_pow10_mono(20, s2);
            lemma_basic_div(m as int, pow10(s2) as int);
            lemma_small_mod(m as nat, pow10(s2));
            assert(m2 / pow10(s2) == 0);
            assert(m2 % pow10(s2) == m2);
        }
        push_digit(out, 0);
        out.append(".");
        push_padded_u64(out, m, s);
        proof {
            reveal_strlit(".");
            assert(seq![digit_char(0)] =~= dec_digits(0));
            assert(out@ =~= mid + dec_digits(m2 / pow10(s2)) + seq!['.'] + padded_digits(
                m2 % pow10(s2),
                s2,
            ));
            assert(out@ =~= old(out)@ + value_chars(v));
        }
    }
}

/// The value's magnitude in tenths, rounded half away from zero:
/// the nearest integer to `10 * m / 10^s`.
pub open spec fn spec_tenths(m: nat, s: nat) -> nat {
    (10 * m + pow10(s) / 2) / pow10(s)
}

/// Splits the magnitude of `v`, rounded to one decimal place, into its whole
/// part and its single tenths digit.
pub fn round_to_tenths(v: &DecValue) -> (r: (u64, u64))
    ensures
        r.0 == spec_tenths(v.mantissa as nat, v.scale as nat) / 10,
        r.1 == spec_tenths(v.mantissa as nat, v.scale as nat) % 10,
        r.1 < 10,
{
    proof {
        lemma_pow10_u64_range();
    }
    if v.scale >= 21 {
        // 10 * mantissa stays below half of 10^21, so the rounding yields 0.
        proof {
            let s = v.scale as nat;
            lemma_pow10_mono(21, s);
            assert(pow10(21) == 10 * pow10(20));
            lemma_pow10_pos(s);
            assert(10 * (v.mantissa as nat) + pow10(s) / 2 < pow10(s)) by {
                assert(10 * (v.mantissa as nat) < pow10(21) / 2);
                assert(pow10(s) / 2 + pow10(s) / 2 <= pow10(s));
                assert(pow10(21) / 2 <= pow10(s) / 2);
            }
            lemma_basic_div((10 * (v.mantissa as nat) + pow10(s) / 2) as int, pow10(s) as int);
            assert(spec_tenths(v.mantissa as nat, v.scale as nat) == 0);
        }
        (0, 0)
    } else {
        let mut den: u128 = 1;
        let mut i: usize = 0;
        while i < v.scale
            invariant
                i <= v.scale <= 20,
                den == pow10(i as nat),
                pow10(20) == 100_000_000_000_000_000_000,
            decreases v.scale - i,
        {
            proof {
                lemma_pow10_mono((i + 1) as nat, 20);
            }
            den = den * 10;
            i = i + 1;
        }
        proof {
            lemma_pow10_pos(v.scale as nat);
        }
        let num: u128 = (v.mantissa as u128) * 10 + den / 2;
        let q: u128 = num / den;
        proof {
            let s = v.scale as nat;
            let d = den as int;
            let m = v.mantissa as int;
            assert(q == spec_tenths(v.mantissa as nat, s));
            // q <= 10 * mantissa, so q / 10 fits in u64.
            lemma_fundamental_div_mod(num as int, d);
            assert(d * (q as int) <= num as int);
            assert(q as int <= 10 * m) by (nonlinear_arith)
                requires
                    d >= 1,
                    m >= 0,
                    q >= 0,
                    d * (q as int) <= 10 * m + d / 2,
                    d / 2 < d,
            ;
            assert(q as int / 10 <= m) by (nonlinear_arith)
                requires
                    q as int <= 10 * m,
                    q >= 0,
            ;
        }
        ((q / 10) as u64, (q % 10) as u64)
    }
}

} // verus!
