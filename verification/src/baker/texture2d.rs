//! Packing of colours into the R11G11B10 unsigned-float texel format.
use vstd::prelude::*;
use vstd::arithmetic::power2::{pow2, lemma_pow2_unfold, lemma_pow2_pos};
use vstd::bits::{
    low_bits_mask, lemma_u64_shr_is_div, lemma_u64_shl_is_mul, lemma_u64_pow2_no_overflow,
    lemma_u64_low_bits_mask_is_mod, lemma_u32_shl_is_mul, lemma_u32_pow2_no_overflow,
    lemma_u32_low_bits_mask_is_mod,
};

verus! {

/// `value / d` rounded to the nearest integer, ties going to the even one.
pub open spec fn round_half_even(value: nat, d: nat) -> nat {
    let q = value / d;
    let r = value % d;
    if 2 * r > d || (2 * r == d && q % 2 == 1) {
        q + 1
    } else {
        q
    }
}

/// What `round_shift` returns: `value / 2^shift` rounded to the nearest
/// integer, ties to even.
pub open spec fn round_shift_spec(value: u64, shift: u32) -> nat {
    if shift == 0 {
        value as nat
    } else {
        round_half_even(value as nat, pow2(shift as nat))
    }
}

/// A dividend below half the divisor rounds to 0.
proof fn lemma_round_small(value: nat, d: nat)
    requires
        2 * value <= d,
        d > 0,
    ensures
        round_half_even(value, d) == 0,
{
    if value < d {
        vstd::arithmetic::div_mod::lemma_fundamental_div_mod_converse(value as int, d as int, 0, value as int);
    }
}

/// Shifting a word by 64 or more keeps only whether it is above half of
/// `2^shift`, which takes a value above `2^63` at a shift of exactly 64.
proof fn lemma_round_past_word(value: u64, shift: u32)
    requires
        shift >= 64,
    ensures
        round_half_even(value as nat, pow2(shift as nat)) == if shift == 64
            && value > 0x8000_0000_0000_0000u64 {
            1nat
        } else {
            0nat
        },
{
    vstd::arithmetic::power2::lemma2_to64();
    let d = pow2(shift as nat);
    if shift > 64 {
        vstd::arithmetic::power2::lemma_pow2_unfold(65);
        if shift > 65 {
            vstd::arithmetic::power2::lemma_pow2_strictly_increases(65, shift as nat);
        }
        lemma_round_small(value as nat, d);
    } else {
        vstd::arithmetic::div_mod::lemma_fundamental_div_mod_converse(value as int, d as int, 0, value as int);
    }
}

/// Rounding half to even lands on an integer nearest to `value / d`, and on
/// the even one of two equally near.
pub proof fn lemma_round_half_even_nearest(value: nat, d: nat)
    requires
        d > 0,
    ensures
        ({
            let q = round_half_even(value, d) as int;
            let err = value - q * d;
            &&& 2 * err <= d
            &&& -d <= 2 * err
            &&& (2 * err == d || 2 * err == -d) ==> q % 2 == 0
        }),
{
    let q0 = value / d;
    let r = value % d;
    assert(value == q0 * d + r) by {
        vstd::arithmetic::div_mod::lemma_fundamental_div_mod(value as int, d as int);
    }
    assert((q0 + 1) * d == q0 * d + d) by (nonlinear_arith);
}

proof fn lemma_shl_one_sub_bv(s: u64)
    by (bit_vector)
    requires
        1 <= s < 64,
    ensures
        (1u64 << s) >= 1,
{
}

/// Shifts `value` right by `shift` bits, rounding to nearest, ties to even.
pub fn round_shift(value: u64, shift: u32) -> (r: u64)
    ensures
        r == round_shift_spec(value, shift),
{
    if shift == 0 {
        return value;
    }
    if shift >= 64 {
        proof {
            lemma_round_past_word(value, shift);
        }
        return if shift == 64 && value > 0x8000_0000_0000_0000u64 {
            1
        } else {
            0
        };
    }
    let s = shift as u64;
    proof {
        lemma_u64_pow2_no_overflow(s as nat);
        lemma_u64_pow2_no_overflow((s - 1) as nat);
        lemma_pow2_unfold(s as nat);
        lemma_u64_shl_is_mul(1, s);
        lemma_u64_shl_is_mul(1, (s - 1) as u64);
        lemma_u64_shr_is_div(value, s);
        lemma_u64_low_bits_mask_is_mod(value, s as nat);
        lemma_shl_one_sub_bv(s);
    }
    let half = 1u64 << (shift - 1) as u64;
    let mask = (1u64 << s) - 1;
    let truncated = value >> s;
    let remainder = value & mask;
    proof {
        let d = pow2(s as nat);
        assert(mask == low_bits_mask(s as nat));
        assert(remainder == value % (d as u64));
        assert(truncated == value as nat / d);
        assert(half * 2 == d);
        assert(truncated <= value as nat / 2) by {
            assert(d >= 2);
            vstd::arithmetic::div_mod::lemma_div_is_ordered_by_denominator(value as int, 2, d as int);
        }
    }
    if remainder > half || (remainder == half && (truncated & 1) == 1) {
        proof {
            lemma_and_one_is_mod(truncated);
        }
        truncated + 1
    } else {
        proof {
            lemma_and_one_is_mod(truncated);
        }
        truncated
    }
}

proof fn lemma_and_one_is_mod(x: u64)
    by (bit_vector)
    ensures
        (x & 1) == x % 2,
{
}

/// The biased exponent field of the `f32` with bit pattern `bits`.
pub open spec fn f32_exponent_field(bits: u32) -> int {
    (bits as int / 0x800000) % 256
}

/// The stored mantissa field of the `f32` with bit pattern `bits`.
pub open spec fn f32_mantissa_field(bits: u32) -> int {
    bits as int % 0x800000
}

/// The conversion step by step: the f32 exponent rebased to bias 15, the
/// significand with its leading 1 rounded to `mb` fraction bits (a carry
/// raising the exponent), and values below the normal range shifted further
/// into a subnormal.
spec fn ufloat_steps(bits: u32, mb: nat) -> int {
    let e = f32_exponent_field(bits);
    let m = f32_mantissa_field(bits);
    let inf: int = 31 * (pow2(mb) as int);
    let mask: int = pow2(mb) - 1;
    if e == 255 && m != 0 {
        if mb == 0 {
            inf
        } else {
            inf + 1
        }
    } else if bits >= 0x8000_0000 || bits == 0 {
        0
    } else if e == 255 {
        inf
    } else {
        let exp = e - 112;
        let full = (0x800000 + m) as u64;
        let shift = 23 - mb;
        if exp >= 31 {
            inf
        } else if exp <= 0 {
            let extra = shift - exp + 1;
            if extra >= 64 {
                0
            } else {
                round_shift_spec(full, extra as u32) as int
            }
        } else {
            let rm: int = round_shift_spec(full, shift as u32) as int;
            if rm > 2 * pow2(mb) - 1 {
                if exp + 1 >= 31 {
                    inf
                } else {
                    (exp + 1) * pow2(mb)
                }
            } else {
                exp * pow2(mb) + (rm - pow2(mb))
            }
        }
    }
}

/// The significand of the finite `f32` with bit pattern `bits`, as an
/// integer: the stored mantissa, under a leading 1 for normal numbers.
pub open spec fn f32_significand(bits: u32) -> int {
    if f32_exponent_field(bits) == 0 {
        f32_mantissa_field(bits)
    } else {
        0x800000 + f32_mantissa_field(bits)
    }
}

/// The exponent of a positive finite `f32` under the mini-float's bias 15:
/// its value is `f32_significand(bits) * 2^(exp - 38)`.
pub open spec fn f32_rebased_exponent(bits: u32) -> int {
    let e = f32_exponent_field(bits);
    (if e == 0 { 1 } else { e }) - 112
}

/// The unsigned mini-float with 5 exponent bits (bias 15) and `mb` mantissa
/// bits that stands for the `f32` with bit pattern `bits`. NaN stays a NaN;
/// zero and negative values (negative infinity too) become 0; positive
/// infinity stays infinity. A positive finite value becomes the mini-float
/// nearest to it, ties to even, and infinity when that is past the largest
/// finite one: counted in steps of the mini-float spacing at its binade
/// (`2^(k - 15 - mb)` at exponent `k >= 1`, the subnormals sharing the spacing
/// of exponent 1), rounded, on top of the `(k - 1) * 2^mb` codes of the lower
/// binades.
pub open spec fn ufloat_spec(bits: u32, mb: nat) -> int {
    let e = f32_exponent_field(bits);
    let m = f32_mantissa_field(bits);
    let inf: int = 31 * (pow2(mb) as int);
    if e == 255 && m != 0 {
        if mb == 0 {
            inf
        } else {
            inf + 1
        }
    } else if bits >= 0x8000_0000 || bits == 0 {
        0
    } else if e == 255 {
        inf
    } else {
        let exp = f32_rebased_exponent(bits);
        let sig = f32_significand(bits) as nat;
        let code: int = if exp <= 1 {
            round_half_even(sig, pow2((24 - mb - exp) as nat)) as int
        } else {
            (exp - 1) * pow2(mb) + round_half_even(sig, pow2((23 - mb) as nat))
        };
        if code > inf {
            inf
        } else {
            code
        }
    }
}

proof fn lemma_round_by_one(v: nat)
    ensures
        round_half_even(v, 1) == v,
{
    vstd::arithmetic::div_mod::lemma_fundamental_div_mod_converse(v as int, 1, v as int, 0);
}

/// The stated conversion and the step-by-step one agree.
proof fn lemma_ufloat_steps(bits: u32, mb: nat)
    requires
        mb <= 23,
    ensures
        ufloat_spec(bits, mb) == ufloat_steps(bits, mb),
{
    let e = f32_exponent_field(bits);
    let m = f32_mantissa_field(bits);
    vstd::arithmetic::power2::lemma2_to64();
    lemma_pow2_pos(mb);
    if e == 255 || bits >= 0x8000_0000 || bits == 0 {
        return;
    }
    let inf: int = 31 * (pow2(mb) as int);
    let exp = e - 112;
    let full = (0x800000 + m) as nat;
    let s = (23 - mb) as nat;
    if e == 0 {
        // f32 subnormals are far below the mini-float's range
        let k = (24 - mb + 111) as nat;
        vstd::arithmetic::power2::lemma_pow2_strictly_increases(25, k);
        assert(pow2(25) == 0x2000000);
        lemma_round_small(m as nat, pow2(k));
        return;
    }
    if exp <= 0 {
        let extra = (24 - mb - exp) as nat;
        if extra >= 64 {
            vstd::arithmetic::power2::lemma_pow2_strictly_increases(25, extra);
            assert(pow2(25) == 0x2000000);
            lemma_round_small(full, pow2(extra));
        } else {
            lemma_subnormal_bound(full, mb, exp, extra);
        }
        return;
    }
    lemma_normal_bounds(full, mb);
    if s == 0 {
        lemma_round_by_one(full);
    }
    let rm = round_half_even(full, pow2(s)) as int;
    assert(rm == round_shift_spec(full as u64, s as u32));
    if exp >= 31 {
        assert((exp - 1) * pow2(mb) >= 30 * pow2(mb)) by (nonlinear_arith)
            requires
                exp >= 31,
                pow2(mb) > 0,
        ;
    } else {
        assert((exp - 1) * pow2(mb) + pow2(mb) == exp * pow2(mb)) by (nonlinear_arith);
        assert((exp + 1) * pow2(mb) == exp * pow2(mb) + pow2(mb)) by (nonlinear_arith);
        assert(exp * pow2(mb) <= 30 * pow2(mb)) by (nonlinear_arith)
            requires
                exp <= 30,
                pow2(mb) > 0,
        ;
    }
}

proof fn lemma_f32_fields_bv(bits: u32)
    by (bit_vector)
    ensures
        (bits >> 23u32) & 0xFF == (bits / 0x800000) % 256,
        bits & 0x7FFFFF == bits % 0x800000,
{
}

proof fn lemma_or_low_bv(hi: u32, lo: u32, mb: u32)
    by (bit_vector)
    requires
        mb < 32,
        lo < (1u32 << mb),
        hi == (hi >> mb) << mb,
    ensures
        hi | lo == hi + lo,
{
}

proof fn lemma_shl_shr_bv(x: u32, mb: u32)
    by (bit_vector)
    requires
        mb < 32,
        x < 32,
        mb <= 23,
    ensures
        ((x << mb) >> mb) << mb == x << mb,
{
}

/// Converts the `f32` with bit pattern `bits` to an unsigned mini-float with
/// 5 exponent bits (bias 15) and `mantissa_bits` mantissa bits (6 for R/G,
/// 5 for B).
pub fn f32_to_ufloat(bits: u32, mantissa_bits: u32) -> (r: u32)
    requires
        mantissa_bits <= 23,
    ensures
        r == ufloat_spec(bits, mantissa_bits as nat),
        r < 32 * pow2(mantissa_bits as nat),
{
    let mb = mantissa_bits;
    proof {
        lemma_ufloat_steps(bits, mb as nat);
        lemma_u32_pow2_no_overflow(mb as nat);
        lemma_f32_fields_bv(bits);
        lemma_pow2_pos(mb as nat);
        if mb < 23 {
            vstd::arithmetic::power2::lemma_pow2_strictly_increases(mb as nat, 23);
        }
        vstd::arithmetic::power2::lemma2_to64();
        lemma_u32_shl_is_mul(1, mb);
        lemma_u32_shl_is_mul(31, mb);
    }
    let mantissa_mask: u32 = (1u32 << mb) - 1;
    let inf: u32 = 31u32 << mb;
    let exp_field: u32 = (bits >> 23u32) & 0xFF;
    let f32_mantissa: u32 = bits & 0x7FFFFF;
    if exp_field == 255 && f32_mantissa != 0 {
        proof {
            if mb > 0 {
                lemma_u32_shl_is_mul(1, 0);
                assert(1 < (1u32 << mb));
                lemma_shl_shr_bv(31, mb);
                lemma_or_low_bv(inf, 1, mb);
            } else {
                assert(inf | 1 == inf) by (bit_vector)
                    requires
                        inf == 31u32 << 0u32;
            }
        }
        return inf | 1;
    }
    if bits >= 0x8000_0000 || bits == 0 {
        return 0;
    }
    if exp_field == 255 {
        return inf;
    }
    let full_mantissa: u64 = (1u64 << 23u64) | f32_mantissa as u64;
    assert(full_mantissa == 0x800000 + f32_mantissa) by (bit_vector)
        requires
            f32_mantissa < 0x800000,
            full_mantissa == (1u64 << 23u64) | f32_mantissa as u64;
    let mut exp: i32 = exp_field as i32 - 112;
    let shift: i32 = 23 - mb as i32;
    if exp >= 31 {
        return inf;
    }
    if exp <= 0 {
        let extra_shift: i32 = shift - exp + 1;
        if extra_shift >= 64 {
            return 0;
        }
        let mantissa = round_shift(full_mantissa, extra_shift as u32);
        proof {
            lemma_round_bounds(full_mantissa as nat, extra_shift as nat);
            lemma_subnormal_bound(full_mantissa as nat, mb as nat, exp as int, extra_shift as nat);
        }
        return mantissa as u32;
    }
    let mut mantissa = round_shift(full_mantissa, shift as u32);
    proof {
        lemma_normal_bounds(full_mantissa as nat, mb as nat);
        lemma_u64_pow2_no_overflow(mb as nat);
        assert(2 * pow2(mb as nat) <= u64::MAX);
        lemma_u64_shl_is_mul(2, mb as u64);
    }
    let top: u64 = (2u64 << mb as u64) - 1;
    if mantissa > top {
        mantissa = 0;
        exp = exp + 1;
        if exp >= 31 {
            return inf;
        }
    }
    proof {
        assert(exp * pow2(mb as nat) <= 30 * 0x800000) by (nonlinear_arith)
            requires
                0 < exp <= 30,
                pow2(mb as nat) <= 0x800000,
        ;
        lemma_u32_shl_is_mul(exp as u32, mb);
        lemma_u32_low_bits_mask_is_mod(mantissa as u32, mb as nat);
        lemma_shl_shr_bv(exp as u32, mb);
        if mantissa != 0 {
            assert(pow2(mb as nat) <= mantissa < 2 * pow2(mb as nat));
            vstd::arithmetic::div_mod::lemma_fundamental_div_mod_converse(
                mantissa as int,
                pow2(mb as nat) as int,
                1,
                mantissa - pow2(mb as nat),
            );
        }
        assert((mantissa as u32) & mantissa_mask < (1u32 << mb));
        lemma_or_low_bv((exp as u32) << mb, (mantissa as u32) & mantissa_mask, mb);
        assert(exp * pow2(mb as nat) + pow2(mb as nat) <= 31 * pow2(mb as nat)) by (nonlinear_arith)
            requires
                exp < 31,
        ;
    }
    ((exp as u32) << mb) | ((mantissa as u32) & mantissa_mask)
}

/// A quotient by `2^s` rounded half to even lies between the truncated
/// quotient and one more than it.
proof fn lemma_round_bounds(value: nat, s: nat)
    requires
        1 <= s,
    ensures
        value / pow2(s) <= round_half_even(value, pow2(s)) <= value / pow2(s) + 1,
{
    lemma_pow2_pos(s);
}

/// Below the normal range the rounded mantissa is at most `2^mb`, the
/// smallest normal.
proof fn lemma_subnormal_bound(full: nat, mb: nat, exp: int, extra: nat)
    requires
        full < 0x1000000,
        mb <= 23,
        exp <= 0,
        extra == 23 - mb - exp + 1,
        extra < 64,
    ensures
        round_half_even(full, pow2(extra)) <= pow2(mb),
{
    vstd::arithmetic::power2::lemma2_to64();
    vstd::arithmetic::power2::lemma_pow2_adds(mb, extra);
    lemma_pow2_pos(mb);
    lemma_pow2_pos(extra);
    assert(pow2(mb + extra) >= pow2(24)) by {
        if mb + extra > 24 {
            vstd::arithmetic::power2::lemma_pow2_strictly_increases(24, mb + extra);
        }
    }
    let d = pow2(extra);
    assert(full / d < pow2(mb)) by {
        vstd::arithmetic::div_mod::lemma_fundamental_div_mod(full as int, d as int);
        assert(full / d < pow2(mb)) by (nonlinear_arith)
            requires
                pow2(mb) * d >= 0x1000000,
                full < 0x1000000,
                full == d * (full / d) + full % d,
                0 <= full % d,
                d > 0,
                pow2(mb) > 0,
                full / d >= 0,
        ;
    }
    lemma_round_bounds(full, extra);
}

/// In the normal range the rounded significand, leading 1 included, lies
/// between `2^mb` and `2^(mb + 1)`.
proof fn lemma_normal_bounds(full: nat, mb: nat)
    requires
        0x800000 <= full < 0x1000000,
        mb <= 23,
    ensures
        pow2(mb) <= round_shift_spec(full as u64, (23 - mb) as u32) <= 2 * pow2(mb),
{
    vstd::arithmetic::power2::lemma2_to64();
    let s = (23 - mb) as nat;
    vstd::arithmetic::power2::lemma_pow2_adds(mb, s);
    lemma_pow2_pos(mb);
    lemma_pow2_pos(s);
    if s == 0 {
        assert(pow2(mb) == 0x800000);
    } else {
        let d = pow2(s);
        vstd::arithmetic::div_mod::lemma_fundamental_div_mod(full as int, d as int);
        assert(pow2(mb) <= full / d < 2 * pow2(mb)) by (nonlinear_arith)
            requires
                pow2(mb) * d == 0x800000,
                0x800000 <= full < 0x1000000,
                full == d * (full / d) + full % d,
                0 <= full % d < d,
                d > 0,
                pow2(mb) > 0,
        ;
        lemma_round_bounds(full, s);
    }
}

/// Rounding never decreases as the dividend grows by one.
proof fn lemma_round_grows(v: nat, d: nat)
    requires
        d > 0,
    ensures
        round_half_even(v, d) <= round_half_even(v + 1, d),
{
    let q = v / d;
    let r = v % d;
    vstd::arithmetic::div_mod::lemma_fundamental_div_mod(v as int, d as int);
    if r + 1 < d {
        vstd::arithmetic::div_mod::lemma_fundamental_div_mod_converse((v + 1) as int, d as int, q as int, (r + 1) as int);
    } else {
        assert(v + 1 == d * (q + 1)) by (nonlinear_arith)
            requires
                v == d * q + r,
                r + 1 == d,
        ;
        vstd::arithmetic::div_mod::lemma_fundamental_div_mod_converse((v + 1) as int, d as int, (q + 1) as int, 0);
    }
}

/// Doubling dividend and divisor leaves the rounded quotient unchanged.
proof fn lemma_round_double(v: nat, d: nat)
    requires
        d > 0,
    ensures
        round_half_even(2 * v, 2 * d) == round_half_even(v, d),
{
    let q = v / d;
    let r = v % d;
    vstd::arithmetic::div_mod::lemma_fundamental_div_mod(v as int, d as int);
    assert(2 * v == (2 * d) * q + 2 * r) by (nonlinear_arith)
        requires
            v == d * q + r,
    ;
    vstd::arithmetic::div_mod::lemma_fundamental_div_mod_converse((2 * v) as int, (2 * d) as int, q as int, (2 * r) as int);
}

/// An exact quotient rounds to itself.
proof fn lemma_round_exact(q: nat, d: nat)
    requires
        d > 0,
    ensures
        round_half_even(q * d, d) == q,
{
    vstd::arithmetic::div_mod::lemma_fundamental_div_mod_converse((q * d) as int, d as int, q as int, 0);
}

/// From one positive finite `f32` bit pattern to the next the mini-float
/// does not decrease.
proof fn lemma_ufloat_step(bits: u32, mb: nat)
    requires
        mb <= 23,
        0 < bits,
        bits + 1 < 0x7F80_0000,
    ensures
        ufloat_spec(bits, mb) <= ufloat_spec((bits + 1) as u32, mb),
{
    let b2 = (bits + 1) as u32;
    let q = bits as int / 0x800000;
    let r = bits as int % 0x800000;
    vstd::arithmetic::div_mod::lemma_fundamental_div_mod(bits as int, 0x800000);
    assert(q < 255);
    vstd::arithmetic::div_mod::lemma_small_mod(q as nat, 256);
    vstd::arithmetic::power2::lemma2_to64();
    lemma_pow2_pos(mb);
    let s = (23 - mb) as nat;
    vstd::arithmetic::power2::lemma_pow2_adds(mb, s);
    vstd::arithmetic::power2::lemma_pow2_adds(mb + 1, s);
    vstd::arithmetic::power2::lemma_pow2_unfold(mb + 1);
    lemma_pow2_pos(s);
    if r + 1 < 0x800000 {
        vstd::arithmetic::div_mod::lemma_fundamental_div_mod_converse(b2 as int, 0x800000, q, r + 1);
        vstd::arithmetic::div_mod::lemma_small_mod(q as nat, 256);
        let exp = f32_rebased_exponent(bits);
        let sig = f32_significand(bits) as nat;
        assert(f32_rebased_exponent(b2) == exp);
        assert(f32_significand(b2) == sig + 1);
        if exp <= 1 {
            lemma_pow2_pos((24 - mb - exp) as nat);
            lemma_round_grows(sig, pow2((24 - mb - exp) as nat));
        } else {
            lemma_round_grows(sig, pow2(s));
        }
    } else {
        vstd::arithmetic::div_mod::lemma_fundamental_div_mod_converse(b2 as int, 0x800000, q + 1, 0);
        vstd::arithmetic::div_mod::lemma_small_mod((q + 1) as nat, 256);
        if q == 0 {
            assert(f32_rebased_exponent(b2) == f32_rebased_exponent(bits));
            assert(f32_significand(b2) == f32_significand(bits) + 1);
            let k = (24 - mb + 111) as nat;
            lemma_pow2_pos(k);
            lemma_round_grows(f32_significand(bits) as nat, pow2(k));
        } else {
            let exp = q - 112;
            assert(f32_rebased_exponent(bits) == exp);
            assert(f32_rebased_exponent(b2) == exp + 1);
            assert(f32_significand(bits) == 0xFFFFFF);
            assert(f32_significand(b2) == 0x800000);
            if exp + 1 <= 1 {
                let k = (24 - mb - exp) as nat;
                vstd::arithmetic::power2::lemma_pow2_unfold(k);
                lemma_pow2_pos((k - 1) as nat);
                lemma_round_double(0x800000, pow2((k - 1) as nat));
                lemma_round_grows(0xFFFFFF, pow2(k));
            } else {
                lemma_round_exact(pow2(mb + 1), pow2(s));
                lemma_round_exact(pow2(mb), pow2(s));
                assert(pow2(mb + 1) * pow2(s) == 0x1000000);
                assert(pow2(mb) * pow2(s) == 0x800000);
                lemma_round_grows(0xFFFFFF, pow2(s));
                assert((exp - 1) * pow2(mb) + 2 * pow2(mb) == exp * pow2(mb) + pow2(mb)) by (nonlinear_arith);
                if exp == 1 {
                    assert(f32_significand(bits) == 0xFFFFFF);
                }
            }
        }
    }
}

/// A normal value that the mini-float holds exactly keeps its exponent,
/// rebased from bias 127 to bias 15, and the top `mb` bits of its mantissa:
/// for an `f32` with exponent field `e` in `113..=142` and no mantissa bit
/// below the top `mb`, the code is `(e - 112) * 2^mb + m / 2^(23 - mb)`.
pub proof fn lemma_ufloat_exact(bits: u32, mb: nat)
    requires
        mb <= 23,
        bits < 0x8000_0000,
        113 <= f32_exponent_field(bits) <= 142,
        f32_mantissa_field(bits) % (pow2((23 - mb) as nat) as int) == 0,
    ensures
        ufloat_spec(bits, mb) == (f32_exponent_field(bits) - 112) * pow2(mb) + f32_mantissa_field(bits) / (pow2(
            (23 - mb) as nat,
        ) as int),
{
    let e = f32_exponent_field(bits);
    let m = f32_mantissa_field(bits);
    let s = (23 - mb) as nat;
    let d = pow2(s) as int;
    let q = m / d;
    vstd::arithmetic::power2::lemma2_to64();
    vstd::arithmetic::power2::lemma_pow2_adds(mb, s);
    lemma_pow2_pos(mb);
    lemma_pow2_pos(s);
    vstd::arithmetic::div_mod::lemma_fundamental_div_mod(m, d);
    assert(pow2(mb) * pow2(s) == 0x800000);
    assert(0x800000 + m == (pow2(mb) + q) * d) by (nonlinear_arith)
        requires
            m == d * q,
            pow2(mb) * pow2(s) == 0x800000,
            d == pow2(s),
    ;
    assert(q < pow2(mb)) by (nonlinear_arith)
        requires
            m == d * q,
            m < 0x800000,
            pow2(mb) * d == 0x800000,
            d > 0,
    ;
    assert(0 <= q) by (nonlinear_arith)
        requires
            m == d * q,
            m >= 0,
            d > 0,
    ;
    lemma_round_exact((pow2(mb) + q) as nat, pow2(s));
    assert(((pow2(mb) + q) as nat) * pow2(s) == (0x800000 + m) as nat);
    assert(round_half_even((0x800000 + m) as nat, pow2(s)) == pow2(mb) + q);
    assert(f32_significand(bits) == 0x800000 + m);
    let exp = e - 112;
    assert(f32_rebased_exponent(bits) == exp);
    assert(bits != 0);
    assert(!(e == 255));
    let code: int = if exp <= 1 {
        round_half_even(f32_significand(bits) as nat, pow2((24 - mb - exp) as nat)) as int
    } else {
        (exp - 1) * pow2(mb) + round_half_even(f32_significand(bits) as nat, pow2((23 - mb) as nat))
    };
    let sig = f32_significand(bits) as nat;
    assert(sig == (0x800000 + m) as nat);
    assert(round_half_even(sig, pow2(s)) == pow2(mb) + q);
    if exp <= 1 {
        assert((24 - mb - exp) as nat == s);
        assert(exp == 1);
        assert(code == pow2(mb) + q);
        assert(exp * pow2(mb) == pow2(mb)) by (nonlinear_arith)
            requires
                exp == 1,
        ;
        assert(code == exp * pow2(mb) + q);
    } else {
        assert(code == (exp - 1) * pow2(mb) + pow2(mb) + q);
        assert((exp - 1) * pow2(mb) + pow2(mb) == exp * pow2(mb)) by (nonlinear_arith);
        assert(code == exp * pow2(mb) + q);
    }
    assert(code <= 31 * (pow2(mb) as int)) by (nonlinear_arith)
        requires
            code == exp * pow2(mb) + q,
            exp <= 30,
            q < pow2(mb),
    ;
    assert((exp - 1) * pow2(mb) + pow2(mb) == exp * pow2(mb)) by (nonlinear_arith);
    assert(exp * pow2(mb) + q < 31 * pow2(mb)) by (nonlinear_arith)
        requires
            exp <= 30,
            q < pow2(mb),
    ;
}

/// Converting to the mini-float keeps the order of non-negative finite
/// values: for bit patterns of such `f32` values (negative zero included),
/// a smaller-or-equal value never gets a larger code. Positive finite bit
/// patterns are ordered as their values, and negative zero converts to 0.
pub proof fn lemma_ufloat_monotone(a: u32, b: u32, mb: nat)
    requires
        mb <= 23,
        b < 0x7F80_0000,
        a <= b || a == 0x8000_0000,
    ensures
        ufloat_spec(a, mb) <= ufloat_spec(b, mb),
    decreases b,
{
    if a == 0x8000_0000 || a == b {
        return;
    }
    if b - 1 == 0 {
        return;
    }
    lemma_ufloat_step((b - 1) as u32, mb);
    lemma_ufloat_monotone(a, (b - 1) as u32, mb);
}

/// The R11G11B10 texel for the `f32` bit patterns `r`, `g`, `b`: red in bits
/// 0..11, green in bits 11..22, blue in bits 22..32.
pub open spec fn r11g11b10_spec(r: u32, g: u32, b: u32) -> int {
    ufloat_spec(r, 6) + ufloat_spec(g, 6) * 0x800 + ufloat_spec(b, 5) * 0x400000
}

/// The three channels of a packed texel read back unchanged.
pub proof fn lemma_r11g11b10_fields(r: u32, g: u32, b: u32)
    requires
        0 <= ufloat_spec(r, 6) < 0x800,
        0 <= ufloat_spec(g, 6) < 0x800,
        0 <= ufloat_spec(b, 5) < 0x400,
    ensures
        r11g11b10_spec(r, g, b) % 0x800 == ufloat_spec(r, 6),
        (r11g11b10_spec(r, g, b) / 0x800) % 0x800 == ufloat_spec(g, 6),
        r11g11b10_spec(r, g, b) / 0x400000 == ufloat_spec(b, 5),
        0 <= r11g11b10_spec(r, g, b) < 0x1_0000_0000,
{
    let x = ufloat_spec(r, 6);
    let y = ufloat_spec(g, 6);
    let z = ufloat_spec(b, 5);
    let p = r11g11b10_spec(r, g, b);
    vstd::arithmetic::div_mod::lemma_fundamental_div_mod_converse(p, 0x800, y + z * 0x800, x);
    vstd::arithmetic::div_mod::lemma_fundamental_div_mod_converse(y + z * 0x800, 0x800, z, y);
    vstd::arithmetic::div_mod::lemma_fundamental_div_mod_converse(p, 0x400000, z, x + y * 0x800);
}

proof fn lemma_pack_bv(x: u32, y: u32, z: u32)
    by (bit_vector)
    requires
        x < 0x800,
        y < 0x800,
        z < 0x400,
    ensures
        x | (y << 11u32) | (z << 22u32) == x + y * 0x800 + z * 0x400000,
{
}

proof fn lemma_bytes_bv(p: u32)
    by (bit_vector)
    ensures
        (p & 0xff) == p % 0x100,
        ((p >> 8u32) & 0xff) == (p / 0x100) % 0x100,
        ((p >> 16u32) & 0xff) == (p / 0x10000) % 0x100,
        (p >> 24u32) == p / 0x1000000,
{
}

/// Encodes the `f32` bit patterns `r`, `g`, `b` of three non-negative colour
/// channels into the packed R11G11B10_FLOAT format, returned as the
/// little-endian bytes of the packed `u32`.
pub fn encode_r11g11b10(r: u32, g: u32, b: u32) -> (bytes: [u8; 4])
    ensures
        bytes@.len() == 4,
        bytes@[0] == r11g11b10_spec(r, g, b) % 0x100,
        bytes@[1] == (r11g11b10_spec(r, g, b) / 0x100) % 0x100,
        bytes@[2] == (r11g11b10_spec(r, g, b) / 0x10000) % 0x100,
        bytes@[3] == r11g11b10_spec(r, g, b) / 0x1000000,
{
    let x = f32_to_ufloat(r, 6);
    let y = f32_to_ufloat(g, 6);
    let z = f32_to_ufloat(b, 5);
    proof {
        vstd::arithmetic::power2::lemma2_to64();
        lemma_pack_bv(x, y, z);
    }
    let packed = x | (y << 11u32) | (z << 22u32);
    proof {
        lemma_bytes_bv(packed);
    }
    [(packed & 0xff) as u8, ((packed >> 8u32) & 0xff) as u8, ((packed >> 16u32) & 0xff) as u8, (packed
        >> 24u32) as u8]
}

/// The texel formats the baker's textures use.
#[derive(Clone, Copy, Debug, PartialEq, Eq, Structural)]
pub enum TextureFormat {
    /// Four 32-bit floats.
    Rgba32Float,
    /// Four 8-bit normalized channels.
    Rgba8Unorm,
    /// Three unsigned mini-floats packed in 32 bits.
    B10G11R11Ufloat,
}

/// Bytes per texel of `format`.
pub fn pixel_size(format: TextureFormat) -> (r: u64)
    ensures
        r == match format {
            TextureFormat::Rgba32Float => 16u64,
            TextureFormat::Rgba8Unorm => 4u64,
            TextureFormat::B10G11R11Ufloat => 4u64,
        },
{
    match format {
        TextureFormat::Rgba32Float => 16,
        TextureFormat::Rgba8Unorm => 4,
        TextureFormat::B10G11R11Ufloat => 4,
    }
}

/// Bytes a `width` x `height` texture of `format` takes on the device.
pub fn device_size(width: u32, height: u32, format: TextureFormat) -> (r: u64)
    requires
        width * height <= u32::MAX,
    ensures
        r == width * height * (pixel_size_spec(format) as int),
{
    let texels = (width * height) as u64;
    let size = pixel_size(format);
    proof {
        assert(texels * size <= u32::MAX * 16) by (nonlinear_arith)
            requires
                texels <= u32::MAX,
                size <= 16,
        ;
    }
    texels * size
}

/// Bytes per texel of `format`.
pub open spec fn pixel_size_spec(format: TextureFormat) -> nat {
    match format {
        TextureFormat::Rgba32Float => 16,
        TextureFormat::Rgba8Unorm => 4,
        TextureFormat::B10G11R11Ufloat => 4,
    }
}

/// The row bands in which a `height`-row image moves through a staging
/// buffer that holds `rows_per_chunk` rows: `(first row, row count)` from the
/// top, each band as tall as the buffer allows.
pub fn row_chunks(height: u32, rows_per_chunk: u32) -> (chunks: Vec<(u32, u32)>)
    requires
        rows_per_chunk > 0,
    ensures
        chunks@.len() > 0 ==> chunks@[0].0 == 0,
        forall|i: int|
            0 <= i < chunks@.len() ==> 0 < (#[trigger] chunks@[i]).1 <= rows_per_chunk && chunks@[i].0
                + chunks@[i].1 <= height,
        forall|i: int|
            0 <= i < chunks@.len() - 1 ==> #[trigger] chunks@[i].1 == rows_per_chunk && chunks@[i].0
                + chunks@[i].1 == chunks@[i + 1].0,
        chunks@.len() == 0 <==> height == 0,
        chunks@.len() > 0 ==> chunks@[chunks@.len() - 1].0 + chunks@[chunks@.len() - 1].1 == height,
{
    let mut chunks: Vec<(u32, u32)> = Vec::new();
    let mut current_y: u32 = 0;
    while current_y < height
        invariant
            rows_per_chunk > 0,
            current_y <= height,
            chunks@.len() > 0 ==> chunks@[0].0 == 0,
            chunks@.len() == 0 <==> current_y == 0,
            chunks@.len() > 0 ==> chunks@[chunks@.len() - 1].0 + chunks@[chunks@.len() - 1].1 == current_y,
            chunks@.len() > 0 && chunks@[chunks@.len() - 1].1 < rows_per_chunk ==> current_y == height,
            forall|i: int|
                0 <= i < chunks@.len() ==> 0 < (#[trigger] chunks@[i]).1 <= rows_per_chunk && chunks@[i].0
                    + chunks@[i].1 <= current_y,
            forall|i: int|
                0 <= i < chunks@.len() - 1 ==> #[trigger] chunks@[i].1 == rows_per_chunk && chunks@[i].0
                    + chunks@[i].1 == chunks@[i + 1].0,
        decreases height - current_y,
    {
        let chunk_height = if rows_per_chunk < height - current_y {
            rows_per_chunk
        } else {
            height - current_y
        };
        let ghost before = chunks@;
        chunks.push((current_y, chunk_height));
        proof {
            if before.len() > 0 {
                let last = before[before.len() - 1];
                assert(last.0 + last.1 == current_y);
                if last.1 != rows_per_chunk {
                    assert(last.1 < rows_per_chunk);
                }
            }
        }
        current_y = current_y + chunk_height;
        proof {
            assert forall|i: int| 0 <= i < chunks@.len() - 1 implies #[trigger] chunks@[i].1 == rows_per_chunk && chunks@[i].0
                + chunks@[i].1 == chunks@[i + 1].0 by {
                if i == chunks@.len() - 2 {
                    assert(chunks@[i] == before[before.len() - 1]);
                } else {
                    assert(chunks@[i] == before[i]);
                    assert(chunks@[i + 1] == before[i + 1]);
                }
            }
        }
    }
    chunks
}

} // verus!
