//! Extended-precision fixed-point operations.
//!
//! Some parts of the codec need more than 16 bits of precision. They use a
//! "double precision format" (DPF) that splits a 31-bit value into a 16-bit
//! high part and a 15-bit non-negative low part:
//! `value = hi * 2^15 + lo`, for `-2^30 <= value < 2^30`.

use super::dsp_ops::{add_shifted, load_shifted, sub_shifted};
use super::ops::{div_s_pure, extract_h, extract_l, l_mult0, l_shl_pure, l_sub_pure, sat32, shift32};
use super::{Word16, Word32};
use vstd::arithmetic::power2::{lemma2_to64, pow2};
use vstd::prelude::*;

verus! {

/// High DPF part of `l`: `floor(sat32(2 l) / 2^16)`.
pub open spec fn split_hi(l: int) -> int {
    sat32(2 * l) / 65536
}

/// Low DPF part of `l`: the 16-bit truncation of `l - split_hi(l) * 2^15`.
pub open spec fn split_lo(l: int) -> int {
    (l - split_hi(l) * 32768) as i16 as int
}

/// Result of [`mul_word_dpf`]: `sat32(hi1*lo2 + 2*floor(lo1*lo2 / 2^16))`.
pub open spec fn mul_word_dpf_value(hi1: int, lo1: int, lo2: int) -> int {
    sat32(hi1 * lo2 + ((lo1 * lo2) / 65536) * 2)
}

/// Result of [`mul_dpf`]: the high-by-high product plus both cross
/// products divided by `2^15`, each addition saturated.
pub open spec fn mul_dpf_value(hi1: int, lo1: int, hi2: int, lo2: int) -> int {
    sat32(sat32(hi1 * hi2 + ((hi1 * lo2) / 65536) * 2) + ((lo1 * hi2) / 65536) * 2)
}

/// Result of [`super::ops::div_s`] as a function.
pub open spec fn div_s_value(num: int, den: int) -> int {
    if num == den {
        32767
    } else {
        (num * 32768) / den
    }
}

/// Result of [`div_dpf`]: one Newton step on the reciprocal of the
/// denominator's high part, then a DPF multiply by the numerator, in Q30.
pub open spec fn div_dpf_value(l_num: int, denom_hi: int, denom_lo: int) -> int {
    let approx = div_s_value(0x3fff, denom_hi);
    let t0 = sat32(0x4000_0000 - mul_word_dpf_value(denom_hi, denom_lo, approx));
    let t1 = mul_word_dpf_value(split_hi(t0), split_lo(t0), approx);
    let t2 = mul_dpf_value(split_hi(l_num), split_lo(l_num), split_hi(t1), split_lo(t1));
    shift32(t2, 2)
}

/// Compose a 32-bit value from a DPF (high, low) pair: `hi * 2^15 + lo`.
pub fn dpf_compose(hi: Word16, lo: Word16) -> (r: Word32)
    ensures
        r == hi * 32768 + lo,
{
    proof {
        lemma2_to64();
    }
    let l = load_shifted(lo, 0);
    assert(lo * pow2(0) == lo) by (nonlinear_arith)
        requires
            pow2(0) == 1,
    ;
    assert(-0x4000_0000 <= hi * 32768 <= 0x4000_0000) by (nonlinear_arith)
        requires
            -32768 <= hi <= 32767,
    ;
    add_shifted(l, hi, 15)
}

/// Split a 32-bit value into a DPF (high, low) pair. For a 31-bit value
/// (`-2^30 <= l_32 < 2^30`) the pair composes back to `l_32` and the low
/// part lies in `[0, 2^15)`.
pub fn dpf_split(l_32: Word32) -> (r: (Word16, Word16))
    ensures
        r.0 == split_hi(l_32 as int),
        r.1 == split_lo(l_32 as int),
        -0x4000_0000 <= l_32 < 0x4000_0000 ==> r.0 * 32768 + r.1 == l_32 && 0 <= r.1 < 32768,
{
    proof {
        lemma2_to64();
    }
    let doubled = l_shl_pure(l_32, 1);
    assert(l_32 * pow2(1) == 2 * l_32) by (nonlinear_arith)
        requires
            pow2(1) == 2,
    ;
    let hi = extract_h(doubled);
    proof {
        lemma_split_no_saturation(l_32 as int, doubled as int, hi as int);
    }
    let rest = sub_shifted(l_32, hi, 15);
    let lo = extract_l(rest);
    proof {
        if -0x4000_0000 <= l_32 < 0x4000_0000 {
            assert(0 <= l_32 - hi * 32768 < 32768);
            assert(rest as i16 == rest);
        }
    }
    (hi, lo)
}

/// The remainder `l - hi * 2^15` of a DPF split never leaves the 32-bit
/// range, and for a 31-bit `l` it is the remainder modulo `2^15`.
proof fn lemma_split_no_saturation(l: int, doubled: int, hi: int)
    requires
        -0x8000_0000 <= l <= 0x7fff_ffff,
        doubled == sat32(2 * l),
        hi == doubled / 65536,
    ensures
        -0x8000_0000 <= l - hi * 32768 <= 0x7fff_ffff,
        -0x4000_0000 <= l < 0x4000_0000 ==> 0 <= l - hi * 32768 < 32768,
{
    vstd::arithmetic::div_mod::lemma_fundamental_div_mod(doubled, 65536);
    let r = doubled % 65536;
    assert(-0x8000_0000 <= l - hi * 32768 <= 0x7fff_ffff) by (nonlinear_arith)
        requires
            doubled == 65536 * hi + r,
            0 <= r < 65536,
            -0x8000_0000 <= l <= 0x7fff_ffff,
            doubled == sat32(2 * l),
    ;
    assert(-0x4000_0000 <= l < 0x4000_0000 ==> 0 <= l - hi * 32768 < 32768) by (nonlinear_arith)
        requires
            doubled == 65536 * hi + r,
            0 <= r < 65536,
            -0x4000_0000 <= l < 0x4000_0000 ==> doubled == 2 * l,
    ;
}

/// Multiply a 16-bit integer by a DPF value, dividing the result by 2^16:
/// `hi1*lo2 + 2*floor(lo1*lo2 / 2^16)`, saturated.
pub fn mul_word_dpf(hi1: Word16, lo1: Word16, lo2: Word16) -> (r: Word32)
    ensures
        r == mul_word_dpf_value(hi1 as int, lo1 as int, lo2 as int),
{
    proof {
        lemma2_to64();
    }
    let p1 = extract_h(l_mult0(lo1, lo2));
    let l_32 = l_mult0(hi1, lo2);
    assert(p1 * pow2(1) == p1 * 2) by (nonlinear_arith)
        requires
            pow2(1) == 2,
    ;
    add_shifted(l_32, p1, 1)
}

/// Multiply two DPF values, dividing the result by 2^32.
pub fn mul_dpf(hi1: Word16, lo1: Word16, hi2: Word16, lo2: Word16) -> (r: Word32)
    ensures
        r == mul_dpf_value(hi1 as int, lo1 as int, hi2 as int, lo2 as int),
{
    proof {
        lemma2_to64();
    }
    let p1 = extract_h(l_mult0(hi1, lo2));
    let p2 = extract_h(l_mult0(lo1, hi2));
    let mut l_32 = l_mult0(hi1, hi2);
    assert(p1 * pow2(1) == p1 * 2 && p2 * pow2(1) == p2 * 2) by (nonlinear_arith)
        requires
            pow2(1) == 2,
    ;
    l_32 = add_shifted(l_32, p1, 1);
    add_shifted(l_32, p2, 1)
}

/// Fractional division `l_num / l_denom` in Q30, where the denominator is
/// given as a DPF pair whose high part is normalised (`>= 0x3FFF`).
pub fn div_dpf(l_num: Word32, denom_hi: Word16, denom_lo: Word16) -> (r: Word32)
    requires
        denom_hi >= 0x3fff,
    ensures
        r == div_dpf_value(l_num as int, denom_hi as int, denom_lo as int),
{
    // Start from the reciprocal of the high part alone (Q15).
    let approx = div_s_pure(0x3fff, denom_hi);

    // One Newton step doubles the accuracy of the reciprocal.
    let mut t0 = mul_word_dpf(denom_hi, denom_lo, approx);
    t0 = l_sub_pure(0x4000_0000, t0);
    let (hi, lo) = dpf_split(t0);
    t0 = mul_word_dpf(hi, lo, approx);

    // Multiply the numerator by that reciprocal.
    let (hi, lo) = dpf_split(t0);
    let (n_hi, n_lo) = dpf_split(l_num);
    t0 = mul_dpf(n_hi, n_lo, hi, lo);

    l_shl_pure(t0, 2)
}

/// Law: composing the two parts of a DPF split gives back the 31-bit value
/// that was split.
pub proof fn law_dpf_split_compose(l: int)
    requires
        -0x4000_0000 <= l < 0x4000_0000,
    ensures
        split_hi(l) * 32768 + split_lo(l) == l,
        0 <= split_lo(l) < 32768,
        -32768 <= split_hi(l) <= 32767,
{
    assert(sat32(2 * l) == 2 * l);
    lemma_split_no_saturation(l, 2 * l, split_hi(l));
    let d = l - split_hi(l) * 32768;
    assert(d as i16 as int == d);
}

} // verus!
