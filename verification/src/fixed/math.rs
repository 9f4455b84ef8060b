//! Table-based fixed-point math: `inv_sqrt`, `log2`, `pow2`.
//!
//! Each is a piecewise-linear interpolation over a small lookup table. The
//! `pow2` and `inv_sqrt` tables are exact evaluations of published formulas
//! (`round(2^(i/32) * 16384)` and `round(32768 / sqrt(1 + i/16))`) and are
//! kept inline. The `log2` table belongs to the reference data and is passed
//! in (see [`crate::tables::CodecTables`]).

use super::dsp_ops::{lemma_norm_l_value, norm_l_value};
use super::ops::{
    extract_h, extract_l, l_deposit_h, l_deposit_l, l_msu_pure, l_shl_pure, l_shr_pure, l_shr_r_pure, norm_l, sat16,
    sat32, shift32, shift32_round, shr_pure,
};
use super::shift_facts::{lemma_low15, lemma_low_bit, lemma_mul_pow2_zero};
use super::{Word16, Word32};
use vstd::arithmetic::div_mod::lemma_div_is_ordered;
use vstd::arithmetic::power2::lemma2_to64;
use vstd::prelude::*;

verus! {

/// Interpolation table for [`inv_sqrt`]: `round(32768 / sqrt(1 + i/16))`.
pub const TAB_INV_SQRT: [Word16; 49] = [
    32767,
    31790,
    30894,
    30070,
    29309,
    28602,
    27945,
    27330,
    26755,
    26214,
    25705,
    25225,
    24770,
    24339,
    23930,
    23541,
    23170,
    22817,
    22479,
    22155,
    21845,
    21548,
    21263,
    20988,
    20724,
    20470,
    20225,
    19988,
    19760,
    19539,
    19326,
    19119,
    18919,
    18725,
    18536,
    18354,
    18176,
    18004,
    17837,
    17674,
    17515,
    17361,
    17211,
    17064,
    16921,
    16782,
    16646,
    16514,
    16384,
];

/// Interpolation table for [`pow2`]: `round(2^(i/32) * 16384)`.
pub const TAB_POW2: [Word16; 33] = [
    16384,
    16743,
    17109,
    17484,
    17867,
    18258,
    18658,
    19066,
    19484,
    19911,
    20347,
    20792,
    21247,
    21713,
    22188,
    22674,
    23170,
    23678,
    24196,
    24726,
    25268,
    25821,
    26386,
    26964,
    27554,
    28158,
    28774,
    29405,
    30048,
    30706,
    31379,
    32066,
    32767,
];

/// Linear interpolation between table entries `t0` and `t1` at the Q15
/// fraction `a`, in Q16: `sat32(t0 * 2^16 - sat32(2 * sat16(t0 - t1) * a))`.
pub open spec fn interpolate(t0: int, t1: int, a: int) -> int {
    sat32(t0 * 65536 - sat32(2 * sat16(t0 - t1) * a))
}

/// The normalised mantissa of a positive `l_x`: `l_x * 2^norm_l(l_x)`.
pub open spec fn normalised(l_x: int) -> int {
    l_x * vstd::arithmetic::power2::pow2(norm_l_value(l_x) as nat)
}

/// Result of [`inv_sqrt`]: `1 / sqrt(l_x)` in Q30 by table interpolation.
pub open spec fn inv_sqrt_value(l_x: int) -> int {
    if l_x <= 0 {
        0x3fff_ffff
    } else {
        let e = 30 - norm_l_value(l_x);
        let m = if e % 2 == 0 {
            normalised(l_x) / 2
        } else {
            normalised(l_x)
        };
        let idx = (m / 512) / 65536 - 16;
        let a = (((m / 512) / 2) as i16 as int) % 32768;
        interpolate(TAB_INV_SQRT[idx] as int, TAB_INV_SQRT[idx + 1] as int, a) / (vstd::arithmetic::power2::pow2((e / 2 + 1) as nat) as int)
    }
}

/// Exponent returned by [`log2`]: `30 - norm_l(l_x)` (0 for `l_x <= 0`).
pub open spec fn log2_exponent(l_x: int) -> int {
    if l_x <= 0 {
        0
    } else {
        30 - norm_l_value(l_x)
    }
}

/// Q15 fraction returned by [`log2`], interpolated in `tab`.
pub open spec fn log2_fraction(tab: Seq<Word16>, l_x: int) -> int {
    if l_x <= 0 {
        0
    } else {
        let m = normalised(l_x) / 512;
        let idx = m / 65536 - 32;
        let a = ((m / 2) as i16 as int) % 32768;
        interpolate(tab[idx] as int, tab[idx + 1] as int, a) / 65536
    }
}

/// Result of [`pow2`]: `2^(exponent.fraction)` by table interpolation,
/// shifted right with rounding by `30 - exponent`.
pub open spec fn pow2_value(exponent: int, fraction: int) -> int {
    let i = (fraction * 64) / 65536;
    let a = ((fraction * 32) as i16 as int) % 32768;
    shift32_round(interpolate(TAB_POW2[i] as int, TAB_POW2[i + 1] as int, a), sat16(30 - exponent))
}

/// Facts about the normalised mantissa of a positive 32-bit value.
pub proof fn lemma_normalised(l_x: Word32, exp: Word16)
    requires
        l_x > 0,
        0 <= exp <= 30,
        0x4000_0000 <= super::ops::norm_magnitude(l_x as int) * vstd::arithmetic::power2::pow2(exp as nat) < 0x8000_0000,
    ensures
        norm_l_value(l_x as int) == exp,
        0x4000_0000 <= normalised(l_x as int) < 0x8000_0000,
        shift32(l_x as int, exp as int) == normalised(l_x as int),
{
    lemma_norm_l_value(l_x, exp);
}

/// Compute `1 / sqrt(l_x)` for `l_x > 0`, in Q30; `0x3FFF_FFFF` otherwise.
pub fn inv_sqrt(l_x: Word32) -> (r: Word32)
    ensures
        r == inv_sqrt_value(l_x as int),
{
    if l_x <= 0 {
        return 0x3fff_ffff;
    }
    proof {
        lemma2_to64();
    }
    let mut exp = norm_l(l_x);
    proof {
        lemma_normalised(l_x, exp);
    }
    let ghost e0 = 30 - exp;
    let mut l_x = l_shl_pure(l_x, exp);
    exp = crate::fixed::ops::sub_pure(30, exp);
    proof {
        lemma_low_bit(exp);
    }
    let ghost n = l_x as int;
    if exp & 1 == 0 {
        l_x = l_shr_pure(l_x, 1);
        proof {
            lemma_div_is_ordered(0x4000_0000, n, 2);
            lemma_div_is_ordered(n, 0x7fff_ffff, 2);
        }
    }
    let ghost m = l_x as int;
    proof {
        lemma_div_is_ordered(0x2000_0000, m, 512);
        lemma_div_is_ordered(m, 0x7fff_ffff, 512);
        lemma_div_is_ordered(0x10_0000, m / 512, 65536);
        lemma_div_is_ordered(m / 512, 0x3f_ffff, 65536);
    }
    exp = shr_pure(exp, 1);
    exp = crate::fixed::ops::add_pure(exp, 1);

    l_x = l_shr_pure(l_x, 9);
    let i = extract_h(l_x);
    l_x = l_shr_pure(l_x, 1);
    let a0 = extract_l(l_x);
    proof {
        lemma_low15(a0);
    }
    let a = a0 & 0x7fff;

    let i = crate::fixed::ops::sub_pure(i, 16) as usize;

    let mut l_y = l_deposit_h(TAB_INV_SQRT[i]);
    let tmp = crate::fixed::ops::sub_pure(TAB_INV_SQRT[i], TAB_INV_SQRT[i + 1]);
    l_y = l_msu_pure(l_y, tmp, a);
    assert(2 * tmp * a == 2 * sat16(TAB_INV_SQRT[i as int] - TAB_INV_SQRT[i + 1]) * a);

    l_shr_pure(l_y, exp)
}

/// Compute `log2(l_x)` for `l_x > 0`, returning the integer exponent
/// (0..=30) and the Q15 fraction interpolated in `tab_log2`; `(0, 0)` for
/// `l_x <= 0`.
pub fn log2(l_x: Word32, tab_log2: &[Word16; 33]) -> (r: (Word16, Word16))
    ensures
        r.0 == log2_exponent(l_x as int),
        r.1 == log2_fraction(tab_log2@, l_x as int),
        0 <= r.0 <= 30,
{
    if l_x <= 0 {
        return (0, 0);
    }
    proof {
        lemma2_to64();
    }
    let exp = norm_l(l_x);
    proof {
        lemma_normalised(l_x, exp);
    }
    let mut l_x = l_shl_pure(l_x, exp);
    let exponent = crate::fixed::ops::sub_pure(30, exp);
    let ghost m = l_x as int;
    proof {
        lemma_div_is_ordered(0x4000_0000, m, 512);
        lemma_div_is_ordered(m, 0x7fff_ffff, 512);
        lemma_div_is_ordered(0x20_0000, m / 512, 65536);
        lemma_div_is_ordered(m / 512, 0x3f_ffff, 65536);
    }

    l_x = l_shr_pure(l_x, 9);
    let i = extract_h(l_x);
    l_x = l_shr_pure(l_x, 1);
    let a0 = extract_l(l_x);
    proof {
        lemma_low15(a0);
    }
    let a = a0 & 0x7fff;

    let i = crate::fixed::ops::sub_pure(i, 32) as usize;

    let mut l_y = l_deposit_h(tab_log2[i]);
    let tmp = crate::fixed::ops::sub_pure(tab_log2[i], tab_log2[i + 1]);
    l_y = l_msu_pure(l_y, tmp, a);

    (exponent, extract_h(l_y))
}

/// Compute `2^(exponent.fraction)`; `fraction` is a non-negative Q15 value
/// and `exponent` is typically in `0..=30`.
pub fn pow2(exponent: Word16, fraction: Word16) -> (r: Word32)
    requires
        fraction >= 0,
    ensures
        r == pow2_value(exponent as int, fraction as int),
{
    proof {
        lemma2_to64();
    }
    let mut l_x = l_deposit_l(fraction);
    l_x = l_shl_pure(l_x, 6);
    let i = extract_h(l_x) as usize;
    proof {
        lemma_div_is_ordered(0, fraction * 64, 65536);
        lemma_div_is_ordered(fraction * 64, 32767int * 64, 65536);
    }
    l_x = l_shr_pure(l_x, 1);
    proof {
        vstd::arithmetic::div_mod::lemma_div_multiples_vanish(fraction * 32, 2);
    }
    let a0 = extract_l(l_x);
    proof {
        lemma_low15(a0);
    }
    let a = a0 & 0x7fff;

    let mut l_x = l_deposit_h(TAB_POW2[i]);
    let tmp = crate::fixed::ops::sub_pure(TAB_POW2[i], TAB_POW2[i + 1]);
    l_x = l_msu_pure(l_x, tmp, a);

    let exp = crate::fixed::ops::sub_pure(30, exponent);
    l_shr_r_pure(l_x, exp)
}

} // verus!
