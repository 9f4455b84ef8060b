//! The TETRA/ETSI fixed-point "basic operators".
//!
//! Each operator states its exact result: the mathematically exact value of
//! the operation, clamped to the 16-bit ([`sat16`]) or 32-bit ([`sat32`])
//! range. Shifts by a negative count shift the other way, and right shifts
//! are floor divisions by a power of two.
//!
//! The operators that can clamp take the overflow flag as their last
//! argument and state what they do to it: the 16-bit operators built on
//! [`sature`] raise it when they clamp and clear it when they do not; the
//! 32-bit ones and the shifts raise it when they clamp and leave it as it
//! was otherwise. Each has a flag-free twin, `*_pure`, computing the same
//! value, for the codec's own arithmetic where the flag is never read.

use super::overflow::OverflowFlag;
use super::shift_facts::{
    lemma_floor_div_between, lemma_floor_div_twice, lemma_mul_pow2_zero, lemma_pow2_le,
    lemma_pow2_mul_grows, lemma_shr_is_floor_div,
};
use super::{Word16, Word32, MAX_16, MAX_32, MIN_16, MIN_32};
use vstd::arithmetic::div_mod::lemma_fundamental_div_mod_converse;
use vstd::arithmetic::power2::{lemma2_to64, lemma_pow2_pos, lemma_pow2_unfold, pow2};
use vstd::prelude::*;

verus! {

/// Clamp an integer to the 16-bit range.
pub open spec fn sat16(x: int) -> int {
    if x > 32767 {
        32767
    } else if x < -32768 {
        -32768
    } else {
        x
    }
}

/// Clamp an integer to the 32-bit range.
pub open spec fn sat32(x: int) -> int {
    if x > 0x7fff_ffff {
        0x7fff_ffff
    } else if x < -0x8000_0000 {
        -0x8000_0000
    } else {
        x
    }
}

/// Whether `x` lies outside the 16-bit range (a 16-bit operator saturates).
pub open spec fn out16(x: int) -> bool {
    x > 32767 || x < -32768
}

/// Whether `x` lies outside the 32-bit range (a 32-bit operator saturates).
pub open spec fn out32(x: int) -> bool {
    x > 0x7fff_ffff || x < -0x8000_0000
}

/// A shift of a 16-bit value by `n` places: left with saturation for
/// `n >= 0`, right (floor division by `2^-n`) otherwise.
pub open spec fn shift16(x: int, n: int) -> int {
    if n >= 0 {
        sat16(x * pow2(n as nat))
    } else {
        x / (pow2((-n) as nat) as int)
    }
}

/// A shift of a 32-bit value by `n` places: left with saturation for
/// `n >= 0`, right (floor division by `2^-n`) otherwise.
pub open spec fn shift32(x: int, n: int) -> int {
    if n >= 0 {
        sat32(x * pow2(n as nat))
    } else {
        x / (pow2((-n) as nat) as int)
    }
}

/// The 32-bit right shift with rounding to nearest (ties upward).
pub open spec fn shift32_round(x: int, n: int) -> int {
    if n > 31 {
        0
    } else if n <= 0 {
        shift32(x, -n)
    } else {
        (x + pow2((n - 1) as nat)) / (pow2(n as nat) as int)
    }
}

/// The magnitude that [`norm_s`] / [`norm_l`] normalise: `x` itself when
/// non-negative, its one's complement `-x - 1` otherwise.
pub open spec fn norm_magnitude(x: int) -> int {
    if x >= 0 {
        x
    } else {
        -x - 1
    }
}

/// Saturate a 32-bit value to the 16-bit range.
pub fn sature_pure(value: Word32) -> (r: Word16)
    ensures
        r == sat16(value as int),
{
    if value > MAX_16 as Word32 {
        MAX_16
    } else if value < MIN_16 as Word32 {
        MIN_16
    } else {
        value as Word16
    }
}

/// Absolute value; `abs_s(MIN_16) == MAX_16`.
pub fn abs_s(var1: Word16) -> (r: Word16)
    ensures
        r == sat16(if var1 < 0 { -var1 } else { var1 as int }),
{
    if var1 == MIN_16 {
        MAX_16
    } else if var1 < 0 {
        -var1
    } else {
        var1
    }
}

/// Saturating 16-bit addition.
pub fn add_pure(var1: Word16, var2: Word16) -> (r: Word16)
    ensures
        r == sat16(var1 + var2),
{
    sature_pure(var1 as Word32 + var2 as Word32)
}

/// Saturating 16-bit subtraction.
pub fn sub_pure(var1: Word16, var2: Word16) -> (r: Word16)
    ensures
        r == sat16(var1 - var2),
{
    sature_pure(var1 as Word32 - var2 as Word32)
}

/// Saturating 16-bit negation; `negate(MIN_16) == MAX_16`.
pub fn negate(var1: Word16) -> (r: Word16)
    ensures
        r == sat16(-var1),
{
    if var1 == MIN_16 {
        MAX_16
    } else {
        -var1
    }
}

/// The 16 most-significant bits of a 32-bit value: `floor(l_var1 / 2^16)`.
pub fn extract_h(l_var1: Word32) -> (r: Word16)
    ensures
        r == l_var1 / 65536,
{
    proof {
        assert((l_var1 >> 16u32) == l_var1 / 65536) by (bit_vector);
    }
    (l_var1 >> 16u32) as Word16
}

/// The 16 least-significant bits of a 32-bit value.
pub fn extract_l(l_var1: Word32) -> (r: Word16)
    ensures
        r == l_var1 as i16,
{
    l_var1 as Word16
}

/// Round the low half into the high half with saturation:
/// `floor(sat32(l_var1 + 2^15) / 2^16)`.
pub fn round_pure(l_var1: Word32) -> (r: Word16)
    ensures
        r == sat32(l_var1 + 0x8000) / 65536,
{
    extract_h(l_add_pure(l_var1, 0x0000_8000))
}

/// 16x16 -> 32 fractional multiply (product shifted left by one), with
/// `l_mult(MIN_16, MIN_16) == MAX_32`.
pub fn l_mult_pure(var1: Word16, var2: Word16) -> (r: Word32)
    ensures
        r == sat32(2 * var1 * var2),
{
    assert(-0x4000_0000 < var1 * var2 <= 0x4000_0000) by (nonlinear_arith);
    let product = (var1 as Word32) * (var2 as Word32);
    assert(2 * var1 * var2 == 2 * (var1 * var2)) by (nonlinear_arith);
    if product != 0x4000_0000 {
        product * 2
    } else {
        MAX_32
    }
}

/// 16x16 -> 32 multiply with no shift.
pub fn l_mult0(var1: Word16, var2: Word16) -> (r: Word32)
    ensures
        r == var1 * var2,
{
    assert(-0x4000_0000 < var1 * var2 <= 0x4000_0000) by (nonlinear_arith);
    (var1 as Word32) * (var2 as Word32)
}

/// Fractional 16x16 multiply: `sat16(floor(var1 * var2 / 2^15))`.
pub fn mult_pure(var1: Word16, var2: Word16) -> (r: Word16)
    ensures
        r == sat16((var1 * var2) / 32768),
{
    assert(-0x4000_0000 < var1 * var2 <= 0x4000_0000) by (nonlinear_arith);
    let product = (var1 as Word32) * (var2 as Word32);
    proof {
        lemma2_to64();
        lemma_shr_is_floor_div(product, 15);
    }
    sature_pure(product >> 15u32)
}

/// Fractional 16x16 multiply with rounding:
/// `sat16(floor((var1 * var2 + 2^14) / 2^15))`.
pub fn mult_r_pure(var1: Word16, var2: Word16) -> (r: Word16)
    ensures
        r == sat16((var1 * var2 + 0x4000) / 32768),
{
    assert(-0x4000_0000 < var1 * var2 <= 0x4000_0000) by (nonlinear_arith);
    let product = (var1 as Word32) * (var2 as Word32) + 0x0000_4000;
    proof {
        lemma2_to64();
        lemma_shr_is_floor_div(product, 15);
    }
    sature_pure(product >> 15u32)
}

/// Saturating 32-bit addition.
pub fn l_add_pure(l_var1: Word32, l_var2: Word32) -> (r: Word32)
    ensures
        r == sat32(l_var1 + l_var2),
{
    let sum = l_var1 as i64 + l_var2 as i64;
    if sum > MAX_32 as i64 {
        MAX_32
    } else if sum < MIN_32 as i64 {
        MIN_32
    } else {
        sum as Word32
    }
}

/// Saturating 32-bit subtraction.
pub fn l_sub_pure(l_var1: Word32, l_var2: Word32) -> (r: Word32)
    ensures
        r == sat32(l_var1 - l_var2),
{
    let diff = l_var1 as i64 - l_var2 as i64;
    if diff > MAX_32 as i64 {
        MAX_32
    } else if diff < MIN_32 as i64 {
        MIN_32
    } else {
        diff as Word32
    }
}

/// Multiply-accumulate: `l_add(l_var3, l_mult(var1, var2))`.
pub fn l_mac_pure(l_var3: Word32, var1: Word16, var2: Word16) -> (r: Word32)
    ensures
        r == sat32(l_var3 + sat32(2 * var1 * var2)),
{
    l_add_pure(l_var3, l_mult_pure(var1, var2))
}

/// Multiply-accumulate with no shift: `sat32(l_var3 + var1 * var2)`.
pub fn l_mac0_pure(l_var3: Word32, var1: Word16, var2: Word16) -> (r: Word32)
    ensures
        r == sat32(l_var3 + var1 * var2),
{
    l_add_pure(l_var3, l_mult0(var1, var2))
}

/// Multiply-subtract: `l_sub(l_var3, l_mult(var1, var2))`.
pub fn l_msu_pure(l_var3: Word32, var1: Word16, var2: Word16) -> (r: Word32)
    ensures
        r == sat32(l_var3 - sat32(2 * var1 * var2)),
{
    l_sub_pure(l_var3, l_mult_pure(var1, var2))
}

/// Multiply-subtract with no shift: `sat32(l_var3 - var1 * var2)`.
pub fn l_msu0_pure(l_var3: Word32, var1: Word16, var2: Word16) -> (r: Word32)
    ensures
        r == sat32(l_var3 - var1 * var2),
{
    l_sub_pure(l_var3, l_mult0(var1, var2))
}

/// Multiply-accumulate with no shift, `sat32(l_var3 + var1 * var2)`; the
/// flag is raised when it clamps and left as it was otherwise.
pub fn l_mac0(l_var3: Word32, var1: Word16, var2: Word16, flag: &mut OverflowFlag) -> (r:
    Word32)
    ensures
        r == sat32(l_var3 + var1 * var2),
        final(flag).raised == (old(flag).raised || out32(l_var3 + var1 * var2)),
{
    let p = l_mult0(var1, var2);
    let sum = l_var3 as i64 + p as i64;
    if sum > MAX_32 as i64 || sum < MIN_32 as i64 {
        flag.raised = true;
    }
    l_add_pure(l_var3, p)
}

/// Saturate a 32-bit value to the 16-bit range. The flag records whether
/// this operator clamped: it is raised when it does and cleared when it
/// does not (as for every operator built on it: [`add`], [`sub`],
/// [`mult`], [`mult_r`]).
pub fn sature(value: Word32, flag: &mut OverflowFlag) -> (r: Word16)
    ensures
        r == sat16(value as int),
        final(flag).raised == out16(value as int),
{
    flag.raised = value > MAX_16 as Word32 || value < MIN_16 as Word32;
    sature_pure(value)
}

/// Saturating 16-bit addition; the flag tells whether it clamped.
pub fn add(var1: Word16, var2: Word16, flag: &mut OverflowFlag) -> (r: Word16)
    ensures
        r == sat16(var1 + var2),
        final(flag).raised == out16(var1 + var2),
{
    sature(var1 as Word32 + var2 as Word32, flag)
}

/// Saturating 16-bit subtraction; the flag tells whether it clamped.
pub fn sub(var1: Word16, var2: Word16, flag: &mut OverflowFlag) -> (r: Word16)
    ensures
        r == sat16(var1 - var2),
        final(flag).raised == out16(var1 - var2),
{
    sature(var1 as Word32 - var2 as Word32, flag)
}

/// Fractional 16x16 multiply, `sat16(floor(var1 * var2 / 2^15))`; the
/// flag tells whether it clamped (only for `MIN_16 * MIN_16`).
pub fn mult(var1: Word16, var2: Word16, flag: &mut OverflowFlag) -> (r: Word16)
    ensures
        r == sat16((var1 * var2) / 32768),
        final(flag).raised == out16((var1 * var2) / 32768),
{
    assert(-0x4000_0000 < var1 * var2 <= 0x4000_0000) by (nonlinear_arith);
    let product = (var1 as Word32) * (var2 as Word32);
    proof {
        lemma2_to64();
        lemma_shr_is_floor_div(product, 15);
    }
    sature(product >> 15u32, flag)
}

/// Fractional 16x16 multiply with rounding,
/// `sat16(floor((var1 * var2 + 2^14) / 2^15))`; the flag tells whether it
/// clamped.
pub fn mult_r(var1: Word16, var2: Word16, flag: &mut OverflowFlag) -> (r: Word16)
    ensures
        r == sat16((var1 * var2 + 0x4000) / 32768),
        final(flag).raised == out16((var1 * var2 + 0x4000) / 32768),
{
    assert(-0x4000_0000 < var1 * var2 <= 0x4000_0000) by (nonlinear_arith);
    let product = (var1 as Word32) * (var2 as Word32) + 0x0000_4000;
    proof {
        lemma2_to64();
        lemma_shr_is_floor_div(product, 15);
    }
    sature(product >> 15u32, flag)
}

/// Saturating 32-bit addition; the flag is raised when it clamps and left
/// as it was otherwise.
pub fn l_add(l_var1: Word32, l_var2: Word32, flag: &mut OverflowFlag) -> (r: Word32)
    ensures
        r == sat32(l_var1 + l_var2),
        final(flag).raised == (old(flag).raised || out32(l_var1 + l_var2)),
{
    let sum = l_var1 as i64 + l_var2 as i64;
    if sum > MAX_32 as i64 || sum < MIN_32 as i64 {
        flag.raised = true;
    }
    l_add_pure(l_var1, l_var2)
}

/// Saturating 32-bit subtraction; the flag is raised when it clamps and
/// left as it was otherwise.
pub fn l_sub(l_var1: Word32, l_var2: Word32, flag: &mut OverflowFlag) -> (r: Word32)
    ensures
        r == sat32(l_var1 - l_var2),
        final(flag).raised == (old(flag).raised || out32(l_var1 - l_var2)),
{
    let diff = l_var1 as i64 - l_var2 as i64;
    if diff > MAX_32 as i64 || diff < MIN_32 as i64 {
        flag.raised = true;
    }
    l_sub_pure(l_var1, l_var2)
}

/// Round the low half into the high half with saturation (see
/// [`round_pure`]); the flag is raised when the rounding addition clamps.
pub fn round_(l_var1: Word32, flag: &mut OverflowFlag) -> (r: Word16)
    ensures
        r == sat32(l_var1 + 0x8000) / 65536,
        final(flag).raised == (old(flag).raised || out32(l_var1 + 0x8000)),
{
    extract_h(l_add(l_var1, 0x0000_8000, flag))
}

/// 16x16 -> 32 fractional multiply; the flag is raised when it clamps
/// (only for `MIN_16 * MIN_16`) and left as it was otherwise.
pub fn l_mult(var1: Word16, var2: Word16, flag: &mut OverflowFlag) -> (r: Word32)
    ensures
        r == sat32(2 * var1 * var2),
        final(flag).raised == (old(flag).raised || out32(2 * var1 * var2)),
{
    assert(-0x4000_0000 < var1 * var2 <= 0x4000_0000) by (nonlinear_arith);
    assert(2 * var1 * var2 == 2 * (var1 * var2)) by (nonlinear_arith);
    if (var1 as Word32) * (var2 as Word32) == 0x4000_0000 {
        flag.raised = true;
    }
    l_mult_pure(var1, var2)
}

/// Multiply-accumulate `l_add(l_var3, l_mult(var1, var2))`; the flag is
/// raised when either step clamps.
pub fn l_mac(l_var3: Word32, var1: Word16, var2: Word16, flag: &mut OverflowFlag) -> (r: Word32)
    ensures
        r == sat32(l_var3 + sat32(2 * var1 * var2)),
        final(flag).raised == (old(flag).raised || out32(2 * var1 * var2) || out32(
            l_var3 + sat32(2 * var1 * var2),
        )),
{
    let p = l_mult(var1, var2, flag);
    l_add(l_var3, p, flag)
}

/// Multiply-subtract `l_sub(l_var3, l_mult(var1, var2))`; the flag is
/// raised when either step clamps.
pub fn l_msu(l_var3: Word32, var1: Word16, var2: Word16, flag: &mut OverflowFlag) -> (r: Word32)
    ensures
        r == sat32(l_var3 - sat32(2 * var1 * var2)),
        final(flag).raised == (old(flag).raised || out32(2 * var1 * var2) || out32(
            l_var3 - sat32(2 * var1 * var2),
        )),
{
    let p = l_mult(var1, var2, flag);
    l_sub(l_var3, p, flag)
}

/// Multiply-subtract with no shift, `sat32(l_var3 - var1 * var2)`; the
/// flag is raised when it clamps.
pub fn l_msu0(l_var3: Word32, var1: Word16, var2: Word16, flag: &mut OverflowFlag) -> (r: Word32)
    ensures
        r == sat32(l_var3 - var1 * var2),
        final(flag).raised == (old(flag).raised || out32(l_var3 - var1 * var2)),
{
    l_sub(l_var3, l_mult0(var1, var2), flag)
}

/// Arithmetic left shift of a 16-bit value with saturation (a negative
/// count shifts right); the flag is raised when a left shift clamps.
pub fn shl(var1: Word16, var2: Word16, flag: &mut OverflowFlag) -> (r: Word16)
    requires
        var2 != MIN_16,
    ensures
        r == shift16(var1 as int, var2 as int),
        final(flag).raised == (old(flag).raised || (var2 >= 0 && out16(var1 * pow2(var2 as nat)))),
{
    proof {
        lemma_mul_pow2_zero(var1 as int);
    }
    if var2 < 0 {
        shr16_nonneg(var1, -var2)
    } else {
        let (r, clamped) = shl16_nonneg(var1, var2);
        if clamped {
            flag.raised = true;
        }
        r
    }
}

/// Arithmetic right shift of a 16-bit value (a negative count shifts
/// left); the flag is raised when a left shift clamps.
pub fn shr(var1: Word16, var2: Word16, flag: &mut OverflowFlag) -> (r: Word16)
    requires
        var2 != MIN_16,
    ensures
        r == shift16(var1 as int, -var2),
        final(flag).raised == (old(flag).raised || (var2 < 0 && out16(var1 * pow2((-var2) as nat)))),
{
    proof {
        lemma_mul_pow2_zero(var1 as int);
    }
    if var2 < 0 {
        let (r, clamped) = shl16_nonneg(var1, -var2);
        if clamped {
            flag.raised = true;
        }
        r
    } else {
        shr16_nonneg(var1, var2)
    }
}

/// Arithmetic left shift of a 32-bit value with saturation (a negative
/// count shifts right); the flag is raised when a left shift clamps.
pub fn l_shl(l_var1: Word32, var2: Word16, flag: &mut OverflowFlag) -> (r: Word32)
    requires
        var2 != MIN_16,
    ensures
        r == shift32(l_var1 as int, var2 as int),
        final(flag).raised == (old(flag).raised || (var2 > 0 && out32(l_var1 * pow2(var2 as nat)))),
{
    if var2 <= 0 {
        l_shl_pure(l_var1, var2)
    } else {
        let (r, clamped) = shl32_nonneg(l_var1, var2);
        if clamped {
            flag.raised = true;
        }
        r
    }
}

/// Arithmetic right shift of a 32-bit value (a negative count shifts
/// left); the flag is raised when a left shift clamps.
pub fn l_shr(l_var1: Word32, var2: Word16, flag: &mut OverflowFlag) -> (r: Word32)
    requires
        var2 != MIN_16,
    ensures
        r == shift32(l_var1 as int, -var2),
        final(flag).raised == (old(flag).raised || (var2 < 0 && out32(l_var1 * pow2((-var2) as nat)))),
{
    if var2 < 0 {
        let (r, clamped) = shl32_nonneg(l_var1, -var2);
        if clamped {
            flag.raised = true;
        }
        r
    } else {
        l_shr_pure(l_var1, var2)
    }
}

/// Arithmetic right shift of a 32-bit value with rounding to nearest (a
/// negative count shifts left); the flag is raised when a left shift
/// clamps.
pub fn l_shr_r(l_var1: Word32, var2: Word16, flag: &mut OverflowFlag) -> (r: Word32)
    requires
        var2 != MIN_16,
    ensures
        r == shift32_round(l_var1 as int, var2 as int),
        final(flag).raised == (old(flag).raised || (var2 < 0 && out32(l_var1 * pow2((-var2) as nat)))),
{
    if var2 < 0 {
        l_shr(l_var1, var2, flag)
    } else {
        l_shr_r_pure(l_var1, var2)
    }
}

/// Fractional division `var1 / var2` in Q15, `0 <= var1 <= var2`. The
/// quotient bits are accumulated with [`add`], which never clamps here, so
/// the flag ends cleared whenever a bit is accumulated (`0 < var1 < var2`)
/// and is left as it was otherwise.
pub fn div_s(var1: Word16, var2: Word16, flag: &mut OverflowFlag) -> (r: Word16)
    requires
        0 <= var1 <= var2,
        var2 > 0,
    ensures
        var1 == var2 ==> r == MAX_16,
        var1 < var2 ==> r == (var1 * 32768) / (var2 as int),
        final(flag).raised == (if var1 == 0 || var1 == var2 { old(flag).raised } else { false }),
{
    if var1 != 0 && var1 != var2 {
        flag.raised = false;
    }
    div_s_pure(var1, var2)
}

/// Deposit a 16-bit value into the high half of a 32-bit word.
pub fn l_deposit_h(var1: Word16) -> (r: Word32)
    ensures
        r == var1 * 65536,
{
    (var1 as Word32) * 65536
}

/// Deposit a 16-bit value into the low half of a 32-bit word (sign extended).
pub fn l_deposit_l(var1: Word16) -> (r: Word32)
    ensures
        r == var1,
{
    var1 as Word32
}

/// Saturating 32-bit negation; `l_negate(MIN_32) == MAX_32`.
pub fn l_negate(l_var1: Word32) -> (r: Word32)
    ensures
        r == sat32(-l_var1),
{
    if l_var1 == MIN_32 {
        MAX_32
    } else {
        -l_var1
    }
}

/// 32-bit absolute value; `l_abs(MIN_32) == MAX_32`.
pub fn l_abs(l_var1: Word32) -> (r: Word32)
    ensures
        r == sat32(if l_var1 < 0 { -l_var1 } else { l_var1 as int }),
{
    if l_var1 == MIN_32 {
        MAX_32
    } else if l_var1 < 0 {
        -l_var1
    } else {
        l_var1
    }
}

/// `2^k` as a 32-bit integer.
fn pow2_i32(k: u32) -> (r: i32)
    requires
        k <= 30,
    ensures
        r == pow2(k as nat),
        r > 0,
{
    proof {
        lemma2_to64();
        vstd::arithmetic::power2::lemma_pow2_strictly_increases(k as nat, 31);
        vstd::bits::lemma_u32_shl_is_mul(1u32, k);
    }
    (1u32 << k) as i32
}

/// Floor division of a 16-bit value by `2^k`, `k >= 0`.
fn shr16_nonneg(var1: Word16, k: Word16) -> (r: Word16)
    requires
        k >= 0,
    ensures
        r == (var1 as int) / (pow2(k as nat) as int),
{
    proof {
        lemma2_to64();
    }
    if k >= 15 {
        proof {
            lemma_pow2_le(15, k as nat);
            lemma_floor_small(var1 as int, pow2(k as nat) as int);
        }
        if var1 < 0 {
            -1
        } else {
            0
        }
    } else {
        proof {
            lemma_shr_is_floor_div(var1 as i32, k as u32);
            lemma_pow2_pos(k as nat);
            lemma_floor_div_between(var1 as int, pow2(k as nat) as int);
        }
        ((var1 as Word32) >> (k as u32)) as Word16
    }
}

/// `x / d` is `-1` or `0` when `|x| <= d`, by sign.
proof fn lemma_floor_small(x: int, d: int)
    requires
        d > 0,
        -d <= x < d,
    ensures
        x / d == if x < 0 { -1int } else { 0int },
{
    if x < 0 {
        lemma_fundamental_div_mod_converse(x, d, -1, x + d);
    } else {
        lemma_fundamental_div_mod_converse(x, d, 0, x);
    }
}

/// Saturating left shift of a 16-bit value by `k >= 0` places.
fn shl16_nonneg(var1: Word16, k: Word16) -> (r: (Word16, bool))
    requires
        k >= 0,
    ensures
        r.0 == sat16(var1 * pow2(k as nat)),
        r.1 == out16(var1 * pow2(k as nat)),
{
    proof {
        lemma2_to64();
    }
    if k > 15 {
        proof {
            lemma_pow2_pos(k as nat);
            lemma_pow2_le(16, k as nat);
            if var1 == 0 {
                assert(var1 * pow2(k as nat) == 0);
            }
            if var1 > 0 {
                lemma_pow2_mul_grows(var1 as int, 16, k as nat);
                assert(var1 * pow2(16) >= 65536) by (nonlinear_arith)
                    requires
                        var1 >= 1,
                        pow2(16) == 65536,
                ;
            } else if var1 < 0 {
                lemma_pow2_mul_grows(-var1, 16, k as nat);
                assert((-var1) * pow2(16) >= 65536) by (nonlinear_arith)
                    requires
                        var1 <= -1,
                        pow2(16) == 65536,
                ;
                assert(var1 * pow2(k as nat) == -((-var1) * pow2(k as nat))) by (nonlinear_arith);
            }
        }
        if var1 != 0 {
            if var1 > 0 {
                (MAX_16, true)
            } else {
                (MIN_16, true)
            }
        } else {
            (0, false)
        }
    } else {
        let factor = pow2_i32(k as u32);
        proof {
            lemma_pow2_le(k as nat, 15);
        }
        assert(-0x4000_0000 <= var1 * factor <= 0x4000_0000) by (nonlinear_arith)
            requires
                -32768 <= var1 <= 32767,
                0 < factor <= 32768,
        ;
        let result = (var1 as Word32) * factor;
        assert((var1 > 0 ==> result > 0) && (var1 <= 0 ==> result <= 0)) by (nonlinear_arith)
            requires
                result == var1 * factor,
                factor > 0,
        ;
        if result > MAX_16 as Word32 || result < MIN_16 as Word32 {
            if var1 > 0 {
                (MAX_16, true)
            } else {
                (MIN_16, true)
            }
        } else {
            (result as Word16, false)
        }
    }
}

/// Arithmetic left shift of a 16-bit value with saturation; a negative count
/// shifts right.
pub fn shl_pure(var1: Word16, var2: Word16) -> (r: Word16)
    requires
        var2 != MIN_16,
    ensures
        r == shift16(var1 as int, var2 as int),
{
    proof {
        lemma_mul_pow2_zero(var1 as int);
    }
    if var2 < 0 {
        shr16_nonneg(var1, -var2)
    } else {
        shl16_nonneg(var1, var2).0
    }
}

/// Arithmetic right shift of a 16-bit value with sign extension; a negative
/// count shifts left.
pub fn shr_pure(var1: Word16, var2: Word16) -> (r: Word16)
    requires
        var2 != MIN_16,
    ensures
        r == shift16(var1 as int, -var2),
{
    proof {
        lemma_mul_pow2_zero(var1 as int);
    }
    if var2 < 0 {
        shl16_nonneg(var1, -var2).0
    } else {
        shr16_nonneg(var1, var2)
    }
}

/// Floor division of a 32-bit value by `2^k`, `k >= 0`.
fn shr32_nonneg(l_var1: Word32, k: Word16) -> (r: Word32)
    requires
        k >= 0,
    ensures
        r == (l_var1 as int) / (pow2(k as nat) as int),
{
    proof {
        lemma2_to64();
    }
    if k >= 31 {
        proof {
            lemma_pow2_le(31, k as nat);
            lemma_floor_small(l_var1 as int, pow2(k as nat) as int);
        }
        if l_var1 < 0 {
            -1
        } else {
            0
        }
    } else {
        proof {
            lemma_shr_is_floor_div(l_var1, k as u32);
        }
        l_var1 >> (k as u32)
    }
}

/// Saturating left shift of a 32-bit value by `k >= 0` places.
fn shl32_nonneg(l_var1: Word32, k: Word16) -> (r: (Word32, bool))
    requires
        k >= 0,
    ensures
        r.0 == sat32(l_var1 * pow2(k as nat)),
        r.1 == out32(l_var1 * pow2(k as nat)),
{
    proof {
        lemma2_to64();
    }
    let mut value = l_var1;
    let mut i: Word16 = 0;
    proof {
        lemma_mul_pow2_zero(l_var1 as int);
    }
    while i < k
        invariant
            0 <= i <= k,
            value == l_var1 * pow2(i as nat),
        decreases k - i,
    {
        if value > 0x3fff_ffff {
            proof {
                lemma_pow2_pos(i as nat);
                assert(l_var1 > 0) by (nonlinear_arith)
                    requires
                        value == l_var1 * pow2(i as nat),
                        value > 0,
                        pow2(i as nat) > 0,
                ;
                lemma_pow2_unfold((i + 1) as nat);
                lemma_pow2_mul_grows(l_var1 as int, (i + 1) as nat, k as nat);
                assert(l_var1 * pow2((i + 1) as nat) == 2 * value) by (nonlinear_arith)
                    requires
                        value == l_var1 * pow2(i as nat),
                        pow2((i + 1) as nat) == 2 * pow2(i as nat),
                ;
            }
            return (MAX_32, true);
        }
        if value < -0x4000_0000 {
            proof {
                lemma_pow2_pos(i as nat);
                assert(l_var1 < 0) by (nonlinear_arith)
                    requires
                        value == l_var1 * pow2(i as nat),
                        value < 0,
                        pow2(i as nat) > 0,
                ;
                lemma_pow2_unfold((i + 1) as nat);
                lemma_pow2_mul_grows(-l_var1, (i + 1) as nat, k as nat);
                assert(l_var1 * pow2((i + 1) as nat) == 2 * value) by (nonlinear_arith)
                    requires
                        value == l_var1 * pow2(i as nat),
                        pow2((i + 1) as nat) == 2 * pow2(i as nat),
                ;
                assert(l_var1 * pow2(k as nat) == -((-l_var1) * pow2(k as nat))) by (
                nonlinear_arith);
                assert((-l_var1) * pow2((i + 1) as nat) == -(l_var1 * pow2((i + 1) as nat))) by (
                nonlinear_arith);
            }
            return (MIN_32, true);
        }
        proof {
            lemma_pow2_unfold((i + 1) as nat);
            assert(value * 2 == l_var1 * pow2((i + 1) as nat)) by (nonlinear_arith)
                requires
                    value == l_var1 * pow2(i as nat),
                    pow2((i + 1) as nat) == 2 * pow2(i as nat),
            ;
        }
        value = value * 2;
        i = i + 1;
    }
    (value, false)
}

/// Arithmetic left shift of a 32-bit value with saturation; a negative count
/// shifts right.
pub fn l_shl_pure(l_var1: Word32, var2: Word16) -> (r: Word32)
    requires
        var2 != MIN_16,
    ensures
        r == shift32(l_var1 as int, var2 as int),
{
    if var2 <= 0 {
        proof {
            lemma2_to64();
        }
        let r = shr32_nonneg(l_var1, -var2);
        proof {
            lemma_mul_pow2_zero(l_var1 as int);
        }
        r
    } else {
        shl32_nonneg(l_var1, var2).0
    }
}

/// Arithmetic right shift of a 32-bit value with sign extension; a negative
/// count shifts left.
pub fn l_shr_pure(l_var1: Word32, var2: Word16) -> (r: Word32)
    requires
        var2 != MIN_16,
    ensures
        r == shift32(l_var1 as int, -var2),
{
    if var2 < 0 {
        shl32_nonneg(l_var1, -var2).0
    } else {
        let r = shr32_nonneg(l_var1, var2);
        proof {
            lemma_mul_pow2_zero(l_var1 as int);
        }
        r
    }
}

/// Arithmetic right shift of a 32-bit value with rounding to nearest.
pub fn l_shr_r_pure(l_var1: Word32, var2: Word16) -> (r: Word32)
    requires
        var2 != MIN_16,
    ensures
        r == shift32_round(l_var1 as int, var2 as int),
{
    if var2 > 31 {
        return 0;
    }
    let result = l_shr_pure(l_var1, var2);
    if var2 > 0 {
        // The rounding bit is bit `var2 - 1` of `l_var1`: the difference
        // between the value shifted by one place less and twice `result`.
        let half = l_shr_pure(l_var1, var2 - 1);
        proof {
            let n = var2 as nat;
            let m = (var2 - 1) as nat;
            lemma_pow2_pos(m);
            lemma_pow2_unfold(n);
            lemma_mul_pow2_zero(l_var1 as int);
            lemma_floor_div_twice(l_var1 as int, pow2(m) as int, 2);
            assert(pow2(m) * 2 == pow2(n));
            lemma_round_bit(l_var1 as int, pow2(m) as int);
            assert(result == half / 2);
            assert(2 * result <= half <= 2 * result + 1);
        }
        result + (half - 2 * result)
    } else {
        result
    }
}

/// Rounding by the next lower bit: with `p > 0`,
/// `floor(x / p) - floor(x / 2p) == floor((x + p) / 2p)`.
proof fn lemma_round_bit(x: int, p: int)
    requires
        p > 0,
    ensures
        (x / p) - (x / p) / 2 == (x + p) / (2 * p),
        0 <= (x / p) - 2 * ((x / p) / 2) <= 1,
{
    let q = x / p;
    let r = x % p;
    vstd::arithmetic::div_mod::lemma_fundamental_div_mod(x, p);
    let qq = q / 2;
    let b = q % 2;
    vstd::arithmetic::div_mod::lemma_fundamental_div_mod(q, 2);
    assert(x + p == (2 * p) * (qq + b) + (r + p - b * p) && 0 <= r + p - b * p < 2 * p) by (
    nonlinear_arith)
        requires
            x == p * q + r,
            q == 2 * qq + b,
            0 <= r < p,
            0 <= b < 2,
            p > 0,
    ;
    lemma_fundamental_div_mod_converse(x + p, 2 * p, qq + b, r + p - b * p);
}

/// Number of left shifts that normalise a 16-bit value into
/// `[0x4000, 0x7FFF]` (or its negative counterpart); 0 for 0, 15 for -1.
pub fn norm_s(var1: Word16) -> (r: Word16)
    ensures
        var1 == 0 ==> r == 0,
        var1 == -1 ==> r == 15,
        var1 != 0 && var1 != -1 ==> 0 <= r <= 14 && 0x4000 <= norm_magnitude(var1 as int) * pow2(
            r as nat,
        ) < 0x8000,
{
    proof {
        lemma2_to64();
    }
    if var1 == 0 {
        0
    } else if var1 == -1 {
        15
    } else {
        let mut value: Word16 = if var1 < 0 {
            -(var1 + 1)
        } else {
            var1
        };
        let mut count: Word16 = 0;
        proof {
            lemma_mul_pow2_zero(norm_magnitude(var1 as int));
            assert(value * pow2(14) >= 0x4000) by (nonlinear_arith)
                requires
                    value >= 1,
                    pow2(14) == 0x4000,
            ;
        }
        while value < 0x4000
            invariant
                1 <= value <= 0x7fff,
                0 <= count <= 14,
                value == norm_magnitude(var1 as int) * pow2(count as nat),
                value * pow2((14 - count) as nat) >= 0x4000,
            decreases 14 - count,
        {
            proof {
                lemma2_to64();
                lemma_double_step(norm_magnitude(var1 as int), value as int, count as nat, 14);
            }
            value = value * 2;
            count = count + 1;
        }
        count
    }
}

/// One normalisation step: doubling `value = m * 2^count` gives
/// `m * 2^(count + 1)`, and the distance to the target exponent shrinks by
/// one while still below the target.
proof fn lemma_double_step(m: int, value: int, count: nat, top: nat)
    requires
        value == m * pow2(count),
        count <= top,
        value * pow2((top - count) as nat) >= pow2(top),
        value < pow2(top),
        value >= 1,
    ensures
        count < top,
        value * 2 == m * pow2(count + 1),
        (value * 2) * pow2((top - (count + 1)) as nat) == value * pow2((top - count) as nat),
{
    lemma_pow2_unfold(count + 1);
    assert(value * 2 == m * pow2(count + 1)) by (nonlinear_arith)
        requires
            value == m * pow2(count),
            pow2(count + 1) == 2 * pow2(count),
    ;
    if count == top {
        lemma_mul_pow2_zero(value);
    }
    let e = (top - (count + 1)) as nat;
    lemma_pow2_unfold(e + 1);
    assert((value * 2) * pow2(e) == value * pow2(e + 1)) by (nonlinear_arith)
        requires
            pow2(e + 1) == 2 * pow2(e),
    ;
}

/// Number of left shifts that normalise a 32-bit value into
/// `[0x4000_0000, 0x7FFF_FFFF]` (or its negative counterpart); 0 for 0,
/// 31 for -1.
pub fn norm_l(l_var1: Word32) -> (r: Word16)
    ensures
        l_var1 == 0 ==> r == 0,
        l_var1 == -1 ==> r == 31,
        l_var1 != 0 && l_var1 != -1 ==> 0 <= r <= 30 && 0x4000_0000 <= norm_magnitude(
            l_var1 as int,
        ) * pow2(r as nat) < 0x8000_0000,
{
    proof {
        lemma2_to64();
    }
    if l_var1 == 0 {
        0
    } else if l_var1 == -1 {
        31
    } else {
        let mut value: Word32 = if l_var1 < 0 {
            -(l_var1 + 1)
        } else {
            l_var1
        };
        let mut count: Word16 = 0;
        proof {
            lemma_mul_pow2_zero(norm_magnitude(l_var1 as int));
            assert(value * pow2(30) >= 0x4000_0000) by (nonlinear_arith)
                requires
                    value >= 1,
                    pow2(30) == 0x4000_0000,
            ;
        }
        while value < 0x4000_0000
            invariant
                1 <= value <= 0x7fff_ffff,
                0 <= count <= 30,
                value == norm_magnitude(l_var1 as int) * pow2(count as nat),
                value * pow2((30 - count) as nat) >= 0x4000_0000,
            decreases 30 - count,
        {
            proof {
                lemma2_to64();
                lemma_double_step(norm_magnitude(l_var1 as int), value as int, count as nat, 30);
            }
            value = value * 2;
            count = count + 1;
        }
        count
    }
}

/// Fractional division `var1 / var2` in Q15: `floor(var1 * 2^15 / var2)`,
/// with `var1 == var2` giving `MAX_16`.
pub fn div_s_pure(var1: Word16, var2: Word16) -> (r: Word16)
    requires
        0 <= var1 <= var2,
        var2 > 0,
    ensures
        var1 == var2 ==> r == MAX_16,
        var1 < var2 ==> r == (var1 * 32768) / (var2 as int),
{
    if var1 == 0 {
        assert(0int / (var2 as int) == 0) by (nonlinear_arith)
            requires
                var2 > 0,
        ;
        0
    } else if var1 == var2 {
        MAX_16
    } else {
        proof {
            lemma2_to64();
        }
        let mut numerator = l_deposit_l(var1);
        let denominator = l_deposit_l(var2);
        let mut quotient: Word16 = 0;
        let mut i: u32 = 0;
        proof {
            lemma_mul_pow2_zero(var1 as int);
        }
        while i < 15
            invariant
                0 <= i <= 15,
                0 <= numerator < denominator,
                denominator == var2,
                0 < var1 < var2,
                0 <= quotient < pow2(i as nat),
                (var1 * pow2(i as nat)) == quotient * var2 + numerator,
            decreases 15 - i,
        {
            proof {
                lemma2_to64();
                lemma_pow2_unfold((i + 1) as nat);
                lemma_pow2_le(i as nat, 14);
            }
            let ghost q0 = quotient;
            let ghost n0 = numerator;
            quotient = quotient * 2;
            numerator = numerator * 2;
            if numerator >= denominator {
                numerator = l_sub_pure(numerator, denominator);
                quotient = self::add_pure(quotient, 1);
            }
            proof {
                assert(var1 * pow2((i + 1) as nat) == quotient * var2 + numerator) by (
                nonlinear_arith)
                    requires
                        var1 * pow2(i as nat) == q0 * var2 + n0,
                        pow2((i + 1) as nat) == 2 * pow2(i as nat),
                        quotient == 2 * q0 || quotient == 2 * q0 + 1,
                        quotient == 2 * q0 ==> numerator == 2 * n0,
                        quotient == 2 * q0 + 1 ==> numerator == 2 * n0 - var2,
                ;
            }
            i = i + 1;
        }
        proof {
            lemma_fundamental_div_mod_converse(
                var1 * 32768,
                var2 as int,
                quotient as int,
                numerator as int,
            );
        }
        quotient
    }
}

} // verus!
