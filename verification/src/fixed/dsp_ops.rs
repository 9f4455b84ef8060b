//! Additional fixed-point helpers used across the codec: shifted
//! add/subtract, normalisation, bit packing. Each is built on the basic
//! operators and states its exact result.

use super::ops::{
    extract_l, l_mac_pure, l_mac0_pure, l_msu_pure, l_msu0_pure, l_shl_pure, l_shr_pure, norm_l, sat16, sat32, shift32, shl_pure, shr_pure,
    shift16,
};
use super::shift_facts::{lemma_mul_pow2_zero, lemma_pow2_le};
use super::{Word16, Word32};
use vstd::arithmetic::power2::{lemma2_to64, lemma_pow2_pos, lemma_pow2_unfold, pow2};
use vstd::prelude::*;

verus! {

/// `-(2^k)` for `k` in `0..=15`: folds a shift into a no-shift multiply.
fn neg_pow2(k: Word16) -> (r: Word16)
    requires
        0 <= k <= 15,
    ensures
        r == -pow2(k as nat),
{
    proof {
        lemma2_to64();
    }
    let table: [Word16; 16] = [
        -1,
        -2,
        -4,
        -8,
        -16,
        -32,
        -64,
        -128,
        -256,
        -512,
        -1024,
        -2048,
        -4096,
        -8192,
        -16384,
        -32768,
    ];
    table[k as usize]
}

/// Add `var1 * 2^shift` (shift in `0..=15`) to `l_var2` with saturation.
pub fn add_shifted(l_var2: Word32, var1: Word16, shift: Word16) -> (r: Word32)
    requires
        0 <= shift <= 15,
    ensures
        r == sat32(l_var2 + var1 * pow2(shift as nat)),
{
    let m = neg_pow2(shift);
    assert(l_var2 - var1 * m == l_var2 + var1 * pow2(shift as nat)) by (nonlinear_arith)
        requires
            m == -pow2(shift as nat),
    ;
    l_msu0_pure(l_var2, var1, m)
}

/// Add `var1 << 16` to `l_var2` with saturation; the shifted term itself is
/// saturated first (it is `2^31 - 1` for `var1 == MIN_16`).
pub fn add_high16(l_var2: Word32, var1: Word16) -> (r: Word32)
    ensures
        r == sat32(l_var2 - sat32(-65536 * var1)),
{
    assert(2 * var1 * -32768 == -65536 * var1) by (nonlinear_arith);
    l_msu_pure(l_var2, var1, -32768)
}

/// Subtract `var1 * 2^shift` (shift in `0..=15`) from `l_var2` with
/// saturation.
pub fn sub_shifted(l_var2: Word32, var1: Word16, shift: Word16) -> (r: Word32)
    requires
        0 <= shift <= 15,
    ensures
        r == sat32(l_var2 - var1 * pow2(shift as nat)),
{
    let m = neg_pow2(shift);
    assert(l_var2 + var1 * m == l_var2 - var1 * pow2(shift as nat)) by (nonlinear_arith)
        requires
            m == -pow2(shift as nat),
    ;
    l_mac0_pure(l_var2, var1, m)
}

/// Subtract `var1 << 16` from `l_var2` with saturation; the shifted term is
/// saturated first.
pub fn sub_high16(l_var2: Word32, var1: Word16) -> (r: Word32)
    ensures
        r == sat32(l_var2 + sat32(-65536 * var1)),
{
    assert(2 * var1 * -32768 == -65536 * var1) by (nonlinear_arith);
    l_mac_pure(l_var2, var1, -32768)
}

/// Load `var1 * 2^shift` (shift in `0..=15`) into a 32-bit word.
pub fn load_shifted(var1: Word16, shift: Word16) -> (r: Word32)
    requires
        0 <= shift <= 15,
    ensures
        r == var1 * pow2(shift as nat),
{
    proof {
        lemma2_to64();
        lemma_pow2_le(shift as nat, 15);
        assert(-0x4000_0000 <= var1 * pow2(shift as nat) <= 0x4000_0000) by (nonlinear_arith)
            requires
                -32768 <= var1 <= 32767,
                0 <= pow2(shift as nat) <= 32768,
        ;
    }
    add_shifted(0, var1, shift)
}

/// Load `var1 << 16` into a 32-bit word: `var1 * 2^16`, except that
/// `MIN_16` gives `-(2^31 - 1)`.
pub fn load_high16(var1: Word16) -> (r: Word32)
    ensures
        r == if var1 == -32768 { -0x7fff_ffff } else { var1 * 65536 },
{
    add_high16(0, var1)
}

/// The 16-bit word of `l_var1 * 2^var2 / 2^16` (var2 in `0..=7`), truncated.
pub fn store_high(l_var1: Word32, var2: Word16) -> (r: Word16)
    requires
        0 <= var2 <= 7,
    ensures
        r == ((l_var1 as int) / (pow2((16 - var2) as nat) as int)) as i16,
{
    let s: Word16 = 16 - var2;
    proof {
        lemma2_to64();
        lemma_pow2_pos(s as nat);
    }
    extract_l(l_shr_pure(l_var1, s))
}

/// Normalise `l_var3` by at most `max_shift` left shifts. Returns the
/// shifted value and the number of shifts: `min(norm_l(l_var3), max_shift)`.
pub fn normalize_capped(l_var3: Word32, max_shift: Word16) -> (r: (Word32, Word16))
    requires
        max_shift != -32768,
    ensures
        ({
            let n = norm_l_value(l_var3 as int);
            let s = if n > max_shift { max_shift as int } else { n };
            &&& r.1 == s
            &&& r.0 == shift32(l_var3 as int, s)
        }),
        max_shift >= 0 ==> 0 <= r.1 <= max_shift,
        0 <= norm_l_value(l_var3 as int) <= 31,
{
    let mut shift = norm_l(l_var3);
    proof {
        lemma_norm_l_value(l_var3, shift);
    }
    if super::ops::sub_pure(shift, max_shift) > 0 {
        shift = max_shift;
    }
    (l_shl_pure(l_var3, shift), shift)
}

/// The value [`norm_l`] returns, as a function: the shift that brings the
/// magnitude into `[2^30, 2^31)` (0 for 0, 31 for -1).
pub open spec fn norm_l_value(x: int) -> int
    recommends
        -0x8000_0000 <= x <= 0x7fff_ffff,
{
    if x == 0 {
        0
    } else if x == -1 {
        31
    } else {
        choose|r: int|
            0 <= r <= 30 && 0x4000_0000 <= super::ops::norm_magnitude(x) * #[trigger] pow2(r as nat)
                < 0x8000_0000
    }
}

/// The shift that normalises a value is unique, so [`norm_l`] returns
/// [`norm_l_value`].
pub proof fn lemma_norm_l_value(x: Word32, r: Word16)
    requires
        x == 0 ==> r == 0,
        x == -1 ==> r == 31,
        x != 0 && x != -1 ==> 0 <= r <= 30 && 0x4000_0000 <= super::ops::norm_magnitude(x as int)
            * pow2(r as nat) < 0x8000_0000,
    ensures
        norm_l_value(x as int) == r,
{
    if x != 0 && x != -1 {
        lemma2_to64();
        let m = super::ops::norm_magnitude(x as int);
        assert(0 <= r <= 30 && 0x4000_0000 <= m * pow2(r as nat) < 0x8000_0000);
        let c = choose|c: int|
            0 <= c <= 30 && 0x4000_0000 <= m * #[trigger] pow2(c as nat) < 0x8000_0000;
        lemma_normalising_shift_unique(m, c, r as int, 30);
    }
}

/// Two shifts that both bring `m >= 0` into `[2^top, 2^(top+1))` are equal.
pub proof fn lemma_normalising_shift_unique(m: int, a: int, b: int, top: nat)
    requires
        0 <= a <= top,
        0 <= b <= top,
        pow2(top) <= m * pow2(a as nat) < 2 * pow2(top),
        pow2(top) <= m * pow2(b as nat) < 2 * pow2(top),
    ensures
        a == b,
{
    lemma2_to64();
    if a < b {
        lemma_pow2_unfold((a + 1) as nat);
        lemma_pow2_le((a + 1) as nat, b as nat);
        lemma_pow2_pos(a as nat);
        assert(m * pow2(b as nat) >= 2 * (m * pow2(a as nat))) by (nonlinear_arith)
            requires
                pow2(b as nat) >= pow2((a + 1) as nat),
                pow2((a + 1) as nat) == 2 * pow2(a as nat),
                m * pow2(a as nat) >= pow2(top),
                pow2(top) > 0,
        {
            assert(m > 0) by (nonlinear_arith)
                requires
                    m * pow2(a as nat) >= pow2(top),
                    pow2(top) > 0,
                    pow2(a as nat) > 0,
            {
                lemma_pow2_pos(a as nat);
            }
        }
        lemma_pow2_pos(top);
    } else if b < a {
        lemma_pow2_unfold((b + 1) as nat);
        lemma_pow2_le((b + 1) as nat, a as nat);
        lemma_pow2_pos(b as nat);
        lemma_pow2_pos(top);
        assert(m * pow2(a as nat) >= 2 * (m * pow2(b as nat))) by (nonlinear_arith)
            requires
                pow2(a as nat) >= pow2((b + 1) as nat),
                pow2((b + 1) as nat) == 2 * pow2(b as nat),
                m * pow2(b as nat) >= pow2(top),
                pow2(top) > 0,
                pow2(b as nat) > 0,
        ;
    }
}

/// The integer read MSB-first from a sequence of bits, each bit counting as
/// one when it equals 1. Each doubling saturates at 16 bits, as the shift
/// used to read it does.
pub open spec fn bits_accumulate(bits: Seq<Word16>) -> int
    decreases bits.len(),
{
    if bits.len() == 0 {
        0
    } else {
        sat16(2 * bits_accumulate(bits.drop_last())) + if bits.last() == 1 {
            1int
        } else {
            0int
        }
    }
}

/// Every prefix of `bits` reads to a 16-bit value (reading never overflows).
pub open spec fn bits_readable(bits: Seq<Word16>) -> bool {
    forall|k: int| 0 <= k <= bits.len() ==> #[trigger] bits_accumulate(bits.take(k)) <= 32767
}

/// Reading at most 15 bits never overflows, and gives the plain binary value
/// (less than `2^n`).
pub proof fn lemma_short_reads(bits: Seq<Word16>)
    requires
        bits.len() <= 15,
    ensures
        bits_readable(bits),
        0 <= bits_accumulate(bits) < pow2(bits.len()),
    decreases bits.len(),
{
    lemma2_to64();
    if bits.len() == 0 {
        assert forall|k: int| 0 <= k <= bits.len() implies #[trigger] bits_accumulate(bits.take(k))
            <= 32767 by {
            assert(bits.take(k).len() == 0);
        }
    } else {
        let prefix = bits.drop_last();
        lemma_short_reads(prefix);
        lemma_pow2_unfold(bits.len());
        lemma_pow2_le(bits.len(), 15);
        assert forall|k: int| 0 <= k <= bits.len() implies #[trigger] bits_accumulate(bits.take(k))
            <= 32767 by {
            if k < bits.len() {
                assert(bits.take(k) =~= prefix.take(k));
            } else {
                assert(bits.take(k) =~= bits);
            }
        }
    }
}

/// Read `no_of_bits` bits (MSB first) from a bit slice and return the
/// integer. A bit counts as one when it equals 1.
pub fn bits_to_int(no_of_bits: usize, bitstream: &[Word16]) -> (r: Word16)
    requires
        no_of_bits <= bitstream@.len(),
        bits_readable(bitstream@.take(no_of_bits as int)),
    ensures
        r == bits_accumulate(bitstream@.take(no_of_bits as int)),
{
    let mut value: Word16 = 0;
    let mut i: usize = 0;
    proof {
        lemma2_to64();
        assert(bitstream@.take(0) =~= Seq::<Word16>::empty());
    }
    while i < no_of_bits
        invariant
            i <= no_of_bits <= bitstream@.len(),
            bits_readable(bitstream@.take(no_of_bits as int)),
            value == bits_accumulate(bitstream@.take(i as int)),
            0 <= value,
        decreases no_of_bits - i,
    {
        let bit = bitstream[i];
        proof {
            lemma2_to64();
            let all = bitstream@.take(no_of_bits as int);
            assert(all.take((i + 1) as int) =~= bitstream@.take((i + 1) as int));
            assert(bitstream@.take((i + 1) as int).drop_last() =~= bitstream@.take(i as int));
            assert(bits_accumulate(all.take((i + 1) as int)) <= 32767);
            assert(bitstream@.take((i + 1) as int).last() == bit);
            assert(value * pow2(1) == 2 * value) by (nonlinear_arith)
                requires
                    pow2(1) == 2,
            ;
        }
        value = shl_pure(value, 1);
        if bit == 1 {
            value = value + 1;
        }
        i = i + 1;
    }
    value
}

/// The bit of `value` of weight `2^k`, for negative values too (two's
/// complement): `floor(value / 2^k) mod 2`.
pub open spec fn bit_of(value: int, k: nat) -> int {
    (value / (pow2(k) as int)) % 2
}

/// Write the low `no_of_bits` bits of `value` (MSB first) into the first
/// `no_of_bits` slots of a bit slice, leaving the other slots unchanged.
pub fn int_to_bits(value: Word16, no_of_bits: usize, bitstream: &mut [Word16])
    requires
        no_of_bits <= old(bitstream)@.len(),
    ensures
        final(bitstream)@.len() == old(bitstream)@.len(),
        forall|i: int|
            0 <= i < no_of_bits ==> #[trigger] final(bitstream)@[i] == bit_of(
                value as int,
                (no_of_bits - 1 - i) as nat,
            ),
        forall|i: int|
            no_of_bits <= i < old(bitstream)@.len() ==> #[trigger] final(bitstream)@[i] == old(
                bitstream,
            )@[i],
{
    let mut v = value;
    let mut j: usize = no_of_bits;
    proof {
        lemma_mul_pow2_zero(value as int);
    }
    while j > 0
        invariant
            j <= no_of_bits <= bitstream@.len(),
            bitstream@.len() == old(bitstream)@.len(),
            v == (value as int) / (pow2((no_of_bits - j) as nat) as int),
            forall|i: int|
                j <= i < no_of_bits ==> #[trigger] bitstream@[i] == bit_of(
                    value as int,
                    (no_of_bits - 1 - i) as nat,
                ),
            forall|i: int|
                no_of_bits <= i < old(bitstream)@.len() ==> #[trigger] bitstream@[i] == old(
                    bitstream,
                )@[i],
        decreases j,
    {
        j = j - 1;
        proof {
            super::shift_facts::lemma_low_bit(v);
            let e = (no_of_bits - 1 - j) as nat;
            lemma_pow2_pos(e);
            lemma_pow2_unfold(e + 1);
            super::shift_facts::lemma_floor_div_twice(value as int, pow2(e) as int, 2);
        }
        bitstream[j] = v & 1;
        v = shr_pure(v, 1);
        proof {
            lemma2_to64();
        }
    }
}

} // verus!
