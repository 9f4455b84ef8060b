//! Layout of the 137 source-coded bits of a frame: 23 parameters of fixed
//! widths, serialised MSB first after a leading Bad Frame Indicator slot.

use crate::fixed::dsp_ops::{bit_of, bits_accumulate, lemma_short_reads};
use crate::fixed::ops::sat16;
use crate::fixed::Word16;
use vstd::arithmetic::power2::{lemma2_to64, lemma_pow2_pos, lemma_pow2_unfold, pow2};
use vstd::prelude::*;

verus! {

/// Number of codec parameters in one frame.
pub const NUM_PARAMS: usize = 23;

/// Length of a serial frame: the BFI slot plus 137 bits.
pub const SERIAL_LEN: usize = 138;

/// Bit width of each of the 23 parameters: three LSP indices, then for each
/// of the four subframes pitch, code, sign, shift and gain.
pub const BITNO: [usize; 23] = [8, 9, 9, 8, 14, 1, 1, 6, 5, 14, 1, 1, 6, 5, 14, 1, 1, 6, 5, 14, 1, 1, 6];

/// Width of parameter `k`.
pub open spec fn width(k: int) -> int {
    BITNO@[k] as int
}

/// Position of the first bit of parameter `k` in the serial frame (after
/// the BFI slot at position 0).
pub open spec fn offset(k: int) -> int
    decreases k,
{
    if k <= 0 {
        1
    } else {
        offset(k - 1) + width(k - 1)
    }
}

/// Whether a parameter value fits its field.
pub open spec fn param_fits(k: int, v: int) -> bool {
    0 <= v < pow2(width(k) as nat)
}

/// Field `k` of a serial frame read as an integer.
pub open spec fn field_value(serial: Seq<Word16>, k: int) -> int {
    bits_accumulate(serial.subrange(offset(k), offset(k) + width(k)))
}

/// Facts about the layout: widths are between 1 and 14, the fields tile
/// positions `1..138` in order.
pub proof fn lemma_layout(k: int)
    requires
        0 <= k < 23,
    ensures
        1 <= width(k) <= 14,
        1 <= offset(k),
        offset(k) + width(k) == offset(k + 1),
        offset(k + 1) <= 138,
    decreases k,
{
    reveal_with_fuel(offset, 24);
    assert(offset(23) == 138);
    if k > 0 {
        lemma_layout(k - 1);
    }
    assert(offset(k + 1) <= offset(23)) by {
        lemma_offset_monotone(k + 1, 23);
    }
}

/// Offsets grow with the parameter number.
pub proof fn lemma_offset_monotone(a: int, b: int)
    requires
        0 <= a <= b <= 23,
    ensures
        offset(a) <= offset(b),
    decreases b - a,
{
    if a < b {
        lemma_offset_monotone(a, b - 1);
        assert(width(b - 1) >= 1);
    }
}

/// The bits of `v`, MSB first, `n` of them.
pub open spec fn bits_msb_first(v: int, n: nat) -> Seq<Word16> {
    Seq::new(n, |t: int| bit_of(v, (n - 1 - t) as nat) as Word16)
}

/// Reading back the `n` bits written for `0 <= v < 2^n` (with `n <= 15`)
/// gives `v`.
pub proof fn lemma_bits_roundtrip(v: int, n: nat)
    requires
        n <= 15,
        0 <= v < pow2(n),
    ensures
        bits_accumulate(bits_msb_first(v, n)) == v,
    decreases n,
{
    lemma2_to64();
    let s = bits_msb_first(v, n);
    if n == 0 {
        assert(s.len() == 0);
    } else {
        lemma_pow2_unfold(n);
        let h = v / 2;
        assert(0 <= h < pow2((n - 1) as nat));
        lemma_bits_roundtrip(h, (n - 1) as nat);
        assert forall|t: int| 0 <= t < n - 1 implies #[trigger] s.drop_last()[t]
            == bits_msb_first(h, (n - 1) as nat)[t] by {
            let k = (n - 1 - t) as nat;
            lemma_pow2_unfold(k);
            lemma_pow2_pos((k - 1) as nat);
            crate::fixed::shift_facts::lemma_floor_div_twice(v, 2, pow2((k - 1) as nat) as int);
            assert(2 * pow2((k - 1) as nat) == pow2(k));
        }
        assert(s.drop_last() =~= bits_msb_first(h, (n - 1) as nat));
        assert(s.last() == bit_of(v, 0) as Word16);
        crate::fixed::shift_facts::lemma_mul_pow2_zero(v);
        assert(bit_of(v, 0) == v % 2);
        lemma_short_reads(bits_msb_first(h, (n - 1) as nat));
        assert(sat16(2 * h) == 2 * h) by {
            lemma_pow2_le_15(n);
        }
    }
}

/// Law: writing parameters into their fields and reading the fields back
/// gives the parameters, for every parameter that fits its field.
pub proof fn law_serial_fields_roundtrip(prm: Seq<Word16>, serial: Seq<Word16>)
    requires
        prm.len() == 23,
        serial.len() >= 138,
        forall|k: int|
            0 <= k < 23 ==> #[trigger] serial.subrange(offset(k), offset(k) + width(k))
                == bits_msb_first(prm[k] as int, width(k) as nat),
    ensures
        forall|k: int|
            0 <= k < 23 && param_fits(k, prm[k] as int) ==> #[trigger] field_value(serial, k)
                == prm[k],
{
    assert forall|k: int| 0 <= k < 23 && param_fits(k, prm[k] as int) implies #[trigger] field_value(
        serial,
        k,
    ) == prm[k] by {
        lemma_layout(k);
        assert(serial.subrange(offset(k), offset(k) + width(k)) == bits_msb_first(
            prm[k] as int,
            width(k) as nat,
        ));
        lemma_bits_roundtrip(prm[k] as int, width(k) as nat);
    }
}

/// `2^n <= 2^15` for `n <= 15`.
proof fn lemma_pow2_le_15(n: nat)
    requires
        n <= 15,
    ensures
        pow2(n) <= 32768,
{
    lemma2_to64();
    crate::fixed::shift_facts::lemma_pow2_le(n, 15);
}

/// Every field of a serial frame reads to a value that fits the field.
pub proof fn lemma_fields_fit(serial: Seq<Word16>)
    requires
        serial.len() >= 138,
    ensures
        forall|k: int| 0 <= k < 23 ==> #[trigger] param_fits(k, field_value(serial, k)),
{
    assert forall|k: int| 0 <= k < 23 implies #[trigger] param_fits(k, field_value(serial, k)) by {
        lemma_layout(k);
        lemma_short_reads(serial.subrange(offset(k), offset(k) + width(k)));
    }
}

} // verus!
