//! TETRA speech source decoder (clause 4.2.3).
//!
//! Reconstructs 30 ms of speech from the 137-bit frame through the standard
//! decoder stages: LSP decoding and interpolation, adaptive and innovative
//! codebook reconstruction, gain decoding, synthesis filtering and
//! post-processing, with error concealment on bad frames.

use crate::accumulate::{lemma_mac_step, mac_acc};
use crate::dsp::{
    interpolation_32,
    expansion_factor, impulse_response, interpolate_lp, interpolated_lsp, long_term_predict,
    lp_from_lsp, lp_impulse_energy, ltp_buffer, mult_round, postprocess, synthesis_filter,
    synthesis_output, weight_factors, weight_lp, lemma_synthesis_buffer_len,
};
use crate::fixed::dsp_ops::{
    add_high16, add_shifted, bits_to_int, lemma_norm_l_value, load_high16, load_shifted,
    norm_l_value, store_high, sub_high16, sub_shifted,
};
use crate::fixed::ext::{dpf_split, split_hi, split_lo, law_dpf_split_compose};
use crate::fixed::math::{log2, log2_exponent, log2_fraction, pow2, pow2_value};
use crate::fixed::ops::{
    extract_h, l_shr_r_pure, mult_pure, shift32_round, extract_l, l_mac0_pure, l_mult0, l_negate, l_shl_pure, l_shr_pure, l_sub_pure, norm_l, sat16, sat32,
    shift16, shift32, shl_pure, shr_pure,
};
use crate::fixed::Word16;
use crate::fixed::Word32;
use crate::layout::{field_value, lemma_layout, offset, param_fits, BITNO};
use crate::tables::CodecTables;
use vstd::arithmetic::power2::{lemma2_to64, pow2 as pow2_spec};
use vstd::prelude::*;

verus! {

/// The 24-value decoder input for one frame: `[BFI, 23 codec parameters]`.
pub type FrameParams = [Word16; 24];

/// Unpack a serial bit stream (`bits[0]` = BFI, then 137 bits, MSB first)
/// into the BFI flag plus the 23 codec parameters.
pub fn bits_to_params(bits: &[Word16]) -> (prm: FrameParams)
    requires
        bits@.len() >= 138,
    ensures
        prm[0] == bits@[0],
        forall|k: int| 0 <= k < 23 ==> #[trigger] prm[k + 1] == field_value(bits@, k),
{
    let mut prm = [0i16; 24];
    prm[0] = bits[0];
    let mut pos: usize = 1;
    let mut i: usize = 0;
    while i < 23
        invariant
            i <= 23,
            bits@.len() >= 138,
            pos == offset(i as int),
            prm[0] == bits@[0],
            forall|k: int| 0 <= k < i ==> #[trigger] prm[k + 1] == field_value(bits@, k),
        decreases 23 - i,
    {
        let n = BITNO[i];
        proof {
            lemma_layout(i as int);
        }
        let field = &bits[pos..pos + n];
        proof {
            crate::fixed::dsp_ops::lemma_short_reads(field@);
            assert(field@.take(n as int) =~= field@);
        }
        prm[i + 1] = bits_to_int(n, field);
        pos = pos + n;
        i = i + 1;
    }
    prm
}

/// Move half of the excess of `gap - (l[k] - l[k+1])` ... the minimum
/// distance adjustment between `l[k]` and `l[k + 1]`: when
/// `gap - l[k] + l[k+1]` is positive, half of it is added to `l[k]` and
/// taken from `l[k + 1]`.
pub open spec fn lsp_adjust(l: Seq<Word16>, k: int, gap: int) -> Seq<Word16> {
    let t = sat16(sat16(gap - l[k]) + l[k + 1]);
    if t > 0 {
        let h = t / 2;
        l.update(k, sat16(l[k] + h) as i16).update(k + 1, sat16(l[k + 1] - h) as i16)
    } else {
        l
    }
}

/// Whether the first ten LSPs are strictly decreasing (strictly ordered in
/// frequency).
pub open spec fn lsp_ordered(l: Seq<Word16>) -> bool {
    forall|i: int| 0 <= i < 9 ==> #[trigger] l[i] > l[i + 1]
}

/// The LSP vector selected by the three split-VQ indices, before the
/// ordering check.
pub open spec fn lsp_codebook_vector(tables: CodecTables, i0: int, i1: int, i2: int) -> Seq<Word16> {
    let raw = tables.dico1_clsp@.subrange(3 * i0, 3 * i0 + 3) + tables.dico2_clsp@.subrange(
        3 * i1,
        3 * i1 + 3,
    ) + tables.dico3_clsp@.subrange(4 * i2, 4 * i2 + 4);
    lsp_adjust(lsp_adjust(raw, 2, 917), 5, 1245)
}

/// The decoded LSPs: the codebook vector if it is ordered, else the
/// previous LSPs.
pub open spec fn decoded_lsp(
    tables: CodecTables,
    i0: int,
    i1: int,
    i2: int,
    lsp_old: Seq<Word16>,
) -> Seq<Word16> {
    let l = lsp_codebook_vector(tables, i0, i1, i2);
    if lsp_ordered(l) {
        l
    } else {
        lsp_old.take(10)
    }
}

/// Law: the decoded (and, at the encoder, quantised) LSPs stay strictly
/// decreasing: from an ordered previous set, whatever the indices, the new
/// set is ordered; the initial set is ordered.
pub proof fn law_lsp_stay_ordered(tables: CodecTables, i0: int, i1: int, i2: int, lsp_old: Seq<Word16>)
    requires
        lsp_old.len() >= 10,
        lsp_ordered(lsp_old),
    ensures
        lsp_ordered(decoded_lsp(tables, i0, i1, i2, lsp_old)),
        lsp_ordered(LSP_INIT@),
{
    assert(lsp_ordered(lsp_old.take(10)));
}

/// Apply the minimum-distance adjustment to `lsp[k]`, `lsp[k + 1]`.
fn adjust_pair(lsp: &mut [Word16], k: usize, gap: Word16)
    requires
        k + 1 < old(lsp)@.len(),
    ensures
        final(lsp)@ == lsp_adjust(old(lsp)@, k as int, gap as int),
{
    let mut temp = crate::fixed::ops::sub_pure(gap, lsp[k]);
    temp = crate::fixed::ops::add_pure(temp, lsp[k + 1]);
    if temp > 0 {
        proof {
            lemma2_to64();
        }
        temp = shr_pure(temp, 1);
        let a = crate::fixed::ops::add_pure(lsp[k], temp);
        let b = crate::fixed::ops::sub_pure(lsp[k + 1], temp);
        lsp[k] = a;
        lsp[k + 1] = b;
    }
}

/// Decode the split-VQ LSPs from their indices, keeping the previous set if
/// the decoded LSPs are not strictly ordered.
pub fn decode_lsp(tables: &CodecTables, indice: &[Word16], lsp: &mut [Word16], lsp_old: &[Word16])
    requires
        indice@.len() >= 3,
        0 <= indice@[0] < 256,
        0 <= indice@[1] < 512,
        0 <= indice@[2] < 512,
        old(lsp)@.len() >= 10,
        lsp_old@.len() >= 10,
    ensures
        final(lsp)@.len() == old(lsp)@.len(),
        forall|i: int|
            0 <= i < 10 ==> #[trigger] final(lsp)@[i] == decoded_lsp(
                *tables,
                indice@[0] as int,
                indice@[1] as int,
                indice@[2] as int,
                lsp_old@,
            )[i],
        forall|i: int| 10 <= i < old(lsp)@.len() ==> #[trigger] final(lsp)@[i] == old(lsp)@[i],
{
    let i0 = indice[0] as usize;
    let i1 = indice[1] as usize;
    let i2 = indice[2] as usize;
    let mut v = [0i16; 10];
    let mut k: usize = 0;
    while k < 3
        invariant
            k <= 3,
            i0 < 256,
            i1 < 512,
            forall|q: int| 0 <= q < k ==> #[trigger] v@[q] == tables.dico1_clsp@[3 * i0 + q],
            forall|q: int| 0 <= q < k ==> #[trigger] v@[3 + q] == tables.dico2_clsp@[3 * i1 + q],
        decreases 3 - k,
    {
        v[k] = tables.dico1_clsp[i0 * 3 + k];
        v[3 + k] = tables.dico2_clsp[i1 * 3 + k];
        k = k + 1;
    }
    let mut k: usize = 0;
    while k < 4
        invariant
            k <= 4,
            i0 < 256,
            i1 < 512,
            i2 < 512,
            forall|q: int| 0 <= q < 3 ==> #[trigger] v@[q] == tables.dico1_clsp@[3 * i0 + q],
            forall|q: int| 0 <= q < 3 ==> #[trigger] v@[3 + q] == tables.dico2_clsp@[3 * i1 + q],
            forall|q: int| 0 <= q < k ==> #[trigger] v@[6 + q] == tables.dico3_clsp@[4 * i2 + q],
        decreases 4 - k,
    {
        v[6 + k] = tables.dico3_clsp[i2 * 4 + k];
        k = k + 1;
    }
    proof {
        let raw = tables.dico1_clsp@.subrange(3 * i0, 3 * i0 + 3) + tables.dico2_clsp@.subrange(
            3 * i1,
            3 * i1 + 3,
        ) + tables.dico3_clsp@.subrange(4 * i2, 4 * i2 + 4);
        assert forall|q: int| 0 <= q < 10 implies #[trigger] v@[q] == raw[q] by {
            if q < 3 {
            } else if q < 6 {
                assert(v@[3 + (q - 3)] == tables.dico2_clsp@[3 * i1 + (q - 3)]);
            } else {
                assert(v@[6 + (q - 6)] == tables.dico3_clsp@[4 * i2 + (q - 6)]);
            }
        }
        assert(v@ =~= raw);
    }
    adjust_pair(&mut v, 2, 917);
    adjust_pair(&mut v, 5, 1245);
    let ghost cand = v@;
    let mut bad = false;
    let mut i: usize = 0;
    while i < 9
        invariant
            i <= 9,
            v@ == cand,
            bad == !(forall|q: int| 0 <= q < i ==> #[trigger] cand[q] > cand[q + 1]),
        decreases 9 - i,
    {
        if crate::fixed::ops::sub_pure(v[i], v[i + 1]) <= 0 {
            bad = true;
        }
        i = i + 1;
    }
    let mut i: usize = 0;
    while i < 10
        invariant
            i <= 10,
            lsp@.len() == old(lsp)@.len(),
            old(lsp)@.len() >= 10,
            lsp_old@.len() >= 10,
            v@ == cand,
            cand.len() == 10,
            forall|q: int|
                0 <= q < i ==> #[trigger] lsp@[q] == (if bad {
                    lsp_old@[q]
                } else {
                    cand[q]
                }),
            forall|q: int| 10 <= q < old(lsp)@.len() ==> #[trigger] lsp@[q] == old(lsp)@[q],
        decreases 10 - i,
    {
        lsp[i] = if bad {
            lsp_old[i]
        } else {
            v[i]
        };
        i = i + 1;
    }
}

/// Sample `i` of the innovative code vector: the four signed pulses of the
/// algebraic code, each convolved with the shaping response `f` (origin at
/// index 64, delayed by `shift`), scaled and truncated.
pub open spec fn code_sample(f: Seq<Word16>, index: Word16, sign: Word16, shift: Word16, i: int) -> int {
    let fo = 64 - shift;
    let p0 = fo - (index & 31) * 2;
    let p1 = fo - ((index & 224) / 4 + 2);
    let p2 = fo - ((index & 1792) / 32 + 4);
    let p3 = fo - ((index & 14336) / 256 + 6);
    let l0 = f[p0 + i] * 2896;
    let l1 = sat32(l0 - f[p1 + i] * 2048);
    let l2 = sat32(l1 + f[p2 + i] * 2048);
    let l3 = sat32(l2 - f[p3 + i] * 2048);
    let l = if sign != 0 {
        sat32(-l3)
    } else {
        l3
    };
    (l / 2048) as i16 as int
}

/// Negating before the 16-bit truncation: `(-q - d)` and `-(q as i16) - d`
/// truncate alike.
proof fn lemma_negated_truncation(q: int, d: int)
    requires
        -0x4000_0000 <= q <= 0x4000_0000,
        0 <= d <= 1,
    ensures
        (-q - d) as i16 as int == (-(q as i16 as int) - d) as i16 as int,
{
    let x: i32 = q as i32;
    let dd: i32 = d as i32;
    assert(x == q && dd == d);
    assert(((0i32 - x - dd) as i16) == ((0i32 - ((x as i16) as i32) - dd) as i16)) by (bit_vector)
        requires
            -0x4000_0000 <= x <= 0x4000_0000,
            0 <= dd <= 1,
    ;
}

/// Law: the sign bit sets the polarity of the innovative code. Sample `i`
/// of the code vector decoded with a set sign bit is the negation of the
/// one decoded with a clear sign bit (in 16-bit arithmetic), give or take
/// one unit of the final rounding down, for every index, shift and
/// shaping response.
pub proof fn law_code_sign_negates(f: Seq<Word16>, index: Word16, sign: Word16, shift: Word16, i: int)
    requires
        sign != 0,
    ensures
        ({
            let a = code_sample(f, index, 0, shift, i);
            let b = code_sample(f, index, sign, shift, i);
            b == (-a) as i16 as int || b == (-a - 1) as i16 as int
        }),
{
    let fo = 64 - shift;
    let p0 = fo - (index & 31) * 2;
    let p1 = fo - ((index & 224) / 4 + 2);
    let p2 = fo - ((index & 1792) / 32 + 4);
    let p3 = fo - ((index & 14336) / 256 + 6);
    let v0 = f[p0 + i] as int;
    let v1 = f[p1 + i] as int;
    let v2 = f[p2 + i] as int;
    let v3 = f[p3 + i] as int;
    assert(-32768 * 2896 <= v0 * 2896 <= 32768 * 2896) by (nonlinear_arith)
        requires
            -32768 <= v0 <= 32767,
    ;
    assert(-32768 * 2048 <= v1 * 2048 <= 32768 * 2048) by (nonlinear_arith)
        requires
            -32768 <= v1 <= 32767,
    ;
    assert(-32768 * 2048 <= v2 * 2048 <= 32768 * 2048) by (nonlinear_arith)
        requires
            -32768 <= v2 <= 32767,
    ;
    assert(-32768 * 2048 <= v3 * 2048 <= 32768 * 2048) by (nonlinear_arith)
        requires
            -32768 <= v3 <= 32767,
    ;
    let l3 = v0 * 2896 - v1 * 2048 + v2 * 2048 - v3 * 2048;
    let q = l3 / 2048;
    let r = l3 % 2048;
    vstd::arithmetic::div_mod::lemma_fundamental_div_mod(l3, 2048);
    let d: int = if r == 0 { 0 } else { 1 };
    vstd::arithmetic::div_mod::lemma_fundamental_div_mod_converse(
        -l3,
        2048,
        -q - d,
        if r == 0 { 0 } else { 2048 - r },
    );
    assert(code_sample(f, index, 0, shift, i) == q as i16 as int);
    assert(code_sample(f, index, sign, shift, i) == (-q - d) as i16 as int);
    lemma_negated_truncation(q, d);
}

/// Decode the innovative code vector from its index, sign and shift by
/// convolving the four pulses with the shaping response `f`.
pub fn decode_codebook(index: Word16, sign: Word16, shift: Word16, f: &[Word16], cod: &mut [Word16])
    requires
        f@.len() >= 124,
        0 <= shift <= 1,
        old(cod)@.len() >= 60,
    ensures
        final(cod)@.len() == old(cod)@.len(),
        forall|i: int| 0 <= i < 60 ==> #[trigger] final(cod)@[i] == code_sample(f@, index, sign, shift, i),
        forall|i: int| 60 <= i < old(cod)@.len() ==> #[trigger] final(cod)@[i] == old(cod)@[i],
{
    proof {
        lemma2_to64();
        assert(0 <= index & 31 <= 31) by (bit_vector);
        assert(0 <= index & 224 <= 224) by (bit_vector);
        assert(0 <= index & 1792 <= 1792) by (bit_vector);
        assert(0 <= index & 14336 <= 14336) by (bit_vector);
    }
    let pos0 = shl_pure(index & 31, 1) as usize;
    let pos1 = (shr_pure(index & 224, 2) + 2) as usize;
    let pos2 = (shr_pure(index & 1792, 5) + 4) as usize;
    let pos3 = (shr_pure(index & 14336, 8) + 6) as usize;
    let fo = (64 - shift) as usize;
    let p0 = fo - pos0;
    let p1 = fo - pos1;
    let p2 = fo - pos2;
    let p3 = fo - pos3;
    let negative = sign != 0;
    let mut i: usize = 0;
    while i < 60
        invariant
            i <= 60,
            f@.len() >= 124,
            0 <= shift <= 1,
            p0 == 64 - shift - (index & 31) * 2,
            p1 == 64 - shift - ((index & 224) / 4 + 2),
            p2 == 64 - shift - ((index & 1792) / 32 + 4),
            p3 == 64 - shift - ((index & 14336) / 256 + 6),
            negative == (sign != 0),
            1 <= p0 <= 64,
            1 <= p1 <= 64,
            1 <= p2 <= 64,
            1 <= p3 <= 64,
            cod@.len() == old(cod)@.len(),
            old(cod)@.len() >= 60,
            forall|k: int| 0 <= k < i ==> #[trigger] cod@[k] == code_sample(f@, index, sign, shift, k),
            forall|k: int| 60 <= k < old(cod)@.len() ==> #[trigger] cod@[k] == old(cod)@[k],
        decreases 60 - i,
    {
        proof {
            lemma2_to64();
        }
        let mut l = l_mult0(f[p0 + i], 2896);
        l = sub_shifted(l, f[p1 + i], 11);
        l = add_shifted(l, f[p2 + i], 11);
        l = sub_shifted(l, f[p3 + i], 11);
        if negative {
            l = l_negate(l);
        }
        cod[i] = store_high(l, 5);
        i = i + 1;
    }
}

/// The normalised high word of a positive energy: `(e << norm_l(e)) >> 16`.
pub open spec fn energy_mantissa(e: int) -> int {
    shift32(e, norm_l_value(e)) / 65536
}

/// `log2(m)` as a Q16 value, `exp * 2^16 + frac * 2`.
pub open spec fn log2_q16(tables: CodecTables, m: int) -> int {
    sat32(log2_exponent(m) * 65536 + log2_fraction(tables.tab_log2@, m) * 2)
}

/// The decoder's view of the LP filter energy (normalised high word) and
/// its exponent.
pub open spec fn lpc_energy(a: Seq<Word16>) -> (int, int) {
    let e = mac_acc(0, impulse_response(a), impulse_response(a));
    (energy_mantissa(e), norm_l_value(e))
}

/// Log-energy of the adaptive codebook vector filtered through `1/A(z)`,
/// in Q8 (the decoder's pitch-energy estimate).
pub open spec fn pitch_energy(tables: CodecTables, a: Seq<Word16>, prd_lt: Seq<Word16>, n: int) -> int {
    let lpc = lpc_energy(a);
    let e = mac_acc(1, prd_lt.take(n), prd_lt.take(n));
    let exp_plt = sat16(norm_l_value(e) + lpc.1);
    let m = energy_mantissa(e) * lpc.0;
    let t = sat32(sat32(log2_q16(tables, m) + sat32(-65536 * exp_plt)) + 1710 * 256);
    shift32(t, -8) as i16 as int
}

/// Log-energy of the innovative code vector filtered through `1/A(z)`,
/// in Q8.
pub open spec fn code_energy(tables: CodecTables, a: Seq<Word16>, code: Seq<Word16>, n: int) -> int {
    let lpc = lpc_energy(a);
    let e = mac_acc(0, code.take(n), code.take(n));
    let m = (e / 65536) * lpc.0;
    let t = sat32(sat32(log2_q16(tables, m) + sat32(-65536 * lpc.1)) - 4434 * 256);
    shift32(t, -8) as i16 as int
}

/// The energy prediction from the previous pair: `(2 own + other) / 2 - 3`
/// in Q8, floored at zero, with the saturating arithmetic of the codec.
pub open spec fn energy_prediction(own: int, other: int) -> int {
    let l = sat32(sat32(own * 256 + other * 128) - 768 * 512);
    ((if l < 0 {
        0
    } else {
        l
    }) / 512) as i16 as int
}

/// The gain-predictor energies after this subframe: decayed on a bad
/// frame, else predicted and corrected by the quantised energies of the
/// gain index, capped.
pub open spec fn next_energies(tables: CodecTables, index: int, bfi: int, pit: int, cod: int) -> (int, int) {
    if bfi != 0 {
        let p = sat16(pit - 128);
        let c = sat16(cod - 128);
        (if p < 0 {
            0
        } else {
            p
        }, if c < 0 {
            0
        } else {
            c
        })
    } else {
        let p = sat16(tables.t_qua_ener@[2 * index] + energy_prediction(pit, cod));
        let c = sat16(tables.t_qua_ener@[2 * index + 1] + energy_prediction(cod, pit));
        (if p > 6912 {
            6912
        } else {
            p
        }, if c > 6400 {
            6400
        } else {
            c
        })
    }
}

/// `2^x` of the Q6 log-gain `l`, split as exponent and Q15 fraction.
pub open spec fn gain_from_log(l: int) -> int {
    pow2_value(split_hi(l), split_lo(l))
}

/// The decoded `(adaptive, innovative)` gains from the new predictor
/// energies and the two codebook energies; the adaptive gain is capped at
/// 4915 (1.2 in Q12).
pub open spec fn decoded_gains(pit: int, cod: int, ener_plt: int, ener_c: int) -> (int, int) {
    let ga = gain_from_log(sat32(sat32(pit * 64 - ener_plt * 64) + 12 * 32768));
    let gi = gain_from_log(sat32(cod * 64 - ener_c * 64));
    ((if sat32(ga - 4915) > 0 {
        4915
    } else {
        ga
    }) as i16 as int, gi as i16 as int)
}

/// The normalised high word of `e` and its shift.
fn normalised_high(e: Word32) -> (r: (Word16, Word16))
    ensures
        r.0 == energy_mantissa(e as int),
        r.1 == norm_l_value(e as int),
        0 <= r.1 <= 31,
{
    let exp = norm_l(e);
    proof {
        lemma_norm_l_value(e, exp);
    }
    (extract_h(l_shl_pure(e, exp)), exp)
}

/// The log-energies (Q8) of the adaptive and innovative codebook vectors
/// filtered through `1/A(z)`, as the gain predictor uses them.
pub fn codebook_energies(
    tables: &CodecTables,
    a: &[Word16],
    prd_lt: &[Word16],
    code: &[Word16],
    l_subfr: usize,
) -> (r: (Word16, Word16))
    requires
        a@.len() >= 11,
        prd_lt@.len() >= l_subfr,
        code@.len() >= l_subfr,
    ensures
        r.0 == pitch_energy(*tables, a@, prd_lt@, l_subfr as int),
        r.1 == code_energy(*tables, a@, code@, l_subfr as int),
{
    proof {
        lemma2_to64();
    }
    let l_tmp = lp_impulse_energy(a);
    let (ener_lpc, exp_lpc) = normalised_high(l_tmp);
    // Energy of the adaptive codebook vector.
    let mut e: Word32 = 1;
    let mut i: usize = 0;
    while i < l_subfr
        invariant
            i <= l_subfr,
            prd_lt@.len() >= l_subfr,
            e == mac_acc(1, prd_lt@.take(i as int), prd_lt@.take(i as int)),
        decreases l_subfr - i,
    {
        proof {
            lemma_mac_step(1, prd_lt@, prd_lt@, i as int);
        }
        e = l_mac0_pure(e, prd_lt[i], prd_lt[i]);
        i = i + 1;
    }
    let (ener_plt16, exp_plt0) = normalised_high(e);
    let m = l_mult0(ener_plt16, ener_lpc);
    let exp_plt = crate::fixed::ops::add_pure(exp_plt0, exp_lpc);
    let (ex, fr) = log2(m, &tables.tab_log2);
    let mut t = load_high16(ex);
    t = add_shifted(t, fr, 1);
    t = sub_high16(t, exp_plt);
    t = add_shifted(t, 1710, 8);
    t = l_shr_pure(t, 8);
    let ener_plt = extract_l(t);
    proof {
        assert(ener_plt == pitch_energy(*tables, a@, prd_lt@, l_subfr as int));
    }
    // Energy of the innovative code vector.
    let mut e: Word32 = 0;
    let mut i: usize = 0;
    while i < l_subfr
        invariant
            i <= l_subfr,
            code@.len() >= l_subfr,
            e == mac_acc(0, code@.take(i as int), code@.take(i as int)),
        decreases l_subfr - i,
    {
        proof {
            lemma_mac_step(0, code@, code@, i as int);
        }
        e = l_mac0_pure(e, code[i], code[i]);
        i = i + 1;
    }
    let ener_c16 = extract_h(e);
    let m = l_mult0(ener_c16, ener_lpc);
    let (ex, fr) = log2(m, &tables.tab_log2);
    let mut t = load_high16(ex);
    t = add_shifted(t, fr, 1);
    t = sub_high16(t, exp_lpc);
    t = sub_shifted(t, 4434, 8);
    t = l_shr_pure(t, 8);
    let ener_c = extract_l(t);
    proof {
        assert(ener_c == code_energy(*tables, a@, code@, l_subfr as int));
    }
    (ener_plt, ener_c)
}

/// The gain-predictor estimate of one energy from the previous pair.
pub fn predict_energy(own: Word16, other: Word16) -> (r: Word16)
    ensures
        r == energy_prediction(own as int, other as int),
{
    proof {
        lemma2_to64();
    }
    let mut l = load_shifted(own, 8);
    l = add_shifted(l, other, 7);
    l = sub_shifted(l, 768, 9);
    if l < 0 {
        l = 0;
    }
    store_high(l, 7)
}

/// Decode the pitch and innovative codebook gains from the energy VQ
/// index, updating the gain-predictor energies; on a bad frame the
/// energies decay instead.
pub fn decode_gains(
    tables: &CodecTables,
    index: Word16,
    bfi: Word16,
    a: &[Word16],
    prd_lt: &[Word16],
    code: &[Word16],
    l_subfr: usize,
    adaptive_gain: &mut Word16,
    innov_gain: &mut Word16,
    last_ener_pit: &mut Word16,
    last_ener_cod: &mut Word16,
)
    requires
        a@.len() >= 11,
        prd_lt@.len() >= l_subfr,
        code@.len() >= l_subfr,
        bfi == 0 ==> 0 <= index < 64,
    ensures
        ({
            let en = next_energies(*tables, index as int, bfi as int, *old(last_ener_pit) as int, *old(last_ener_cod) as int);
            let g = decoded_gains(
                en.0,
                en.1,
                pitch_energy(*tables, a@, prd_lt@, l_subfr as int),
                code_energy(*tables, a@, code@, l_subfr as int),
            );
            &&& *final(last_ener_pit) == en.0
            &&& *final(last_ener_cod) == en.1
            &&& *final(adaptive_gain) == g.0
            &&& *final(innov_gain) == g.1
        }),
{
    proof {
        lemma2_to64();
    }
    let (ener_plt, ener_c) = codebook_energies(tables, a, prd_lt, code, l_subfr);
    if bfi != 0 {
        *last_ener_pit = crate::fixed::ops::sub_pure(*last_ener_pit, 128);
        if *last_ener_pit < 0 {
            *last_ener_pit = 0;
        }
        *last_ener_cod = crate::fixed::ops::sub_pure(*last_ener_cod, 128);
        if *last_ener_cod < 0 {
            *last_ener_cod = 0;
        }
    } else {
        let pred_pit = predict_energy(*last_ener_pit, *last_ener_cod);
        let pred_cod = predict_energy(*last_ener_cod, *last_ener_pit);
        let jj = shl_pure(index, 1);
        proof {
            assert(pow2_spec(1) == 2);
            assert(index * pow2_spec(1) == index * 2);
            assert(jj == 2 * index);
        }
        let j = jj as usize;
        *last_ener_pit = crate::fixed::ops::add_pure(tables.t_qua_ener[j], pred_pit);
        *last_ener_cod = crate::fixed::ops::add_pure(tables.t_qua_ener[j + 1], pred_cod);
        if crate::fixed::ops::sub_pure(*last_ener_pit, 6912) > 0 {
            *last_ener_pit = 6912;
        }
        if crate::fixed::ops::sub_pure(*last_ener_cod, 6400) > 0 {
            *last_ener_cod = 6400;
        }
    }
    // Quantised pitch gain.
    proof {
        lemma2_to64();
    }
    let lp = *last_ener_pit;
    let mut l = load_shifted(lp, 6);
    proof {
        assert(pow2_spec(6) == 64);
        assert(l == lp * 64);
        assert(-0x20_0000 <= l <= 0x20_0000);
    }
    l = sub_shifted(l, ener_plt, 6);
    proof {
        assert(ener_plt * pow2_spec(6) == ener_plt * 64);
        assert(-0x40_0000 <= l <= 0x40_0000);
        assert(pow2_spec(15) == 32768);
    }
    l = add_shifted(l, 12, 15);
    let (ex, fr) = dpf_split(l);
    proof {
        law_dpf_split_compose(l as int);
    }
    let mut g = pow2(ex, fr);
    if l_sub_pure(g, 4915) > 0 {
        g = 4915;
    }
    *adaptive_gain = extract_l(g);
    // Quantised code gain.
    let lc = *last_ener_cod;
    let mut l = load_shifted(lc, 6);
    proof {
        assert(pow2_spec(6) == 64);
        assert(l == lc * 64);
        assert(-0x20_0000 <= l <= 0x20_0000);
    }
    l = sub_shifted(l, ener_c, 6);
    proof {
        assert(ener_c * pow2_spec(6) == ener_c * 64);
    }
    let (ex, fr) = dpf_split(l);
    proof {
        law_dpf_split_compose(l as int);
    }
    let g = pow2(ex, fr);
    *innov_gain = extract_l(g);
}

/// Length of the decoder's excitation buffer: 143 samples of pitch history,
/// 15 for the interpolation filter, and the 240 samples of the frame.
pub const EXC_LEN: usize = 398;

/// Start of the current frame in the excitation buffer.
pub const EXC_START: usize = 158;

/// The LSPs the decoder starts from.
pub const LSP_INIT: [Word16; 10] = [30000, 26000, 21000, 15000, 8000, 0, -8000, -15000, -21000, -26000];

/// The spectral-expansion factors of `gamma` as 16-bit words.
pub open spec fn gamma_factors(gamma: int) -> Seq<Word16> {
    Seq::new(10, |i: int| expansion_factor(gamma, i as nat) as i16)
}

/// The pitch lag, its fraction and the lower end of the search range for
/// subframe `s`: decoded from `index` (the first subframe absolutely, the
/// others relative to `t0_min`), or repeated on a bad frame.
pub open spec fn pitch_lag(s: int, bfi: int, index: int, t0: int, t0_min: int, old_t0: int) -> (int, int, int) {
    if s == 0 {
        let tf = if bfi == 0 {
            if index < 197 {
                let i = sat16((sat16(index + 2) * 10923) / 32768);
                let t = sat16(i + 19);
                (t, sat16(index + sat16(58 - sat16(t + sat16(t + t)))))
            } else {
                (sat16(index - 112), 0)
            }
        } else {
            (old_t0, 0)
        };
        let m0 = sat16(tf.0 - 5);
        let m1 = if m0 < 20 {
            20
        } else {
            m0
        };
        (tf.0, tf.1, if sat16(m1 + 9) > 143 {
            134
        } else {
            m1
        })
    } else if bfi == 0 {
        let i = sat16(sat16((sat16(index + 2) * 10923) / 32768) - 1);
        (sat16(t0_min + i), sat16(index - sat16(sat16(i + sat16(i + i)) + 2)), t0_min)
    } else {
        (t0, 0, t0_min)
    }
}

/// The weighted LP filter `a[i] * gamma^i`.
pub open spec fn weighted_lp(a: Seq<Word16>, fac: Seq<Word16>) -> Seq<Word16> {
    Seq::new(11, |i: int| if i == 0 { a[0] } else { mult_round(a[i] as int, fac[i - 1] as int) as i16 })
}

/// Pitch sharpening of the response `f` over its first `k` positions from
/// `t0`: `f[n] += 0.8 f[n - t0]`, in place.
pub open spec fn sharpen(f: Seq<Word16>, t0: int, k: nat) -> Seq<Word16>
    decreases k,
{
    if k == 0 {
        f
    } else {
        let p = sharpen(f, t0, (k - 1) as nat);
        let n = t0 + k - 1;
        p.update(n, sat16(p[n] + sat16((p[n - t0] * 26216) / 32768)) as i16)
    }
}

/// The shaping response of the innovative codebook for filter `a` and lag
/// `t0`, with 64 leading zeros: the impulse response of
/// `A(z/g3) / A(z/g4)` over 60 samples, pitch-sharpened.
pub open spec fn shaping_response(a: Seq<Word16>, fac3: Seq<Word16>, fac4: Seq<Word16>, t0: int) -> Seq<Word16> {
    let fin = weighted_lp(a, fac3) + Seq::new(49, |i: int| 0i16);
    let f0 = synthesis_output(weighted_lp(a, fac4), fin, Seq::new(10, |i: int| 0i16), 60);
    let f1 = if t0 < 60 {
        sharpen(f0, t0, (60 - t0) as nat)
    } else {
        f0
    };
    Seq::new(64, |i: int| 0i16) + f1
}

/// The per-subframe decoder state: excitation buffer, synthesis memory,
/// pitch lag, lower end of the lag range, and the two gain-predictor
/// energies.
pub type SubframeState = (Seq<Word16>, Seq<Word16>, int, int, int, int);

/// Decode subframe `s` from its LP filter `a` and its five parameters `q`
/// (pitch, code index, sign, shift, gain index): the new state and the 60
/// synthesised samples.
#[verifier::opaque]
pub open spec fn subframe_from_params(
    tables: CodecTables,
    fac3: Seq<Word16>,
    fac4: Seq<Word16>,
    a: Seq<Word16>,
    q: Seq<Word16>,
    bfi: int,
    old_t0: int,
    st: SubframeState,
    s: int,
) -> (SubframeState, Seq<Word16>) {
    let eb = 158 + 60 * s;
    let pl = pitch_lag(s, bfi, q[0] as int, st.2, st.3, old_t0);
    let exc1 = if pl.1 == 0 || pl.1 == 1 || pl.1 == -1 {
        ltp_buffer(tables, st.0, eb, pl.0, pl.1, 60)
    } else {
        st.0
    };
    let zf = shaping_response(a, fac3, fac4, pl.0);
    let code = Seq::new(60, |i: int| code_sample(zf, q[1], q[2], q[3], i) as i16);
    let en = next_energies(tables, q[4] as int, bfi, st.4, st.5);
    let g = decoded_gains(
        en.0,
        en.1,
        pitch_energy(tables, a, exc1.subrange(eb, eb + 60), 60),
        code_energy(tables, a, code, 60),
    );
    let exc2 = Seq::new(
        398,
        |k: int|
            if eb <= k < eb + 60 {
                shift32_round(sat32(exc1[k] * g.0 + code[k - eb] * g.1), 12) as i16
            } else {
                exc1[k]
            },
    );
    let out = synthesis_output(a, exc2.subrange(eb, eb + 60), st.1, 60);
    ((exc2, out.subrange(50, 60), pl.0, pl.2, en.0, en.1), out)
}

/// Decode subframe `s` of a frame with LP filters `a_all` and parameters
/// `prm` (see [`subframe_from_params`]).
pub open spec fn decode_subframe_spec(
    tables: CodecTables,
    fac3: Seq<Word16>,
    fac4: Seq<Word16>,
    a_all: Seq<Word16>,
    prm: Seq<Word16>,
    bfi: int,
    old_t0: int,
    st: SubframeState,
    s: int,
) -> (SubframeState, Seq<Word16>) {
    subframe_from_params(
        tables,
        fac3,
        fac4,
        a_all.subrange(11 * s, 11 * s + 11),
        prm.subrange(3 + 5 * s, 8 + 5 * s),
        bfi,
        old_t0,
        st,
        s,
    )
}

/// The first `k` subframes of a frame: the state after them and the speech
/// they synthesise.
pub open spec fn decode_subframes(
    tables: CodecTables,
    fac3: Seq<Word16>,
    fac4: Seq<Word16>,
    a_all: Seq<Word16>,
    prm: Seq<Word16>,
    bfi: int,
    old_t0: int,
    init: SubframeState,
    k: nat,
) -> (SubframeState, Seq<Word16>)
    decreases k,
{
    if k == 0 {
        (init, Seq::empty())
    } else {
        let prev = decode_subframes(tables, fac3, fac4, a_all, prm, bfi, old_t0, init, (k - 1) as nat);
        let step = decode_subframe_spec(tables, fac3, fac4, a_all, prm, bfi, old_t0, prev.0, k - 1);
        (step.0, prev.1 + step.1)
    }
}

/// The four LP filters of a frame: three interpolated between the previous
/// and the new LSPs, the last from the new LSPs.
pub open spec fn frame_filters(lsp_old: Seq<Word16>, lsp_new: Seq<Word16>) -> Seq<Word16> {
    Seq::new(
        44,
        |n: int|
            if n < 33 {
                lp_from_lsp(interpolated_lsp(lsp_old, lsp_new, n / 11))[n % 11]
            } else {
                lp_from_lsp(lsp_new)[n - 33]
            },
    )
}

/// The decoder state that persists between frames.
pub ghost struct DecoderState {
    /// Excitation history and the current frame's excitation.
    pub exc: Seq<Word16>,
    /// Synthesis filter memory.
    pub mem: Seq<Word16>,
    /// The previous frame's LSPs.
    pub lspold: Seq<Word16>,
    /// The current frame's LSPs.
    pub lspnew: Seq<Word16>,
    /// The last good frame's parameters.
    pub old_parm: Seq<Word16>,
    /// The last pitch lag.
    pub old_t0: int,
    /// Gain-predictor energy of the adaptive codebook.
    pub ener_pit: int,
    /// Gain-predictor energy of the innovative codebook.
    pub ener_cod: int,
}

/// The parameters a frame is decoded from: the received ones on a good
/// frame, the last good frame's on a bad one.
pub open spec fn frame_params(st: DecoderState, parm: Seq<Word16>) -> Seq<Word16> {
    if parm[0] == 0 {
        parm.subrange(1, 24)
    } else {
        st.old_parm
    }
}

/// The new LSPs: decoded on a good frame; on a bad frame the previous LSPs
/// (except the first, which keeps the current frame's value).
pub open spec fn next_lsp(tables: CodecTables, st: DecoderState, parm: Seq<Word16>) -> Seq<Word16> {
    if parm[0] == 0 {
        decoded_lsp(tables, parm[1] as int, parm[2] as int, parm[3] as int, st.lspold)
    } else {
        st.lspold.update(0, st.lspnew[0])
    }
}

/// Decoding one frame: the next decoder state and the 240 synthesised
/// samples (before post-processing).
pub open spec fn decode_result(tables: CodecTables, st: DecoderState, parm: Seq<Word16>) -> (DecoderState, Seq<Word16>) {
    let bfi = parm[0] as int;
    let prm = frame_params(st, parm);
    let lspnew = next_lsp(tables, st, parm);
    let r = decode_subframes(
        tables,
        gamma_factors(24576),
        gamma_factors(27853),
        frame_filters(st.lspold, lspnew),
        prm,
        bfi,
        st.old_t0,
        (st.exc, st.mem, 0, 0, st.ener_pit, st.ener_cod),
        4,
    );
    let ss = r.0;
    (
        DecoderState {
            exc: Seq::new(398, |k: int| if k < 158 { ss.0[k + 240] } else { ss.0[k] }),
            mem: ss.1,
            lspold: lspnew,
            lspnew: lspnew,
            old_parm: prm,
            old_t0: ss.2,
            ener_pit: ss.4,
            ener_cod: ss.5,
        },
        r.1,
    )
}

/// Post-processing of a block of speech: each sample doubled with
/// saturation.
pub open spec fn postprocessed(x: Seq<Word16>) -> Seq<Word16> {
    Seq::new(x.len(), |i: int| sat16(2 * x[i]) as i16)
}

/// Whether every one of the 23 parameters fits its field.
pub open spec fn params_fit(prm: Seq<Word16>) -> bool {
    forall|k: int| 0 <= k < 23 ==> #[trigger] param_fits(k, prm[k] as int)
}

/// Bounds of the lag arithmetic `(m * 10923) >> 15` (about `m / 3`).
proof fn lemma_third(m: int)
    requires
        0 <= m <= 257,
    ensures
        0 <= (m * 10923) / 32768 <= 85,
        m <= 198 ==> (m * 10923) / 32768 <= 66,
        m <= 33 ==> (m * 10923) / 32768 <= 11,
{
    assert(0 <= m * 10923 <= 257 * 10923) by (nonlinear_arith)
        requires
            0 <= m <= 257,
    ;
    assert(m <= 198 ==> m * 10923 <= 198 * 10923) by (nonlinear_arith)
        requires
            0 <= m,
    ;
    assert(m <= 33 ==> m * 10923 <= 33 * 10923) by (nonlinear_arith)
        requires
            0 <= m,
    ;
}

/// The values a parameter field allows.
proof fn lemma_field_range(prm: Seq<Word16>, k: int)
    requires
        params_fit(prm),
        0 <= k < 23,
    ensures
        0 <= prm[k],
        BITNO@[k] == 1 ==> prm[k] < 2,
        BITNO@[k] == 5 ==> prm[k] < 32,
        BITNO@[k] == 6 ==> prm[k] < 64,
        BITNO@[k] == 8 ==> prm[k] < 256,
        BITNO@[k] == 9 ==> prm[k] < 512,
{
    lemma2_to64();
    assert(param_fits(k, prm[k] as int));
}

/// Decode the pitch lag of subframe `s` (see [`pitch_lag`]).
fn decode_pitch(s: usize, bfi: Word16, index: Word16, t0: Word16, t0_min: Word16, old_t0: Word16) -> (r: (
    Word16,
    Word16,
    Word16,
))
    requires
        s < 4,
        19 <= old_t0 <= 144,
        s > 0 ==> 20 <= t0_min <= 134 && 19 <= t0 <= 144,
        bfi == 0 ==> 0 <= index,
        bfi == 0 && s == 0 ==> index < 256,
        bfi == 0 && s > 0 ==> index < 32,
    ensures
        (r.0 as int, r.1 as int, r.2 as int) == pitch_lag(
            s as int,
            bfi as int,
            index as int,
            t0 as int,
            t0_min as int,
            old_t0 as int,
        ),
        19 <= r.0 <= 144,
        20 <= r.2 <= 134,
        s == 0 && r.1 != 0 ==> r.0 <= 85,
{
    let mut t0 = t0;
    let mut t0_min = t0_min;
    let mut t0_frac: Word16 = 0;
    if s == 0 {
        if bfi == 0 {
            if index < 197 {
                proof {
                    lemma_third(index + 2);
                }
                let mut i = crate::fixed::ops::add_pure(index, 2);
                i = mult_pure(i, 10923);
                t0 = crate::fixed::ops::add_pure(i, 19);
                let mut i = crate::fixed::ops::add_pure(t0, crate::fixed::ops::add_pure(t0, t0));
                i = crate::fixed::ops::sub_pure(58, i);
                t0_frac = crate::fixed::ops::add_pure(index, i);
            } else {
                t0 = crate::fixed::ops::sub_pure(index, 112);
                t0_frac = 0;
            }
        } else {
            t0 = old_t0;
            t0_frac = 0;
        }
        t0_min = crate::fixed::ops::sub_pure(t0, 5);
        if t0_min < 20 {
            t0_min = 20;
        }
        let mut t0_max = crate::fixed::ops::add_pure(t0_min, 9);
        if t0_max > 143 {
            t0_max = 143;
            t0_min = crate::fixed::ops::sub_pure(t0_max, 9);
        }
    } else if bfi == 0 {
        proof {
            lemma_third(index + 2);
        }
        let mut i = crate::fixed::ops::add_pure(index, 2);
        i = mult_pure(i, 10923);
        i = crate::fixed::ops::sub_pure(i, 1);
        t0 = crate::fixed::ops::add_pure(t0_min, i);
        i = crate::fixed::ops::add_pure(i, crate::fixed::ops::add_pure(i, i));
        t0_frac = crate::fixed::ops::sub_pure(index, crate::fixed::ops::add_pure(i, 2));
    }
    (t0, t0_frac, t0_min)
}

/// The shaping response of the innovative codebook, with 64 leading zeros
/// (see [`shaping_response`]).
pub(crate) fn shaping(a: &[Word16], fac3: &[Word16; 10], fac4: &[Word16; 10], t0: Word16) -> (zf: [Word16; 124])
    requires
        a@.len() == 11,
        t0 >= 0,
    ensures
        zf@ == shaping_response(a@, fac3@, fac4@, t0 as int),
{
    let mut ap3 = [0i16; 11];
    let mut ap4 = [0i16; 11];
    weight_lp(a, fac3, &mut ap3);
    weight_lp(a, fac4, &mut ap4);
    proof {
        assert(ap3@ =~= weighted_lp(a@, fac3@));
        assert(ap4@ =~= weighted_lp(a@, fac4@));
    }
    let mut fin = [0i16; 60];
    let mut k: usize = 0;
    while k < 11
        invariant
            k <= 11,
            forall|q: int| 0 <= q < k ==> #[trigger] fin@[q] == ap3@[q],
            forall|q: int| 11 <= q < 60 ==> #[trigger] fin@[q] == 0,
        decreases 11 - k,
    {
        fin[k] = ap3[k];
        k = k + 1;
    }
    proof {
        assert(fin@ =~= weighted_lp(a@, fac3@) + Seq::new(49, |i: int| 0i16));
    }
    let mut fout = [0i16; 60];
    let mut zero_mem = [0i16; 10];
    proof {
        assert(zero_mem@ =~= Seq::new(10, |i: int| 0i16));
    }
    synthesis_filter(&ap4, &fin, &mut fout, 60, &mut zero_mem, false);
    let ghost f0 = synthesis_output(weighted_lp(a@, fac4@), fin@, Seq::new(10, |i: int| 0i16), 60);
    proof {
        lemma_synthesis_buffer_len(weighted_lp(a@, fac4@), fin@, Seq::new(10, |i: int| 0i16), 60);
        assert(fout@ =~= f0);
    }
    if t0 < 60 {
        let lag = t0 as usize;
        let mut k: usize = lag;
        while k < 60
            invariant
                lag <= k <= 60,
                lag == t0,
                t0 < 60,
                fout@ == sharpen(f0, t0 as int, (k - lag) as nat),
                fout@.len() == 60,
            decreases 60 - k,
        {
            let temp = mult_pure(fout[k - lag], 26216);
            fout[k] = crate::fixed::ops::add_pure(fout[k], temp);
            k = k + 1;
        }
    }
    let mut zf = [0i16; 124];
    let mut k: usize = 0;
    while k < 60
        invariant
            k <= 60,
            forall|q: int| 0 <= q < 64 ==> #[trigger] zf@[q] == 0,
            forall|q: int| 0 <= q < k ==> #[trigger] zf@[64 + q] == fout@[q],
        decreases 60 - k,
    {
        zf[64 + k] = fout[k];
        k = k + 1;
    }
    proof {
        let f1 = if t0 < 60 {
            sharpen(f0, t0 as int, (60 - t0) as nat)
        } else {
            f0
        };
        assert(fout@ == f1);
        assert forall|q: int| 0 <= q < 124 implies #[trigger] zf@[q] == (Seq::new(64, |i: int| 0i16) + f1)[q] by {
            if q >= 64 {
                assert(zf@[64 + (q - 64)] == fout@[q - 64]);
            }
        }
        assert(zf@ =~= Seq::new(64, |i: int| 0i16) + f1);
    }
    zf
}

/// TETRA source speech decoder, stateful across frames.
pub struct Decoder {
    tables: CodecTables,
    old_exc: [Word16; 398],
    mem_syn: [Word16; 10],
    lspold: [Word16; 10],
    lspnew: [Word16; 10],
    old_parm: [Word16; 23],
    old_t0: Word16,
    last_ener_pit: Word16,
    last_ener_cod: Word16,
    f_gamma3: [Word16; 10],
    f_gamma4: [Word16; 10],
}

impl Decoder {
    /// The state that carries over to the next frame.
    pub closed spec fn state(&self) -> DecoderState {
        DecoderState {
            exc: self.old_exc@,
            mem: self.mem_syn@,
            lspold: self.lspold@,
            lspnew: self.lspnew@,
            old_parm: self.old_parm@,
            old_t0: self.old_t0 as int,
            ener_pit: self.last_ener_pit as int,
            ener_cod: self.last_ener_cod as int,
        }
    }

    /// The codec tables the decoder reads.
    pub closed spec fn codec_tables(&self) -> CodecTables {
        self.tables
    }

    /// The decoder's invariant: the last good parameters fit their fields,
    /// the last pitch lag lies in `19..=144`, and the expansion factors
    /// are those of `gamma3 = 0.75` and `gamma4 = 0.85`.
    pub closed spec fn wf(&self) -> bool {
        &&& params_fit(self.old_parm@)
        &&& 19 <= self.old_t0 <= 144
        &&& self.f_gamma3@ == gamma_factors(24576)
        &&& self.f_gamma4@ == gamma_factors(27853)
    }

    /// Create a decoder with reset state.
    pub fn new(tables: &CodecTables) -> (d: Self)
        ensures
            d.wf(),
            d.codec_tables() == *tables,
            d.state() == (DecoderState {
                exc: Seq::new(398, |i: int| 0i16),
                mem: Seq::new(10, |i: int| 0i16),
                lspold: LSP_INIT@,
                lspnew: Seq::new(10, |i: int| 0i16),
                old_parm: Seq::new(23, |i: int| 0i16),
                old_t0: 60,
                ener_pit: 0,
                ener_cod: 0,
            }),
    {
        let mut f_gamma3 = [0i16; 10];
        let mut f_gamma4 = [0i16; 10];
        weight_factors(24576, &mut f_gamma3);
        weight_factors(27853, &mut f_gamma4);
        let d = Decoder {
            tables: *tables,
            old_exc: [0; 398],
            mem_syn: [0; 10],
            lspold: LSP_INIT,
            lspnew: [0; 10],
            old_parm: [0; 23],
            old_t0: 60,
            last_ener_pit: 0,
            last_ener_cod: 0,
            f_gamma3,
            f_gamma4,
        };
        proof {
            lemma2_to64();
            assert(d.f_gamma3@ =~= gamma_factors(24576));
            assert(d.f_gamma4@ =~= gamma_factors(27853));
            assert(d.old_exc@ =~= Seq::new(398, |i: int| 0i16));
            assert(d.mem_syn@ =~= Seq::new(10, |i: int| 0i16));
            assert(d.lspnew@ =~= Seq::new(10, |i: int| 0i16));
            assert(d.old_parm@ =~= Seq::new(23, |i: int| 0i16));
            assert forall|k: int| 0 <= k < 23 implies #[trigger] param_fits(k, d.old_parm@[k] as int) by {
                lemma_layout(k);
                vstd::arithmetic::power2::lemma_pow2_pos(crate::layout::width(k) as nat);
            }
        }
        d
    }
}

impl Decoder {
    /// Decode subframe `s` of a frame (see [`decode_subframe_spec`]),
    /// writing its 60 synthesised samples into `out`. Returns the pitch lag
    /// and the lower end of the lag range.
    #[verifier::rlimit(60)]
    fn decode_subframe(
        &mut self,
        a_t: &[Word16; 44],
        parm: &[Word16; 23],
        bfi: Word16,
        s: usize,
        t0: Word16,
        t0_min: Word16,
        out: &mut [Word16; 60],
    ) -> (r: (Word16, Word16))
        requires
            s < 4,
            old(self).wf(),
            params_fit(parm@),
            s > 0 ==> 20 <= t0_min <= 134 && 19 <= t0 <= 144,
        ensures
            final(self).wf(),
            final(self).codec_tables() == old(self).codec_tables(),
            ({
                let o = old(self).state();
                let n = final(self).state();
                let step = decode_subframe_spec(
                    old(self).codec_tables(),
                    gamma_factors(24576),
                    gamma_factors(27853),
                    a_t@,
                    parm@,
                    bfi as int,
                    o.old_t0,
                    (o.exc, o.mem, t0 as int, t0_min as int, o.ener_pit, o.ener_cod),
                    s as int,
                );
                &&& n.exc == step.0.0
                &&& n.mem == step.0.1
                &&& r.0 == step.0.2
                &&& r.1 == step.0.3
                &&& n.ener_pit == step.0.4
                &&& n.ener_cod == step.0.5
                &&& final(out)@ == step.1
                &&& n.lspold == o.lspold
                &&& n.lspnew == o.lspnew
                &&& n.old_parm == o.old_parm
                &&& n.old_t0 == o.old_t0
            }),
            19 <= r.0 <= 144,
            20 <= r.1 <= 134,
    {
        let ghost tables = self.tables;
        let ghost exc0 = self.old_exc@;
        let pi = 3 + 5 * s;
        let eb = EXC_START + 60 * s;
        proof {
            lemma_field_range(parm@, pi as int);
            lemma_field_range(parm@, pi + 1);
            lemma_field_range(parm@, pi + 2);
            lemma_field_range(parm@, pi + 3);
            lemma_field_range(parm@, pi + 4);
        }
        let ghost old_t0_arg = t0;
        let ghost old_min_arg = t0_min;
        let (t0, t0_frac, t0_min) = decode_pitch(s, bfi, parm[pi], t0, t0_min, self.old_t0);
        let mut exc = self.old_exc;
        long_term_predict(&self.tables, &mut exc, eb, t0, t0_frac, 60);
        let ghost exc1 = exc@;
        let a = &a_t[s * 11..s * 11 + 11];
        let zero_f = shaping(a, &self.f_gamma3, &self.f_gamma4, t0);
        let mut code = [0i16; 64];
        decode_codebook(parm[pi + 1], parm[pi + 2], parm[pi + 3], &zero_f, &mut code);
        let ghost code_spec = Seq::new(
            60,
            |i: int| code_sample(zero_f@, parm@[pi + 1], parm@[pi + 2], parm@[pi + 3], i) as i16,
        );
        proof {
            assert(code@.take(60) =~= code_spec);
            assert(code_spec.take(60) =~= code_spec);
        }
        let mut seg = [0i16; 60];
        let mut k: usize = 0;
        while k < 60
            invariant
                k <= 60,
                eb == 158 + 60 * s,
                s < 4,
                exc@ == exc1,
                forall|q: int| 0 <= q < k ==> #[trigger] seg@[q] == exc1[eb + q],
            decreases 60 - k,
        {
            seg[k] = exc[eb + k];
            k = k + 1;
        }
        proof {
            assert(seg@ =~= exc1.subrange(eb as int, eb + 60));
        }
        let mut ga: Word16 = 0;
        let mut gi: Word16 = 0;
        let mut pit = self.last_ener_pit;
        let mut cod = self.last_ener_cod;
        decode_gains(
            &self.tables,
            parm[pi + 4],
            bfi,
            a,
            &seg,
            &code,
            60,
            &mut ga,
            &mut gi,
            &mut pit,
            &mut cod,
        );
        proof {
            assert(seg@.take(60) =~= exc1.subrange(eb as int, eb + 60).take(60));
        }
        let mut k: usize = 0;
        while k < 60
            invariant
                k <= 60,
                eb == 158 + 60 * s,
                s < 4,
                exc@.len() == 398,
                forall|q: int| 0 <= q < k ==> #[trigger] exc@[eb + q] == shift32_round(
                    sat32(exc1[eb + q] * ga + code_spec[q] * gi),
                    12,
                ) as i16,
                forall|q: int| 0 <= q < 398 && !(eb <= q < eb + k) ==> #[trigger] exc@[q] == exc1[q],
                forall|q: int| 0 <= q < 60 ==> #[trigger] code@[q] == code_spec[q],
            decreases 60 - k,
        {
            let mut l = l_mult0(exc[eb + k], ga);
            l = l_mac0_pure(l, code[k], gi);
            exc[eb + k] = extract_l(l_shr_r_pure(l, 12));
            k = k + 1;
        }
        let ghost exc2 = exc@;
        let mut xin = [0i16; 60];
        let mut k: usize = 0;
        while k < 60
            invariant
                k <= 60,
                eb == 158 + 60 * s,
                s < 4,
                exc@ == exc2,
                forall|q: int| 0 <= q < k ==> #[trigger] xin@[q] == exc2[eb + q],
            decreases 60 - k,
        {
            xin[k] = exc[eb + k];
            k = k + 1;
        }
        proof {
            assert(xin@ =~= exc2.subrange(eb as int, eb + 60));
        }
        let mut mem = self.mem_syn;
        synthesis_filter(a, &xin, out, 60, &mut mem, true);
        let ghost outv = synthesis_output(a@, xin@, self.mem_syn@, 60);
        proof {
            lemma_synthesis_buffer_len(a@, xin@, self.mem_syn@, 60);
            assert(out@ =~= outv);
            assert(mem@ =~= outv.subrange(50, 60));
            assert(a@ =~= a_t@.subrange(11 * s, 11 * s + 11));
        }
        self.old_exc = exc;
        self.mem_syn = mem;
        self.last_ener_pit = pit;
        self.last_ener_cod = cod;
        proof {
            reveal(subframe_from_params);
            let step = decode_subframe_spec(
                tables,
                gamma_factors(24576),
                gamma_factors(27853),
                a_t@,
                parm@,
                bfi as int,
                old(self).old_t0 as int,
                (exc0, old(self).mem_syn@, t0 as int, t0_min as int, old(self).last_ener_pit as int, old(self).last_ener_cod as int),
                s as int,
            );
            let pl = pitch_lag(s as int, bfi as int, parm@[pi as int] as int, old_t0_arg as int, old_min_arg as int, old(self).old_t0 as int);
            assert(pl == (t0 as int, t0_frac as int, t0_min as int));
            let a_s = a_t@.subrange(11 * s, 11 * s + 11);
            assert(a@ == a_s);
            let ex1 = if pl.1 == 0 || pl.1 == 1 || pl.1 == -1 {
                ltp_buffer(tables, exc0, eb as int, pl.0, pl.1, 60)
            } else {
                exc0
            };
            assert(exc1 == ex1);
            assert(zero_f@ == shaping_response(a_s, gamma_factors(24576), gamma_factors(27853), pl.0));
            let en = next_energies(tables, parm@[pi + 4] as int, bfi as int, old(self).last_ener_pit as int, old(self).last_ener_cod as int);
            assert(pit == en.0 && cod == en.1);
            assert(code_energy(tables, a_s, code@, 60) == code_energy(tables, a_s, code_spec, 60));
            let g = decoded_gains(
                en.0,
                en.1,
                pitch_energy(tables, a_s, ex1.subrange(eb as int, eb + 60), 60),
                code_energy(tables, a_s, code_spec, 60),
            );
            assert(ga == g.0 && gi == g.1);
            assert forall|q: int| 0 <= q < 398 implies #[trigger] self.old_exc@[q] == step.0.0[q] by {
                if eb <= q < eb + 60 {
                    assert(exc2[eb + (q - eb)] == shift32_round(
                        sat32(exc1[eb + (q - eb)] * ga + code_spec[q - eb] * gi),
                        12,
                    ) as i16);
                }
            }
            assert(self.old_exc@ =~= step.0.0);
        }
        (t0, t0_min)
    }
}

impl Decoder {
    /// Decode one frame from `[BFI, 23 parameters]` into `synth` (before
    /// post-processing), updating the decoder state.
    #[verifier::rlimit(60)]
    fn decode_core(&mut self, parm_in: &FrameParams, synth: &mut [Word16; 240])
        requires
            old(self).wf(),
            parm_in[0] == 0 ==> params_fit(parm_in@.subrange(1, 24)),
        ensures
            final(self).wf(),
            final(self).codec_tables() == old(self).codec_tables(),
            final(self).state() == decode_result(old(self).codec_tables(), old(self).state(), parm_in@).0,
            final(synth)@ == decode_result(old(self).codec_tables(), old(self).state(), parm_in@).1,
    {
        let ghost st = self.state();
        let ghost tables = self.tables;
        let bfi = parm_in[0];
        let mut parm = [0i16; 23];
        let mut i: usize = 0;
        while i < 23
            invariant
                i <= 23,
                forall|q: int| 0 <= q < i ==> #[trigger] parm@[q] == parm_in@[q + 1],
            decreases 23 - i,
        {
            parm[i] = parm_in[i + 1];
            i = i + 1;
        }
        proof {
            assert(parm@ =~= parm_in@.subrange(1, 24));
        }
        if bfi == 0 {
            proof {
                lemma_field_range(parm@, 0);
                lemma_field_range(parm@, 1);
                lemma_field_range(parm@, 2);
            }
            let mut lspnew = self.lspnew;
            decode_lsp(&self.tables, &parm, &mut lspnew, &self.lspold);
            self.lspnew = lspnew;
            self.old_parm = parm;
            proof {
                assert(self.lspnew@ =~= next_lsp(tables, st, parm_in@));
            }
        } else {
            let mut i: usize = 1;
            while i < 10
                invariant
                    1 <= i <= 10,
                    self.lspold@ == st.lspold,
                    self.lspnew@[0] == st.lspnew[0],
                    forall|q: int| 1 <= q < i ==> #[trigger] self.lspnew@[q] == st.lspold[q],
                    self.tables == tables,
                    self.wf(),
                    self.old_exc@ == st.exc,
                    self.mem_syn@ == st.mem,
                    self.old_parm@ == st.old_parm,
                    self.old_t0 == st.old_t0,
                    self.last_ener_pit == st.ener_pit,
                    self.last_ener_cod == st.ener_cod,
                decreases 10 - i,
            {
                self.lspnew[i] = self.lspold[i];
                i = i + 1;
            }
            parm = self.old_parm;
            proof {
                assert(self.lspnew@ =~= next_lsp(tables, st, parm_in@));
            }
        }
        let ghost prm = frame_params(st, parm_in@);
        let ghost lspnew = next_lsp(tables, st, parm_in@);
        proof {
            assert(parm@ == prm);
            assert(self.old_parm@ == prm);
        }
        let mut a_t = [0i16; 44];
        interpolate_lp(&self.lspold, &self.lspnew, &mut a_t);
        proof {
            assert forall|n: int| 0 <= n < 44 implies #[trigger] a_t@[n] == frame_filters(st.lspold, lspnew)[n] by {
                if n < 33 {
                    let k = n / 11;
                    let q = n % 11;
                    assert(a_t@[11 * k + q] == lp_from_lsp(interpolated_lsp(st.lspold, lspnew, k))[q]);
                } else {
                    assert(a_t@[33 + (n - 33)] == lp_from_lsp(lspnew)[n - 33]);
                }
            }
            assert(a_t@ =~= frame_filters(st.lspold, lspnew));
        }
        self.lspold = self.lspnew;
        let ghost init: SubframeState = (st.exc, st.mem, 0, 0, st.ener_pit, st.ener_cod);
        let mut t0: Word16 = 0;
        let mut t0_min: Word16 = 0;
        let mut sf: usize = 0;
        while sf < 4
            invariant
                sf <= 4,
                self.wf(),
                self.tables == tables,
                params_fit(parm@),
                parm@ == prm,
                a_t@ == frame_filters(st.lspold, lspnew),
                self.lspold@ == lspnew,
                self.lspnew@ == lspnew,
                self.old_parm@ == prm,
                self.old_t0 == st.old_t0,
                init == (st.exc, st.mem, 0int, 0int, st.ener_pit, st.ener_cod),
                sf > 0 ==> 20 <= t0_min <= 134 && 19 <= t0 <= 144,
                ({
                    let r = decode_subframes(
                        tables,
                        gamma_factors(24576),
                        gamma_factors(27853),
                        a_t@,
                        prm,
                        bfi as int,
                        st.old_t0,
                        init,
                        sf as nat,
                    );
                    &&& self.old_exc@ == r.0.0
                    &&& self.mem_syn@ == r.0.1
                    &&& sf > 0 ==> t0 == r.0.2 && t0_min == r.0.3
                    &&& sf == 0 ==> t0 == 0 && t0_min == 0
                    &&& self.last_ener_pit == r.0.4
                    &&& self.last_ener_cod == r.0.5
                    &&& synth@.take(60 * sf) == r.1
                    &&& r.1.len() == 60 * sf
                }),
            decreases 4 - sf,
        {
            let mut out = [0i16; 60];
            let ghost r_prev = decode_subframes(
                tables,
                gamma_factors(24576),
                gamma_factors(27853),
                a_t@,
                prm,
                bfi as int,
                st.old_t0,
                init,
                sf as nat,
            );
            proof {
                assert(sf == 0 ==> r_prev.0 == init);
                assert(self.old_exc@ == r_prev.0.0);
                assert(self.mem_syn@ == r_prev.0.1);
                assert(t0 as int == r_prev.0.2);
                assert(t0_min as int == r_prev.0.3);
                assert(self.last_ener_pit as int == r_prev.0.4);
                assert(self.last_ener_cod as int == r_prev.0.5);
                assert((self.old_exc@, self.mem_syn@, t0 as int, t0_min as int, self.last_ener_pit as int, self.last_ener_cod as int) == r_prev.0);
            }
            let (nt0, nmin) = self.decode_subframe(&a_t, &parm, bfi, sf, t0, t0_min, &mut out);
            let ghost before = synth@;
            let mut k: usize = 0;
            while k < 60
                invariant
                    k <= 60,
                    sf < 4,
                    forall|q: int| 0 <= q < 60 * sf ==> #[trigger] synth@[q] == before[q],
                    forall|q: int| 0 <= q < k ==> #[trigger] synth@[60 * sf + q] == out@[q],
                decreases 60 - k,
            {
                synth[60 * sf + k] = out[k];
                k = k + 1;
            }
            proof {
                let r = decode_subframes(
                    tables,
                    gamma_factors(24576),
                    gamma_factors(27853),
                    a_t@,
                    prm,
                    bfi as int,
                    st.old_t0,
                    init,
                    sf as nat,
                );
                assert(sf == 0 ==> r.0 == init);
                assert forall|q: int| 0 <= q < 60 * sf + 60 implies #[trigger] synth@.take(60 * sf + 60)[q] == (r.1 + out@)[q] by {
                    if q < 60 * sf {
                        assert(synth@[q] == before[q]);
                        assert(before.take(60 * sf)[q] == r.1[q]);
                    } else {
                        assert(synth@[60 * sf + (q - 60 * sf)] == out@[q - 60 * sf]);
                    }
                }
                assert(synth@.take(60 * sf + 60) =~= r.1 + out@);
                let step = decode_subframe_spec(
                    tables,
                    gamma_factors(24576),
                    gamma_factors(27853),
                    a_t@,
                    prm,
                    bfi as int,
                    st.old_t0,
                    r.0,
                    sf as int,
                );
                assert(step.1 == out@);
                assert(step.1.len() == 60);
                let r2 = decode_subframes(
                    tables,
                    gamma_factors(24576),
                    gamma_factors(27853),
                    a_t@,
                    prm,
                    bfi as int,
                    st.old_t0,
                    init,
                    (sf + 1) as nat,
                );
                assert(r2.1 == r.1 + out@);
                assert(r2.1.len() == 60 * sf + 60);
            }
            t0 = nt0;
            t0_min = nmin;
            sf = sf + 1;
        }
        let ghost exc4 = self.old_exc@;
        let ghost mem4 = self.mem_syn@;
        let ghost pit4 = self.last_ener_pit;
        let ghost cod4 = self.last_ener_cod;
        let mut k: usize = 0;
        while k < 158
            invariant
                k <= 158,
                self.mem_syn@ == mem4,
                self.last_ener_pit == pit4,
                self.last_ener_cod == cod4,
                self.old_t0 == st.old_t0,
                self.old_exc@.len() == 398,
                forall|q: int| 0 <= q < k ==> #[trigger] self.old_exc@[q] == exc4[q + 240],
                forall|q: int| k <= q < 398 ==> #[trigger] self.old_exc@[q] == exc4[q],
                self.wf(),
                self.tables == tables,
                self.lspold@ == lspnew,
                self.lspnew@ == lspnew,
                self.old_parm@ == prm,
            decreases 158 - k,
        {
            self.old_exc[k] = self.old_exc[k + 240];
            k = k + 1;
        }
        self.old_t0 = t0;
        proof {
            let r = decode_result(tables, st, parm_in@);
            let rs = decode_subframes(
                tables,
                gamma_factors(24576),
                gamma_factors(27853),
                frame_filters(st.lspold, lspnew),
                prm,
                bfi as int,
                st.old_t0,
                init,
                4,
            );
            assert(self.old_exc@ =~= r.0.exc);
            assert(self.mem_syn@ == rs.0.1);
            assert(self.old_t0 == rs.0.2);
            assert(self.state().mem == r.0.mem);
            assert(self.state().old_t0 == r.0.old_t0);
            assert(self.state().lspold == r.0.lspold);
            assert(self.state().old_parm == r.0.old_parm);
            assert(self.state().ener_pit == r.0.ener_pit);
            assert(self.state().ener_cod == r.0.ener_cod);
            assert(self.state().exc == r.0.exc);
            assert(synth@.take(240) =~= synth@);
        }
    }

    /// Decode one frame from `[BFI, 23 parameters]` into 240 PCM samples.
    /// On a bad frame (`parm[0] != 0`) the received parameters are ignored
    /// and the previous good frame's are used for concealment.
    pub fn decode_frame(&mut self, parm: &FrameParams) -> (synth: [Word16; 240])
        requires
            old(self).wf(),
            parm[0] == 0 ==> params_fit(parm@.subrange(1, 24)),
        ensures
            final(self).wf(),
            final(self).codec_tables() == old(self).codec_tables(),
            final(self).state() == decode_result(old(self).codec_tables(), old(self).state(), parm@).0,
            synth@ == postprocessed(decode_result(old(self).codec_tables(), old(self).state(), parm@).1),
    {
        let mut synth = [0i16; 240];
        self.decode_core(parm, &mut synth);
        let ghost raw = synth@;
        postprocess(&mut synth);
        proof {
            assert(synth@ =~= postprocessed(raw));
        }
        synth
    }
}

/// The part of a decoder state that good frames read and update.
pub open spec fn synthesis_part(st: DecoderState) -> (Seq<Word16>, Seq<Word16>, Seq<Word16>, int, int) {
    (st.exc, st.mem, st.lspold, st.ener_pit, st.ener_cod)
}

/// On a good frame a subframe does not depend on the previous lag, the
/// last good lag, or (in the first subframe) the lag range.
pub proof fn lemma_subframe_history(
    tables: CodecTables,
    fac3: Seq<Word16>,
    fac4: Seq<Word16>,
    a: Seq<Word16>,
    q: Seq<Word16>,
    t_a: int,
    t_b: int,
    m_a: int,
    m_b: int,
    old_a: int,
    old_b: int,
    exc: Seq<Word16>,
    mem: Seq<Word16>,
    pit: int,
    cod: int,
    s: int,
)
    requires
        s == 0 || m_a == m_b,
    ensures
        subframe_from_params(tables, fac3, fac4, a, q, 0, old_a, (exc, mem, t_a, m_a, pit, cod), s)
            == subframe_from_params(tables, fac3, fac4, a, q, 0, old_b, (exc, mem, t_b, m_b, pit, cod), s),
{
    reveal(subframe_from_params);
    assert(pitch_lag(s, 0, q[0] as int, t_a, m_a, old_a) == pitch_lag(s, 0, q[0] as int, t_b, m_b, old_b));
}

/// The first `k` subframes read only the parameters of those subframes.
pub proof fn lemma_subframes_prefix(
    tables: CodecTables,
    fac3: Seq<Word16>,
    fac4: Seq<Word16>,
    a_all: Seq<Word16>,
    p: Seq<Word16>,
    q: Seq<Word16>,
    bfi: int,
    old_t0: int,
    init: SubframeState,
    k: nat,
)
    requires
        k <= 4,
        p.len() == 23,
        q.len() == 23,
        forall|i: int| 3 <= i < 3 + 5 * k ==> #[trigger] p[i] == q[i],
    ensures
        decode_subframes(tables, fac3, fac4, a_all, p, bfi, old_t0, init, k) == decode_subframes(
            tables,
            fac3,
            fac4,
            a_all,
            q,
            bfi,
            old_t0,
            init,
            k,
        ),
    decreases k,
{
    if k > 0 {
        lemma_subframes_prefix(tables, fac3, fac4, a_all, p, q, bfi, old_t0, init, (k - 1) as nat);
        let s = k - 1;
        assert(p.subrange(3 + 5 * s, 8 + 5 * s) =~= q.subrange(3 + 5 * s, 8 + 5 * s));
    }
}

/// On good frames the subframes do not depend on the last good lag.
pub proof fn lemma_subframes_old_lag(
    tables: CodecTables,
    fac3: Seq<Word16>,
    fac4: Seq<Word16>,
    a_all: Seq<Word16>,
    p: Seq<Word16>,
    old_a: int,
    old_b: int,
    init: SubframeState,
    k: nat,
)
    ensures
        decode_subframes(tables, fac3, fac4, a_all, p, 0, old_a, init, k) == decode_subframes(
            tables,
            fac3,
            fac4,
            a_all,
            p,
            0,
            old_b,
            init,
            k,
        ),
    decreases k,
{
    if k > 0 {
        lemma_subframes_old_lag(tables, fac3, fac4, a_all, p, old_a, old_b, init, (k - 1) as nat);
        let prev = decode_subframes(tables, fac3, fac4, a_all, p, 0, old_a, init, (k - 1) as nat);
        let s = k - 1;
        lemma_subframe_history(
            tables,
            fac3,
            fac4,
            a_all.subrange(11 * s, 11 * s + 11),
            p.subrange(3 + 5 * s, 8 + 5 * s),
            prev.0.2,
            prev.0.2,
            prev.0.3,
            prev.0.3,
            old_a,
            old_b,
            prev.0.0,
            prev.0.1,
            prev.0.4,
            prev.0.5,
            s,
        );
    }
}

/// On a good frame, what the decoder produces and keeps for later good
/// frames depends only on the synthesis part of its state.
pub proof fn lemma_good_frame_depends_on_synthesis_part(
    tables: CodecTables,
    a: DecoderState,
    b: DecoderState,
    parm: Seq<Word16>,
)
    requires
        synthesis_part(a) == synthesis_part(b),
        parm.len() == 24,
        parm[0] == 0,
    ensures
        synthesis_part(decode_result(tables, a, parm).0) == synthesis_part(decode_result(tables, b, parm).0),
        decode_result(tables, a, parm).1 == decode_result(tables, b, parm).1,
{
    let lspnew = next_lsp(tables, a, parm);
    assert(lspnew == next_lsp(tables, b, parm));
    assert(frame_params(a, parm) == frame_params(b, parm));
    lemma_subframes_old_lag(
        tables,
        gamma_factors(24576),
        gamma_factors(27853),
        frame_filters(a.lspold, lspnew),
        frame_params(a, parm),
        a.old_t0,
        b.old_t0,
        (a.exc, a.mem, 0, 0, a.ener_pit, a.ener_cod),
        4,
    );
}

} // verus!
