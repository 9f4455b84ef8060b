//! TETRA speech source encoder (clause 4.2.2).
//!
//! Analysis-by-synthesis ACELP encoder: pre-processing, LP analysis, LSP
//! quantisation, open- and closed-loop pitch analysis, algebraic codebook
//! search, gain quantisation and serial bit packing.

use crate::accumulate::{lemma_mac_step, mac_acc};
use crate::decoder::{
    code_energy, code_sample, codebook_energies, decode_codebook, decode_gains, decode_lsp,
    decoded_gains, decoded_lsp, lsp_codebook_vector, lsp_ordered, energy_mantissa, energy_prediction, log2_q16, next_energies,
    gamma_factors, pitch_energy, pitch_lag, predict_energy, shaping, shaping_response,
    subframe_from_params, SubframeState, decode_result, decode_subframes, frame_filters, DecoderState,
    lemma_subframe_history, lemma_subframes_prefix, next_lsp, frame_params, params_fit, postprocessed,
    LSP_INIT,
};
use crate::dsp::{autocorr_value, lag_windowed};
use crate::dsp::{
    apply_lag_window, autocorrelation, interpolate_lp, interpolated_lsp, levinson_durbin, lp_from_lsp,
    lp_to_lsp, postprocess, weight_factors,
};
use crate::layout::param_fits;
use crate::fixed::math::{inv_sqrt, inv_sqrt_value, log2};
use crate::dsp::{
    backward_filter, convolution, lemma_ltp_overwrites, lemma_synthesis_buffer_len, long_term_predict,
    ltp_buffer, lp_residual, synthesis_filter, synthesis_output, weight_lp,
};
use crate::fixed::ext::{dpf_split, mul_dpf, mul_dpf_value, split_hi, split_lo};
use crate::fixed::dsp_ops::{lemma_norm_l_value, norm_l_value};
use crate::fixed::ext::div_s_value;
use crate::fixed::math::lemma_normalised;
use crate::fixed::overflow::{occurred, reset, OverflowFlag};
use crate::fixed::dsp_ops::{add_shifted, int_to_bits, load_shifted, sub_shifted};
use crate::fixed::dsp_ops::{add_high16, load_high16, store_high, sub_high16};
use crate::fixed::ops::{
    abs_s, div_s_pure, extract_h, extract_l, l_abs, l_add_pure, l_mac_pure, l_mac0_pure, l_mac0, l_msu_pure, l_msu0_pure,
    l_mult_pure, l_mult0, l_shl_pure, l_shr_pure, l_shr_r_pure, l_sub_pure, out32, shift32_round, mult_pure, norm_l, sat16, sat32, shift16, shift32, shl_pure, shr_pure,
};
use crate::fixed::{Word16, Word32, MAX_32};
use crate::layout::{bits_msb_first, lemma_layout, offset, width, BITNO};
use crate::tables::CodecTables;
use crate::analysis::{
    analysed_lsp, encode_step, frame_analysis, initial_lag_range, subframes_run, EncoderView, lemma_nearest_entry, lp_analysis, lsp_indices, innovation_choice, lemma_subframe_analysis, weighted_run, pitch_index_value, residual_of, subframe_analysis,
    unit_impulse, weighted_lp, written, zeros, SubframeCarry,
};
use vstd::arithmetic::power2::{lemma2_to64, pow2};
use vstd::prelude::*;

verus! {

/// The 23-parameter encoder output for one 30 ms frame.
pub type FrameParams = [Word16; 23];

/// Pack the 23 parameters into a serial bit stream: `bits[0]` is the BFI
/// flag (0 at the encoder) followed by the 137 source-coded bits, each
/// parameter MSB first in its field. Slots past 138 are left unchanged.
pub fn params_to_bits(prm: &FrameParams, bits: &mut [Word16])
    requires
        old(bits)@.len() >= 138,
    ensures
        final(bits)@.len() == old(bits)@.len(),
        final(bits)@[0] == 0,
        forall|k: int|
            0 <= k < 23 ==> #[trigger] final(bits)@.subrange(offset(k), offset(k) + width(k))
                == bits_msb_first(prm[k] as int, width(k) as nat),
        forall|p: int| 138 <= p < old(bits)@.len() ==> #[trigger] final(bits)@[p] == old(bits)@[p],
{
    bits[0] = 0;
    let mut pos: usize = 1;
    let mut i: usize = 0;
    while i < 23
        invariant
            i <= 23,
            bits@.len() == old(bits)@.len(),
            old(bits)@.len() >= 138,
            pos == offset(i as int),
            bits@[0] == 0,
            forall|k: int|
                0 <= k < i ==> #[trigger] bits@.subrange(offset(k), offset(k) + width(k))
                    == bits_msb_first(prm[k] as int, width(k) as nat),
            forall|p: int| 138 <= p < old(bits)@.len() ==> #[trigger] bits@[p] == old(bits)@[p],
        decreases 23 - i,
    {
        let n = BITNO[i];
        proof {
            lemma_layout(i as int);
        }
        let mut field = [0i16; 14];
        int_to_bits(prm[i], n, &mut field);
        let ghost before = bits@;
        let mut t: usize = 0;
        while t < n
            invariant
                t <= n <= 14,
                n == width(i as int),
                pos == offset(i as int),
                pos + n <= 138,
                bits@.len() == before.len(),
                before.len() == old(bits)@.len(),
                before.len() >= 138,
                forall|q: int| 0 <= q < pos ==> #[trigger] bits@[q] == before[q],
                forall|q: int| pos + n <= q < before.len() ==> #[trigger] bits@[q] == before[q],
                forall|q: int| 0 <= q < t ==> #[trigger] bits@[pos + q] == field@[q],
            decreases n - t,
        {
            bits[pos + t] = field[t];
            t = t + 1;
        }
        proof {
            assert forall|q: int| 0 <= q < n implies #[trigger] bits@.subrange(pos as int, pos + n)[q]
                == bits_msb_first(prm[i as int] as int, n as nat)[q] by {
                assert(bits@[pos + q] == field@[q]);
            }
            assert(bits@.subrange(pos as int, pos + n) =~= bits_msb_first(prm[i as int] as int, n as nat));
            assert forall|k: int| 0 <= k < i implies #[trigger] bits@.subrange(offset(k), offset(k) + width(k))
                == bits_msb_first(prm[k] as int, width(k) as nat) by {
                lemma_layout(k);
                crate::layout::lemma_offset_monotone(k + 1, i as int);
                assert(offset(k) + width(k) <= pos);
                assert(bits@.subrange(offset(k), offset(k) + width(k)) =~= before.subrange(offset(k), offset(k) + width(k)));
            }
        }
        pos = pos + n;
        i = i + 1;
    }
    proof {
        assert forall|k: int| 0 <= k < 23 implies #[trigger] bits@.subrange(offset(k), offset(k) + width(k))
            == bits_msb_first(prm[k] as int, width(k) as nat) by {
        }
    }
}

/// One step of the input pre-processing filter (offset compensation and
/// division by two): from state `(y_hi, y_lo, x0)` and the input sample,
/// the new state and the output sample.
pub open spec fn pre_step(st: (int, int, int), x: int) -> ((int, int, int), int) {
    let l0 = sat32(x * 32768 - st.2 * 32768);
    let l1 = sat32(l0 + sat32(2 * st.0 * 32735));
    let l = sat32(l1 + sat16((st.1 * 32735) / 32768) * 2);
    let hi = l / 65536;
    ((hi, sat32(shift32(l, -1) - hi * 32768) as i16 as int, x), hi)
}

/// The pre-processing filter run over `x[0..k]`: the final state and the
/// output samples.
pub open spec fn pre_run(st: (int, int, int), x: Seq<Word16>, k: nat) -> ((int, int, int), Seq<Word16>)
    decreases k,
{
    if k == 0 {
        (st, Seq::empty())
    } else {
        let prev = pre_run(st, x, (k - 1) as nat);
        let step = pre_step(prev.0, x[k - 1] as int);
        (step.0, prev.1.push(step.1 as i16))
    }
}

/// Law: the pre-processing filter is a high-pass that lets no constant
/// through: when the input repeats the previous input sample, the new
/// output lies between zero and the previous output, so a constant input
/// decays instead of growing. (The low part of the state stays a 15-bit
/// fraction, so the law applies again at the next sample.)
pub proof fn law_preprocess_blocks_constant(st: (int, int, int), x: int)
    requires
        -32768 <= st.0 <= 32767,
        0 <= st.1 <= 32767,
        x == st.2,
    ensures
        ({
            let (st2, y) = pre_step(st, x);
            &&& y == st2.0
            &&& st.0 >= 0 ==> 0 <= y <= st.0
            &&& st.0 < 0 ==> st.0 <= y <= 0
            &&& 0 <= st2.1 <= 32767
            &&& st2.2 == x
        }),
{
    lemma2_to64();
    let hi = st.0;
    let lo = st.1;
    assert(-0x7fff_ffff <= 2 * hi * 32735 <= 0x7fff_ffff && 2 * hi * 32735 == 65470 * hi) by (nonlinear_arith)
        requires
            -32768 <= hi <= 32767,
    ;
    assert(0 <= lo * 32735 <= 32767 * 32735) by (nonlinear_arith)
        requires
            0 <= lo <= 32767,
    ;
    let t = (lo * 32735) / 32768;
    vstd::arithmetic::div_mod::lemma_fundamental_div_mod(lo * 32735, 32768);
    assert(0 <= t < 32767);
    let l = 65470 * hi + 2 * t;
    assert(x * 32768 - st.2 * 32768 == 0);
    let q = l / 65536;
    let r = l % 65536;
    vstd::arithmetic::div_mod::lemma_fundamental_div_mod(l, 65536);
    assert(l == 65536 * q + r && 0 <= r < 65536);
    if hi >= 0 {
        assert(0 <= q <= hi);
    } else {
        assert(hi <= q <= 0);
    }
    let h = r / 2;
    vstd::arithmetic::div_mod::lemma_fundamental_div_mod(r, 2);
    vstd::arithmetic::div_mod::lemma_fundamental_div_mod_converse(l, 2, 32768 * q + h, r % 2);
    assert(l / 2 - q * 32768 == h);
    assert(pre_step(st, x).1 == q);
    assert(0 <= h <= 32767);
}

/// Input pre-processing filter state: high-pass offset compensation and
/// division by two.
#[derive(Clone, Copy)]
pub struct PreProcess {
    y_hi: Word16,
    y_lo: Word16,
    x0: Word16,
}

impl PreProcess {
    /// The filter state `(y_hi, y_lo, x0)`.
    pub closed spec fn view_state(&self) -> (int, int, int) {
        (self.y_hi as int, self.y_lo as int, self.x0 as int)
    }

    /// A filter at rest.
    pub fn new() -> (p: Self)
        ensures
            p.view_state() == (0int, 0int, 0int),
    {
        PreProcess { y_hi: 0, y_lo: 0, x0: 0 }
    }

    /// Filter `signal` in place, sample by sample.
    pub fn process(&mut self, signal: &mut [Word16])
        ensures
            final(signal)@.len() == old(signal)@.len(),
            final(signal)@ == pre_run(old(self).view_state(), old(signal)@, old(signal)@.len()).1,
            final(self).view_state() == pre_run(old(self).view_state(), old(signal)@, old(signal)@.len()).0,
    {
        let ghost x = signal@;
        let ghost st0 = self.view_state();
        let mut i: usize = 0;
        while i < signal.len()
            invariant
                i <= signal@.len(),
                signal@.len() == x.len(),
                forall|k: int| i <= k < x.len() ==> #[trigger] signal@[k] == x[k],
                signal@.take(i as int) == pre_run(st0, x, i as nat).1,
                self.view_state() == pre_run(st0, x, i as nat).0,
            decreases x.len() - i,
        {
            proof {
                lemma2_to64();
            }
            let x1 = self.x0;
            self.x0 = signal[i];
            let mut l = load_shifted(self.x0, 15);
            l = sub_shifted(l, x1, 15);
            l = l_mac_pure(l, self.y_hi, 32735);
            l = add_shifted(l, mult_pure(self.y_lo, 32735), 1);
            let ghost before = signal@;
            signal[i] = extract_h(l);
            self.y_hi = extract_h(l);
            self.y_lo = extract_l(sub_shifted(l_shr_pure(l, 1), self.y_hi, 15));
            proof {
                assert(signal@.take(i + 1) =~= before.take(i as int).push(signal@[i as int]));
            }
            i = i + 1;
        }
        proof {
            assert(signal@.take(x.len() as int) =~= signal@);
        }
    }
}

/// `s[c + i - back]` against `taps[i]`, eight taps, accumulated from zero.
pub open spec fn interpolation_8(x: Seq<Word16>, start: int, taps: Seq<Word16>) -> int {
    mac_acc(0, x.subrange(start, start + 8), taps)
}

/// Eight taps of `x` from `start` against `taps`, accumulated from zero.
fn taps_8(x: &[Word16], start: usize, taps: &[Word16; 8]) -> (s: Word32)
    requires
        start + 8 <= x@.len(),
    ensures
        s == interpolation_8(x@, start as int, taps@),
{
    let ghost xs = x@.subrange(start as int, start + 8);
    let xl = x.len();
    let mut s: Word32 = 0;
    let mut i: usize = 0;
    while i < 8
        invariant
            i <= 8,
            xl == x@.len(),
            start + 8 <= x@.len(),
            xs == x@.subrange(start as int, start + 8),
            s == mac_acc(0, xs.take(i as int), taps@.take(i as int)),
        decreases 8 - i,
    {
        proof {
            lemma_mac_step(0, xs, taps@, i as int);
        }
        s = l_mac0_pure(s, x[start + i], taps[i]);
        i = i + 1;
    }
    proof {
        assert(xs.take(8) =~= xs);
        assert(taps@.take(8) =~= taps@);
    }
    s
}

/// 8-tap interpolation at -1/3 around `x[c]` (taps over `x[c-4..=c+3]`).
pub fn interpolate_down_8(tables: &CodecTables, x: &[Word16], c: usize) -> (s: Word32)
    requires
        c >= 4,
        c + 4 <= x@.len(),
    ensures
        s == interpolation_8(x@, c - 4, tables.inter8_m1_3@),
{
    taps_8(x, c - 4, &tables.inter8_m1_3)
}

/// 8-tap interpolation at +1/3 around `x[c]` (taps over `x[c-3..=c+4]`).
pub fn interpolate_up_8(tables: &CodecTables, x: &[Word16], c: usize) -> (s: Word32)
    requires
        c >= 3,
        c + 5 <= x@.len(),
    ensures
        s == interpolation_8(x@, c - 3, tables.inter8_1_3@),
{
    taps_8(x, c - 3, &tables.inter8_1_3)
}

/// The squared distance between `lsp[off..off + dim]` and codebook entry
/// `i` of dimension `dim`, over the first `j` components, with the
/// codec's saturating arithmetic.
pub open spec fn vq_partial(lsp: Seq<Word16>, cb: Seq<Word16>, dim: int, off: int, i: int, j: int) -> int
    decreases j,
{
    let t = sat16(lsp[off + j - 1] - cb[i * dim + j - 1]);
    if j <= 1 {
        t * t
    } else {
        sat32(vq_partial(lsp, cb, dim, off, i, j - 1) + t * t)
    }
}

/// Whether `ind` is the first entry of least distance among `n` entries.
pub open spec fn first_nearest(lsp: Seq<Word16>, cb: Seq<Word16>, dim: int, off: int, n: int, ind: int) -> bool {
    &&& 0 <= ind < n
    &&& forall|j: int| 0 <= j < n ==> vq_partial(lsp, cb, dim, off, ind, dim) <= #[trigger] vq_partial(lsp, cb, dim, off, j, dim)
    &&& forall|j: int| 0 <= j < ind ==> vq_partial(lsp, cb, dim, off, ind, dim) < #[trigger] vq_partial(lsp, cb, dim, off, j, dim)
}

/// The first nearest entry of a split-VQ codebook of `n` entries of
/// dimension `dim` to `lsp[off..off + dim]`.
fn nearest_entry(lsp: &[Word16], cb: &[Word16], dim: usize, off: usize, n: usize) -> (ind: usize)
    requires
        1 <= dim <= 4,
        n >= 1,
        n * dim <= cb@.len(),
        off + dim <= lsp@.len(),
        n <= 512,
    ensures
        first_nearest(lsp@, cb@, dim as int, off as int, n as int, ind as int),
{
    let mut min: Word32 = MAX_32;
    let mut ind: usize = 0;
    let ll = lsp.len();
    let cl = cb.len();
    let mut i: usize = 0;
    while i < n
        invariant
            i <= n,
            ll == lsp@.len(),
            cl == cb@.len(),
            1 <= dim <= 4,
            n >= 1,
            n * dim <= cb@.len(),
            off + dim <= lsp@.len(),
            n <= 512,
            ind < n,
            i == 0 ==> ind == 0 && min == MAX_32,
            i > 0 ==> ind < i && min == vq_partial(lsp@, cb@, dim as int, off as int, ind as int, dim as int),
            forall|j: int| 0 <= j < i ==> min <= #[trigger] vq_partial(lsp@, cb@, dim as int, off as int, j, dim as int),
            forall|j: int| 0 <= j < ind ==> min < #[trigger] vq_partial(lsp@, cb@, dim as int, off as int, j, dim as int),
        decreases n - i,
    {
        proof {
            assert(i * dim + dim <= n * dim) by (nonlinear_arith)
                requires
                    i < n,
            ;
        }
        let mut temp = crate::fixed::ops::sub_pure(lsp[off], cb[i * dim]);
        let mut dist = l_mult0(temp, temp);
        let mut j: usize = 1;
        while j < dim
            invariant
                1 <= j <= dim <= 4,
                i < n,
                ll == lsp@.len(),
                cl == cb@.len(),
                i * dim + dim <= cb@.len(),
                off + dim <= lsp@.len(),
                dist == vq_partial(lsp@, cb@, dim as int, off as int, i as int, j as int),
            decreases dim - j,
        {
            temp = crate::fixed::ops::sub_pure(lsp[off + j], cb[i * dim + j]);
            dist = l_mac0_pure(dist, temp, temp);
            j = j + 1;
        }
        if l_sub_pure(dist, min) < 0 {
            min = dist;
            ind = i;
        }
        i = i + 1;
    }
    ind
}

/// Split vector quantisation of the LSPs (split-3 VQ in the cosine
/// domain): each sub-vector takes the first nearest codebook entry; the
/// quantised set is then adjusted and checked exactly as the decoder does,
/// so `lsp_q` is the decoder's [`decoded_lsp`] of the three indices, and it
/// becomes the new fallback set `lsp_old_q`.
pub fn quantize_lsp(
    tables: &CodecTables,
    lsp: &[Word16],
    lsp_q: &mut [Word16],
    indice: &mut [Word16],
    lsp_old_q: &mut [Word16; 10],
)
    requires
        lsp@.len() >= 10,
        old(lsp_q)@.len() >= 10,
        old(indice)@.len() >= 3,
    ensures
        final(lsp_q)@.len() == old(lsp_q)@.len(),
        final(indice)@.len() == old(indice)@.len(),
        first_nearest(lsp@, tables.dico1_clsp@, 3, 0, 256, final(indice)@[0] as int),
        first_nearest(lsp@, tables.dico2_clsp@, 3, 3, 512, final(indice)@[1] as int),
        first_nearest(lsp@, tables.dico3_clsp@, 4, 6, 512, final(indice)@[2] as int),
        forall|i: int|
            0 <= i < 10 ==> #[trigger] final(lsp_q)@[i] == decoded_lsp(
                *tables,
                final(indice)@[0] as int,
                final(indice)@[1] as int,
                final(indice)@[2] as int,
                old(lsp_old_q)@,
            )[i],
        final(lsp_old_q)@ == final(lsp_q)@.take(10),
        final(lsp_old_q)@ == (if lsp_ordered(
            lsp_codebook_vector(
                *tables,
                final(indice)@[0] as int,
                final(indice)@[1] as int,
                final(indice)@[2] as int,
            ),
        ) {
            lsp_codebook_vector(
                *tables,
                final(indice)@[0] as int,
                final(indice)@[1] as int,
                final(indice)@[2] as int,
            )
        } else {
            old(lsp_old_q)@
        }),
        lsp_ordered(old(lsp_old_q)@) ==> lsp_ordered(final(lsp_old_q)@),
        forall|i: int| 10 <= i < old(lsp_q)@.len() ==> #[trigger] final(lsp_q)@[i] == old(lsp_q)@[i],
        forall|i: int| 3 <= i < old(indice)@.len() ==> #[trigger] final(indice)@[i] == old(indice)@[i],
{
    let i0 = nearest_entry(lsp, &tables.dico1_clsp, 3, 0, 256);
    let i1 = nearest_entry(lsp, &tables.dico2_clsp, 3, 3, 512);
    let i2 = nearest_entry(lsp, &tables.dico3_clsp, 4, 6, 512);
    indice[0] = i0 as Word16;
    indice[1] = i1 as Word16;
    indice[2] = i2 as Word16;
    let ind = [i0 as Word16, i1 as Word16, i2 as Word16];
    let old_q = *lsp_old_q;
    decode_lsp(tables, &ind, lsp_q, &old_q);
    let mut k: usize = 0;
    while k < 10
        invariant
            k <= 10,
            lsp_q@.len() >= 10,
            forall|q: int| 0 <= q < k ==> #[trigger] lsp_old_q@[q] == lsp_q@[q],
        decreases 10 - k,
    {
        lsp_old_q[k] = lsp_q[k];
        k = k + 1;
    }
    proof {
        assert(lsp_old_q@ =~= lsp_q@.take(10));
    }
}

/// Algebraic (innovative) codebook search over the four interleaved pulse
/// tracks, with a time budget and two pruning thresholds (see
/// [`crate::acelp_search::codebook_choice`]). `f` and `h` are the shaping
/// and combined impulse responses with their origin at index 64. Returns
/// `(index, sign, shift)`; `cod` and `y` receive the code vector and its
/// filtered version, exactly as the decoder rebuilds them from these three
/// parameters.
#[verifier::rlimit(40)]
pub fn search_codebook(
    dn: &mut [Word16],
    f: &[Word16],
    h: &[Word16],
    cod: &mut [Word16],
    y: &mut [Word16],
) -> (r: (Word16, Word16, Word16))
    requires
        old(dn)@.len() >= 64,
        f@.len() >= 124,
        h@.len() >= 124,
        old(cod)@.len() >= 60,
        old(y)@.len() >= 60,
    ensures
        (r.0 as int, r.1 as int, r.2 as int) == crate::acelp_search::codebook_choice(old(dn)@, h@),
        0 <= r.0 < 16384,
        r.1 == 0 || r.1 == 1,
        r.2 == 0 || r.2 == 1,
        final(dn)@.len() == old(dn)@.len(),
        forall|i: int| 0 <= i < 60 ==> #[trigger] final(dn)@[i] == old(dn)@[i],
        forall|i: int| 60 <= i < 64 ==> #[trigger] final(dn)@[i] == 0,
        final(cod)@.len() == old(cod)@.len(),
        final(y)@.len() == old(y)@.len(),
        forall|i: int| 0 <= i < 60 ==> #[trigger] final(cod)@[i] == code_sample(f@, r.0, r.1, r.2, i),
        forall|i: int| 0 <= i < 60 ==> #[trigger] final(y)@[i] == code_sample(h@, r.0, r.1, r.2, i),
        forall|i: int| 60 <= i < old(cod)@.len() ==> #[trigger] final(cod)@[i] == old(cod)@[i],
        forall|i: int| 60 <= i < old(y)@.len() ==> #[trigger] final(y)@[i] == old(y)@[i],
{
    let phi = crate::acelp_search::correlation_matrix(h);
    dn[60] = 0;
    dn[61] = 0;
    dn[62] = 0;
    dn[63] = 0;
    assert(dn@ =~= crate::acelp_search::padded_target(old(dn)@));
    let (seuil1, seuil2) = crate::acelp_search::search_thresholds(dn);
    let st = crate::acelp_search::pulse_search(&phi, dn, seuil1, seuil2);
    // The pulse positions as the codebook index.
    proof {
        lemma2_to64();
    }
    let a0 = shr_pure(st.ip0 as Word16, 1);
    let b1 = shr_pure(st.ip1 as Word16, 3);
    let b2 = shr_pure(st.ip2 as Word16, 3);
    let b3 = shr_pure(st.ip3 as Word16, 3);
    proof {
        assert(0 <= a0 < 30);
        assert(0 <= b1 < 8);
        assert(0 <= b2 < 8);
        assert(0 <= b3 < 8);
    }
    let c1 = shl_pure(b1, 5);
    let c2 = shl_pure(b2, 8);
    let c3 = shl_pure(b3, 11);
    proof {
        assert(c1 == b1 * 32);
        assert(c2 == b2 * 256);
        assert(c3 == b3 * 2048);
    }
    let mut index = a0;
    index = crate::fixed::ops::add_pure(index, c1);
    index = crate::fixed::ops::add_pure(index, c2);
    index = crate::fixed::ops::add_pure(index, c3);
    let sign: Word16 = if st.ps < 0 {
        1
    } else {
        0
    };
    let shift = st.shift;
    decode_codebook(index, sign, shift, f, cod);
    decode_codebook(index, sign, shift, h, y);
    (index, sign, shift)
}

/// Whether the saturating accumulation `init + sum(a[j] b[j])` clamps at
/// some step.
pub open spec fn mac_saturates(init: int, a: Seq<Word16>, b: Seq<Word16>) -> bool
    decreases a.len(),
{
    if a.len() == 0 {
        false
    } else {
        mac_saturates(init, a.drop_last(), b.drop_last()) || out32(
            mac_acc(init, a.drop_last(), b.drop_last()) + a.last() * b.last(),
        )
    }
}

/// `init + sum((a[j] b[j]) >> 6)`, each step saturated: the accumulation
/// used again at reduced scale after an overflow.
pub open spec fn scaled_acc(init: int, a: Seq<Word16>, b: Seq<Word16>) -> int
    decreases a.len(),
{
    if a.len() == 0 {
        init
    } else {
        sat32(scaled_acc(init, a.drop_last(), b.drop_last()) + (a.last() * b.last()) / 64)
    }
}

/// The correlation `x.y` and energy `y.y` (each starting from one) that a
/// gain is computed from; both at reduced scale when either saturates.
pub open spec fn gain_sums(x: Seq<Word16>, y: Seq<Word16>, n: int) -> (int, int) {
    let xs = x.take(n);
    let ys = y.take(n);
    if mac_saturates(1, xs, ys) || mac_saturates(1, ys, ys) {
        (scaled_acc(1, xs, ys), scaled_acc(1, ys, ys))
    } else {
        (mac_acc(1, xs, ys), mac_acc(1, ys, ys))
    }
}

/// The gain `x.y / y.y` from normalised mantissas and exponents (Q12).
pub open spec fn gain_quotient(sxy: int, syy: int) -> int {
    let q = div_s_value(energy_mantissa(sxy) / 2, energy_mantissa(syy));
    shift16(q, -sat16(sat16(norm_l_value(sxy) + 2) - norm_l_value(syy)))
}

/// The adaptive-codebook gain (Q12): zero for a correlation mantissa below
/// four, capped at 4915 (1.2).
pub open spec fn pitch_gain_value(x: Seq<Word16>, y: Seq<Word16>, n: int) -> int {
    let s = gain_sums(x, y, n);
    if energy_mantissa(s.0) < 4 {
        0
    } else {
        let g = gain_quotient(s.0, s.1);
        if g > 4915 {
            4915
        } else {
            g
        }
    }
}

/// The innovative-codebook gain: zero for a non-positive correlation.
pub open spec fn code_gain_value(x: Seq<Word16>, y: Seq<Word16>, n: int) -> int {
    let s = gain_sums(x, y, n);
    if energy_mantissa(s.0) <= 0 {
        0
    } else {
        gain_quotient(s.0, s.1)
    }
}

/// Accumulations of non-negative terms from one stay at least one.
proof fn lemma_energy_positive(y: Seq<Word16>)
    ensures
        mac_acc(1, y, y) >= 1,
        scaled_acc(1, y, y) >= 1,
    decreases y.len(),
{
    if y.len() > 0 {
        lemma_energy_positive(y.drop_last());
        let v = y.last();
        assert(v * v >= 0) by (nonlinear_arith);
    }
}

/// The two sums of [`gain_sums`].
fn gain_accumulate(x: &[Word16], y: &[Word16], n: usize) -> (r: (Word32, Word32))
    requires
        x@.len() >= n,
        y@.len() >= n,
    ensures
        (r.0 as int, r.1 as int) == gain_sums(x@, y@, n as int),
        r.1 >= 1,
{
    let ghost xs = x@.take(n as int);
    let ghost ys = y@.take(n as int);
    let mut flag = OverflowFlag::new();
    reset(&mut flag);
    let mut sxy: Word32 = 1;
    let mut i: usize = 0;
    while i < n
        invariant
            i <= n,
            x@.len() >= n,
            y@.len() >= n,
            xs == x@.take(n as int),
            ys == y@.take(n as int),
            sxy == mac_acc(1, xs.take(i as int), ys.take(i as int)),
            flag.raised == mac_saturates(1, xs.take(i as int), ys.take(i as int)),
        decreases n - i,
    {
        proof {
            lemma_mac_step(1, xs, ys, i as int);
            assert(xs.take(i + 1).drop_last() =~= xs.take(i as int));
            assert(ys.take(i + 1).drop_last() =~= ys.take(i as int));
        }
        sxy = l_mac0(sxy, x[i], y[i], &mut flag);
        i = i + 1;
    }
    let ghost sat_xy = flag.raised;
    let mut syy: Word32 = 1;
    let mut i: usize = 0;
    while i < n
        invariant
            i <= n,
            y@.len() >= n,
            ys == y@.take(n as int),
            syy == mac_acc(1, ys.take(i as int), ys.take(i as int)),
            flag.raised == (sat_xy || mac_saturates(1, ys.take(i as int), ys.take(i as int))),
        decreases n - i,
    {
        proof {
            lemma_mac_step(1, ys, ys, i as int);
            assert(ys.take(i + 1).drop_last() =~= ys.take(i as int));
        }
        syy = l_mac0(syy, y[i], y[i], &mut flag);
        i = i + 1;
    }
    proof {
        assert(xs.take(n as int) =~= xs);
        assert(ys.take(n as int) =~= ys);
        lemma_energy_positive(ys);
    }
    if occurred(&flag) {
        let mut sxy: Word32 = 1;
        let mut i: usize = 0;
        while i < n
            invariant
                i <= n,
                x@.len() >= n,
                y@.len() >= n,
                xs == x@.take(n as int),
                ys == y@.take(n as int),
                sxy == scaled_acc(1, xs.take(i as int), ys.take(i as int)),
            decreases n - i,
        {
            proof {
                lemma2_to64();
                assert(xs.take(i + 1).drop_last() =~= xs.take(i as int));
                assert(ys.take(i + 1).drop_last() =~= ys.take(i as int));
            }
            sxy = l_add_pure(sxy, l_shr_pure(l_mult0(x[i], y[i]), 6));
            i = i + 1;
        }
        let mut syy: Word32 = 1;
        let mut i: usize = 0;
        while i < n
            invariant
                i <= n,
                y@.len() >= n,
                ys == y@.take(n as int),
                syy == scaled_acc(1, ys.take(i as int), ys.take(i as int)),
            decreases n - i,
        {
            proof {
                lemma2_to64();
                assert(ys.take(i + 1).drop_last() =~= ys.take(i as int));
            }
            syy = l_add_pure(syy, l_shr_pure(l_mult0(y[i], y[i]), 6));
            i = i + 1;
        }
        (sxy, syy)
    } else {
        (sxy, syy)
    }
}

/// The normalised high word of `e` and its normalising shift.
fn mantissa(e: Word32) -> (r: (Word16, Word16))
    ensures
        r.0 == energy_mantissa(e as int),
        r.1 == norm_l_value(e as int),
        0 <= r.1 <= 31,
        e > 0 ==> 16384 <= r.0 <= 32767,
{
    let exp = norm_l(e);
    proof {
        lemma_norm_l_value(e, exp);
        if e > 0 {
            lemma_normalised(e, exp);
        }
    }
    (extract_h(l_shl_pure(e, exp)), exp)
}

/// `x.y / y.y` from the two sums, for a positive correlation mantissa.
fn quotient(sxy: Word32, syy: Word32) -> (g: Word16)
    requires
        syy >= 1,
        energy_mantissa(sxy as int) > 0,
    ensures
        g == gain_quotient(sxy as int, syy as int),
        g >= 0,
{
    proof {
        lemma2_to64();
    }
    let (xy, exp_xy) = mantissa(sxy);
    let (yy, exp_yy) = mantissa(syy);
    let h = shr_pure(xy, 1);
    let g = div_s_pure(h, yy);
    let mut i = crate::fixed::ops::add_pure(exp_xy, 2);
    i = crate::fixed::ops::sub_pure(i, exp_yy);
    proof {
        assert(g == div_s_value(xy / 2, yy as int));
        assert(g >= 0);
        if i <= 0 {
            vstd::arithmetic::power2::lemma_pow2_pos((-i) as nat);
            let p = pow2((-i) as nat);
            assert(g * p >= 0) by (nonlinear_arith)
                requires
                    g >= 0,
                    p > 0,
            ;
        } else {
            vstd::arithmetic::power2::lemma_pow2_pos(i as nat);
        }
    }
    shr_pure(g, i)
}

/// Gain of the pitch (adaptive) contribution, Q12, saturated to 1.2.
pub fn pitch_gain(pitch_target: &[Word16], filt_pitch: &[Word16], l_subfr: usize) -> (g: Word16)
    requires
        pitch_target@.len() >= l_subfr,
        filt_pitch@.len() >= l_subfr,
    ensures
        g == pitch_gain_value(pitch_target@, filt_pitch@, l_subfr as int),
        0 <= g <= 4915,
{
    let (sxy, syy) = gain_accumulate(pitch_target, filt_pitch, l_subfr);
    let (xy, _) = mantissa(sxy);
    if crate::fixed::ops::sub_pure(xy, 4) < 0 {
        return 0;
    }
    let g = quotient(sxy, syy);
    if crate::fixed::ops::sub_pure(g, 4915) > 0 {
        4915
    } else {
        g
    }
}

/// Gain of the innovative code.
pub fn code_gain(code_target: &[Word16], filt_code: &[Word16], l_subfr: usize) -> (g: Word16)
    requires
        code_target@.len() >= l_subfr,
        filt_code@.len() >= l_subfr,
    ensures
        g == code_gain_value(code_target@, filt_code@, l_subfr as int),
{
    let (sxy, syy) = gain_accumulate(code_target, filt_code, l_subfr);
    let (xy, _) = mantissa(sxy);
    if xy <= 0 {
        return 0;
    }
    quotient(sxy, syy)
}

/// The log-energy (Q8) of a gain `g` squared, plus one, less `offset`
/// (in Q16 units of `2^16`): `(log2(1 + g^2) - offset) >> 8`.
pub open spec fn gain_log_energy(tables: CodecTables, g: int, offset: int) -> int {
    shift32(sat32(log2_q16(tables, 1 + g * g) + sat32(-65536 * offset)), -8) as i16 as int
}

/// The prediction errors `(pitch, code)` of the unquantised gains against
/// the gain predictor: what the gain codebook is searched for.
pub open spec fn gain_errors(
    tables: CodecTables,
    a: Seq<Word16>,
    prd_lt: Seq<Word16>,
    code: Seq<Word16>,
    n: int,
    ga: int,
    gi: int,
    pit: int,
    cod: int,
) -> (int, int) {
    let ener_pit = sat16(gain_log_energy(tables, ga, 24) + pitch_energy(tables, a, prd_lt, n));
    let ener_cod = sat16(gain_log_energy(tables, gi, 0) + code_energy(tables, a, code, n));
    (sat16(ener_pit - energy_prediction(pit, cod)), sat16(ener_cod - energy_prediction(cod, pit)))
}

/// The distance of gain codebook entry `i` to the prediction errors.
pub open spec fn gain_distance(tables: CodecTables, err: (int, int), i: int) -> int {
    let t0 = sat16(tables.t_qua_ener@[2 * i] - err.0);
    let t1 = sat16(tables.t_qua_ener@[2 * i + 1] - err.1);
    sat32(t0 * t0 + t1 * t1)
}

/// Whether `ind` is the first gain codebook entry of least distance.
pub open spec fn first_nearest_gain(tables: CodecTables, err: (int, int), ind: int) -> bool {
    &&& 0 <= ind < 64
    &&& forall|j: int| 0 <= j < 64 ==> gain_distance(tables, err, ind) <= #[trigger] gain_distance(tables, err, j)
    &&& forall|j: int| 0 <= j < ind ==> gain_distance(tables, err, ind) < #[trigger] gain_distance(tables, err, j)
}

/// `(log2(1 + g^2) - offset) >> 8` as computed by the codec.
fn log_gain_energy(tables: &CodecTables, g: Word16, offset: Word16) -> (r: Word16)
    ensures
        r == gain_log_energy(*tables, g as int, offset as int),
{
    proof {
        lemma2_to64();
        assert(0 <= g * g <= 0x4000_0000) by (nonlinear_arith);
    }
    let l = l_mac0_pure(1, g, g);
    let (ex, fr) = log2(l, &tables.tab_log2);
    let mut t = load_high16(ex);
    t = add_shifted(t, fr, 1);
    t = sub_high16(t, offset);
    t = l_shr_pure(t, 8);
    extract_l(t)
}

/// Gain vector quantisation in the energy domain: the first nearest entry
/// of the gain codebook to the predictor errors of the unquantised gains.
/// The quantised gains and the new predictor energies are those the
/// decoder derives from the returned index.
pub fn quantize_gains(
    tables: &CodecTables,
    a: &[Word16],
    prd_lt: &[Word16],
    code: &[Word16],
    l_subfr: usize,
    adaptive_gain: &mut Word16,
    innov_gain: &mut Word16,
    last_ener_pit: &mut Word16,
    last_ener_cod: &mut Word16,
) -> (index: Word16)
    requires
        a@.len() >= 11,
        prd_lt@.len() >= l_subfr,
        code@.len() >= l_subfr,
    ensures
        first_nearest_gain(
            *tables,
            gain_errors(
                *tables,
                a@,
                prd_lt@,
                code@,
                l_subfr as int,
                *old(adaptive_gain) as int,
                *old(innov_gain) as int,
                *old(last_ener_pit) as int,
                *old(last_ener_cod) as int,
            ),
            index as int,
        ),
        ({
            let en = next_energies(*tables, index as int, 0, *old(last_ener_pit) as int, *old(last_ener_cod) as int);
            let g = decoded_gains(
                en.0,
                en.1,
                pitch_energy(*tables, a@, prd_lt@, l_subfr as int),
                code_energy(*tables, a@, code@, l_subfr as int),
            );
            &&& *final(last_ener_pit) == en.0
            &&& *final(last_ener_cod) == en.1
            &&& *final(adaptive_gain) == g.0
            &&& *final(innov_gain) == g.1
        }),
{
    let (ener_plt, ener_c) = codebook_energies(tables, a, prd_lt, code, l_subfr);
    let ener_pit = crate::fixed::ops::add_pure(log_gain_energy(tables, *adaptive_gain, 24), ener_plt);
    let ener_cod = crate::fixed::ops::add_pure(log_gain_energy(tables, *innov_gain, 0), ener_c);
    let pred_pit = predict_energy(*last_ener_pit, *last_ener_cod);
    let err_pit = crate::fixed::ops::sub_pure(ener_pit, pred_pit);
    let pred_cod = predict_energy(*last_ener_cod, *last_ener_pit);
    let err_cod = crate::fixed::ops::sub_pure(ener_cod, pred_cod);
    let ghost err = (err_pit as int, err_cod as int);
    let mut dist_min: Word32 = MAX_32;
    let mut index: usize = 0;
    let mut i: usize = 0;
    while i < 64
        invariant
            i <= 64,
            index < 64,
            err == (err_pit as int, err_cod as int),
            i == 0 ==> index == 0 && dist_min == MAX_32,
            i > 0 ==> index < i && dist_min == gain_distance(*tables, err, index as int),
            forall|j: int| 0 <= j < i ==> dist_min <= #[trigger] gain_distance(*tables, err, j),
            forall|j: int| 0 <= j < index ==> dist_min < #[trigger] gain_distance(*tables, err, j),
        decreases 64 - i,
    {
        let mut tmp = crate::fixed::ops::sub_pure(tables.t_qua_ener[i * 2], err_pit);
        let mut dist = l_mult0(tmp, tmp);
        tmp = crate::fixed::ops::sub_pure(tables.t_qua_ener[i * 2 + 1], err_cod);
        dist = l_mac0_pure(dist, tmp, tmp);
        if l_sub_pure(dist, dist_min) < 0 {
            dist_min = dist;
            index = i;
        }
        i = i + 1;
    }
    let idx = index as Word16;
    decode_gains(
        tables,
        idx,
        0,
        a,
        prd_lt,
        code,
        l_subfr,
        adaptive_gain,
        innov_gain,
        last_ener_pit,
        last_ener_cod,
    );
    idx
}

/// Every second sample of `s` from `start`: `count` samples.
pub open spec fn strided(s: Seq<Word16>, start: int, count: int) -> Seq<Word16> {
    Seq::new(count as nat, |k: int| s[start + 2 * k])
}

/// The samples whose energy sets the decimation scale: every second one
/// from 142 before the frame to its end.
pub open spec fn scale_samples(signal: Seq<Word16>, sb: int, l_frame: int) -> Seq<Word16> {
    strided(signal, sb - 142, (l_frame + 143) / 2)
}

/// The frame decimated by two for the lag search, scaled down by `2^6`
/// when the scale energy saturated, up by `2^4` when it is below `2^22`;
/// zero past the frame.
pub open spec fn decimated(signal: Seq<Word16>, sb: int, l_frame: int) -> Seq<Word16> {
    let e = scale_samples(signal, sb, l_frame);
    let over = mac_saturates(0, e, e);
    let t0 = mac_acc(0, e, e);
    Seq::new(
        120,
        |j: int|
            if j < l_frame / 2 {
                let x = signal[sb + 2 * j] as int;
                (if over {
                    shift16(x, -6)
                } else if t0 < 0x40_0000 {
                    shift16(x, 4)
                } else {
                    x
                }) as i16
            } else {
                0i16
            },
    )
}

/// The correlation of the decimated frame with the signal delayed by `lag`.
pub open spec fn lag_correlation(signal: Seq<Word16>, dec: Seq<Word16>, sb: int, l_frame: int, lag: int) -> int {
    mac_acc(0, dec.take((l_frame + 1) / 2), strided(signal, sb - lag, (l_frame + 1) / 2))
}

/// The lag of greatest correlation among `hi` down to `i` (the last one
/// scanned on ties) with that correlation, starting from `(lo, MIN_32)`.
pub open spec fn lag_scan(
    signal: Seq<Word16>,
    dec: Seq<Word16>,
    sb: int,
    l_frame: int,
    hi: int,
    lo: int,
    i: int,
) -> (int, int)
    decreases hi - i,
{
    let (p, m) = if i >= hi {
        (lo, -0x8000_0000int)
    } else {
        lag_scan(signal, dec, sb, l_frame, hi, lo, i + 1)
    };
    let c = lag_correlation(signal, dec, sb, l_frame, i);
    if c >= m {
        (i, c)
    } else {
        (p, m)
    }
}

/// The best lag in `lo..=hi` with its correlation normalised by the energy
/// of the delayed signal.
pub open spec fn best_lag_value(
    signal: Seq<Word16>,
    dec: Seq<Word16>,
    sb: int,
    l_frame: int,
    hi: int,
    lo: int,
) -> (int, int) {
    let (p, m) = lag_scan(signal, dec, sb, l_frame, hi, lo, lo);
    let m2 = shift32(m, -1);
    let x = strided(signal, sb - p, (l_frame + 1) / 2);
    let e = inv_sqrt_value(mac_acc(0, x, x));
    (p, mul_dpf_value(split_hi(m2), split_lo(m2), split_hi(e), split_lo(e)) as i16 as int)
}

/// The open-loop pitch lag: the best lags of `80..=142`, `40..=79` and
/// `20..=39`, a shorter range winning when its normalised correlation
/// exceeds 0.85 of the current best.
pub open spec fn open_loop_lag(signal: Seq<Word16>, sb: int, l_frame: int) -> int {
    let dec = decimated(signal, sb, l_frame);
    let (p1, m1) = best_lag_value(signal, dec, sb, l_frame, 142, 80);
    let (p2, m2) = best_lag_value(signal, dec, sb, l_frame, 79, 40);
    let (p3, m3) = best_lag_value(signal, dec, sb, l_frame, 39, 20);
    let (q, m) = if sat16(sat16((m1 * 27856) / 32768) - m2) < 0 {
        (p2, m2)
    } else {
        (p1, m1)
    };
    if sat16(sat16((m * 27856) / 32768) - m3) < 0 {
        p3
    } else {
        q
    }
}

/// Every second sample of `signal` from `start`, accumulated as squares.
fn strided_energy(signal: &[Word16], start: usize, count: usize) -> (e: Word32)
    requires
        start + 2 * count <= signal@.len() + 1,
    ensures
        e == mac_acc(0, strided(signal@, start as int, count as int), strided(
            signal@,
            start as int,
            count as int,
        )),
{
    let ghost xs = strided(signal@, start as int, count as int);
    let n = signal.len();
    let mut e: Word32 = 0;
    let mut k: usize = 0;
    while k < count
        invariant
            k <= count,
            n == signal@.len(),
            start + 2 * count <= signal@.len() + 1,
            xs == strided(signal@, start as int, count as int),
            e == mac_acc(0, xs.take(k as int), xs.take(k as int)),
        decreases count - k,
    {
        proof {
            lemma_mac_step(0, xs, xs, k as int);
        }
        let x = signal[start + 2 * k];
        e = l_mac0_pure(e, x, x);
        k = k + 1;
    }
    assert(xs.take(count as int) =~= xs);
    e
}

/// The best lag in `lag_min..=lag_hi` with its normalised correlation (see
/// [`best_lag_value`]).
fn best_lag(
    signal: &[Word16],
    sig_dec: &[Word16; 120],
    sb: usize,
    l_frame: usize,
    lag_hi: Word16,
    lag_min: Word16,
) -> (r: (Word16, Word16))
    requires
        20 <= lag_min <= lag_hi <= 142,
        sb >= 142,
        sb + l_frame <= signal@.len(),
        l_frame <= 240,
    ensures
        lag_min <= r.0 <= lag_hi,
        (r.0 as int, r.1 as int) == best_lag_value(
            signal@,
            sig_dec@,
            sb as int,
            l_frame as int,
            lag_hi as int,
            lag_min as int,
        ),
{
    let cnt = (l_frame + 1) / 2;
    let mut max: Word32 = crate::fixed::MIN_32;
    let mut p_max = lag_min;
    let mut i = lag_hi;
    while i >= lag_min
        invariant
            20 <= lag_min <= lag_hi <= 142,
            lag_min - 1 <= i <= lag_hi,
            lag_min <= p_max <= lag_hi,
            sb >= 142,
            sb + l_frame <= signal@.len(),
            l_frame <= 240,
            cnt == (l_frame + 1) / 2,
            i < lag_hi ==> (p_max as int, max as int) == lag_scan(
                signal@,
                sig_dec@,
                sb as int,
                l_frame as int,
                lag_hi as int,
                lag_min as int,
                i + 1,
            ),
            i == lag_hi ==> p_max == lag_min && max == crate::fixed::MIN_32,
        decreases i,
    {
        let ghost xs = sig_dec@.take(cnt as int);
        let ghost ys = strided(signal@, sb - i, cnt as int);
        let mut t0: Word32 = 0;
        let mut p: usize = 0;
        let mut p1: usize = sb - i as usize;
        while p < cnt
            invariant
                p <= cnt <= 120,
                p1 == sb - i + 2 * p,
                20 <= i <= 142,
                sb >= 142,
                sb + l_frame <= signal@.len(),
                cnt == (l_frame + 1) / 2,
                xs == sig_dec@.take(cnt as int),
                ys == strided(signal@, sb - i, cnt as int),
                t0 == mac_acc(0, xs.take(p as int), ys.take(p as int)),
            decreases cnt - p,
        {
            proof {
                lemma_mac_step(0, xs, ys, p as int);
            }
            t0 = l_mac0_pure(t0, sig_dec[p], signal[p1]);
            p = p + 1;
            p1 = p1 + 2;
        }
        proof {
            assert(xs.take(cnt as int) =~= xs);
            assert(ys.take(cnt as int) =~= ys);
        }
        if l_sub_pure(t0, max) >= 0 {
            max = t0;
            p_max = i;
        }
        i = i - 1;
    }
    let m2 = l_shr_pure(max, 1);
    let (max_h, max_l) = dpf_split(m2);
    let t0 = strided_energy(signal, sb - p_max as usize, cnt);
    let t0 = inv_sqrt(t0);
    let (ener_h, ener_l) = dpf_split(t0);
    let t = mul_dpf(max_h, max_l, ener_h, ener_l);
    (p_max, extract_l(t))
}

/// Open-loop pitch lag of the weighted speech `signal[sb..sb + l_frame]`,
/// searched on the signal decimated by two in three lag ranges
/// (`80..=142`, `40..=79`, `20..=39`) with a preference for shorter lags
/// (see [`open_loop_lag`]).
#[verifier::spinoff_prover]
pub fn open_loop_pitch(signal: &[Word16], sb: usize, l_frame: usize) -> (t0: Word16)
    requires
        sb >= 142,
        sb + l_frame <= signal@.len(),
        l_frame <= 240,
    ensures
        20 <= t0 <= 142,
        t0 == open_loop_lag(signal@, sb as int, l_frame as int),
{
    let mut flag = OverflowFlag::new();
    reset(&mut flag);
    let n = signal.len();
    let base = sb - 142;
    let count = (l_frame + 143) / 2;
    let ghost es = scale_samples(signal@, sb as int, l_frame as int);
    let mut t0: Word32 = 0;
    let mut k: usize = 0;
    while k < count
        invariant
            base == sb - 142,
            count == (l_frame + 143) / 2,
            sb >= 142,
            k <= count,
            n == signal@.len(),
            sb + l_frame <= signal@.len(),
            l_frame <= 240,
            es == scale_samples(signal@, sb as int, l_frame as int),
            t0 == mac_acc(0, es.take(k as int), es.take(k as int)),
            flag.raised == mac_saturates(0, es.take(k as int), es.take(k as int)),
        decreases count - k,
    {
        proof {
            lemma_mac_step(0, es, es, k as int);
            assert(es.take(k + 1).drop_last() =~= es.take(k as int));
        }
        let i = base + 2 * k;
        t0 = l_mac0(t0, signal[i], signal[i], &mut flag);
        k = k + 1;
    }
    proof {
        assert(es.take(count as int) =~= es);
        lemma2_to64();
    }
    let ghost dec = decimated(signal@, sb as int, l_frame as int);
    let mut sig_dec = [0i16; 120];
    let half = l_frame / 2;
    let over = occurred(&flag);
    let small = l_sub_pure(t0, l_shl_pure(1, 22)) < 0;
    let mut j: usize = 0;
    while j < half
        invariant
            j <= half,
            half == l_frame / 2,
            sb + l_frame <= signal@.len(),
            n == signal@.len(),
            l_frame <= 240,
            over == mac_saturates(0, es, es),
            small == (mac_acc(0, es, es) < 0x40_0000),
            es == scale_samples(signal@, sb as int, l_frame as int),
            dec == decimated(signal@, sb as int, l_frame as int),
            forall|q: int| 0 <= q < j ==> #[trigger] sig_dec@[q] == dec[q],
            forall|q: int| j <= q < 120 ==> #[trigger] sig_dec@[q] == 0,
        decreases half - j,
    {
        let x = signal[sb + 2 * j];
        sig_dec[j] = if over {
            shr_pure(x, 6)
        } else if small {
            shl_pure(x, 4)
        } else {
            x
        };
        j = j + 1;
    }
    assert(sig_dec@ =~= dec);
    let (mut p_max1, max1) = best_lag(signal, &sig_dec, sb, l_frame, 142, 80);
    let (p_max2, max2) = best_lag(signal, &sig_dec, sb, l_frame, 79, 40);
    let (p_max3, max3) = best_lag(signal, &sig_dec, sb, l_frame, 39, 20);
    let mut max1 = max1;
    if crate::fixed::ops::sub_pure(mult_pure(max1, 27856), max2) < 0 {
        max1 = max2;
        p_max1 = p_max2;
    }
    if crate::fixed::ops::sub_pure(mult_pure(max1, 27856), max3) < 0 {
        p_max1 = p_max3;
    }
    p_max1
}

/// The past excitation filtered by `h` for the shortest searched delay
/// `t_min`: the convolution of `exc[eb - t_min..][..l]` with `h`, zero past
/// `l`.
pub open spec fn first_filtered(exc: Seq<Word16>, eb: int, t_min: int, h: Seq<Word16>, l: int) -> Seq<
    Word16,
> {
    Seq::new(
        80,
        |n: int|
            if n < l {
                crate::dsp::convolution_sample(exc.subrange(eb - t_min, eb - t_min + l), h, n) as i16
            } else {
                0i16
            },
    )
}

/// One filter step of the recursive update: `(e h_j + prev 2^12) / 2^12`,
/// saturated to 32 bits before the division.
pub open spec fn filtered_tap(e: Word16, hj: Word16, prev: Word16) -> Word16 {
    (sat32(e * hj + prev * 4096) / 4096) as i16
}

/// The filtered excitation for the next delay: the new sample `e` enters
/// at position 0 and every later position is updated from its left
/// neighbour.
pub open spec fn next_filtered(f: Seq<Word16>, e: Word16, h: Seq<Word16>, l: int) -> Seq<Word16> {
    Seq::new(
        80,
        |j: int|
            if j == 0 {
                e
            } else if j < l {
                filtered_tap(e, h[j], f[j - 1])
            } else {
                f[j]
            },
    )
}

/// The filtered excitation for delay `t_min + n`.
pub open spec fn filtered_at(exc: Seq<Word16>, eb: int, t_min: int, h: Seq<Word16>, l: int, n: nat) -> Seq<
    Word16,
>
    decreases n,
{
    if n == 0 {
        first_filtered(exc, eb, t_min, h, l)
    } else {
        next_filtered(
            filtered_at(exc, eb, t_min, h, l, (n - 1) as nat),
            exc[eb - t_min - n],
            h,
            l,
        )
    }
}

/// The normalised correlation of the target with a filtered excitation
/// `f` over `l` samples.
pub open spec fn pitch_correlation(target: Seq<Word16>, f: Seq<Word16>, l: int) -> Word16 {
    let c = shift32(mac_acc(0, target.take(l), f.take(l)), -1);
    let e = inv_sqrt_value(mac_acc(0, f.take(l), f.take(l)));
    mul_dpf_value(split_hi(c), split_lo(c), split_hi(e), split_lo(e)) as i16
}

/// The correlations for the delays `t_min..=t_max` (index 0 is `t_min`),
/// zero past `t_max`.
pub open spec fn pitch_correlations(
    exc: Seq<Word16>,
    eb: int,
    target: Seq<Word16>,
    h: Seq<Word16>,
    l: int,
    t_min: int,
    t_max: int,
) -> Seq<Word16> {
    Seq::new(
        40,
        |k: int|
            if k <= t_max - t_min {
                pitch_correlation(target, filtered_at(exc, eb, t_min, h, l, k as nat), l)
            } else {
                0i16
            },
    )
}

/// The integer delay in `lo..=hi` (as indices into `c`) of greatest
/// correlation, the later one on ties, with that correlation.
pub open spec fn best_delay(c: Seq<Word16>, lo: int, hi: int) -> (int, Word16)
    decreases hi - lo,
{
    if hi <= lo {
        (lo, c[lo])
    } else {
        let (k, m) = best_delay(c, lo, hi - 1);
        if c[hi] >= m {
            (hi, c[hi])
        } else {
            (k, m)
        }
    }
}

/// The fractional refinement around delay index `k` of correlation `m`:
/// the interpolated correlations at +1/3, +2/3 (as -1/3 of the next), -2/3
/// (as +1/3 of the previous) and -1/3 are tried in turn, a later one
/// winning ties; the result is the fraction in thirds (-2..=2).
pub open spec fn best_fraction(tables: CodecTables, c: Seq<Word16>, k: int, m: Word16) -> int {
    let l0 = m * 32768;
    let c1 = interpolation_8(c, k - 3, tables.inter8_1_3@);
    let (l1, f1) = if c1 >= l0 { (c1, 1int) } else { (l0, 0int) };
    let c2 = interpolation_8(c, k + 1 - 4, tables.inter8_m1_3@);
    let (l2, f2) = if c2 >= l1 { (c2, 2int) } else { (l1, f1) };
    let c3 = interpolation_8(c, k - 1 - 3, tables.inter8_1_3@);
    let (l3, f3) = if c3 >= l2 { (c3, -2int) } else { (l2, f2) };
    let c4 = interpolation_8(c, k - 4, tables.inter8_m1_3@);
    if c4 >= l3 {
        -1
    } else {
        f3
    }
}

/// The closed-loop pitch (lag, fraction in thirds of a sample): the best
/// integer lag in `t0_min..=t0_max`, kept integer in the first subframe
/// above 84, otherwise refined; a refinement of +2/3 or -2/3 is expressed
/// from the neighbouring lag.
pub open spec fn closed_loop_result(
    tables: CodecTables,
    exc: Seq<Word16>,
    eb: int,
    target: Seq<Word16>,
    h: Seq<Word16>,
    l: int,
    t0_min: int,
    t0_max: int,
    i_subfr: int,
) -> (int, int) {
    let t_min = t0_min - 4;
    let t_max = t0_max + 4;
    let c = pitch_correlations(exc, eb, target, h, l, t_min, t_max);
    let (k, m) = best_delay(c, t0_min - t_min, t0_max - t_min);
    let lag = k + t_min;
    if i_subfr == 0 && lag > 84 {
        (lag, 0)
    } else {
        let f = best_fraction(tables, c, k, m);
        if f == 2 {
            (lag + 1, -1)
        } else if f == -2 {
            (lag - 1, 1)
        } else {
            (lag, f)
        }
    }
}

/// The normalised correlation of `target` with `f` over `l` samples (see
/// [`pitch_correlation`]).
fn correlate(target: &[Word16], f: &[Word16; 80], l: usize) -> (r: Word16)
    requires
        1 <= l <= 80,
        target@.len() >= l,
    ensures
        r == pitch_correlation(target@, f@, l as int),
{
    let mut s: Word32 = 0;
    let mut j: usize = 0;
    while j < l
        invariant
            j <= l <= 80,
            target@.len() >= l,
            s == mac_acc(0, target@.take(j as int), f@.take(j as int)),
        decreases l - j,
    {
        proof {
            lemma_mac_step(0, target@, f@, j as int);
        }
        s = l_mac0_pure(s, target[j], f[j]);
        j = j + 1;
    }
    s = l_shr_pure(s, 1);
    let (corr_h, corr_l) = dpf_split(s);
    let mut e: Word32 = 0;
    let mut j: usize = 0;
    while j < l
        invariant
            j <= l <= 80,
            e == mac_acc(0, f@.take(j as int), f@.take(j as int)),
        decreases l - j,
    {
        proof {
            lemma_mac_step(0, f@, f@, j as int);
        }
        e = l_mac0_pure(e, f[j], f[j]);
        j = j + 1;
    }
    e = inv_sqrt(e);
    let (norm_hi, norm_lo) = dpf_split(e);
    let r = mul_dpf(corr_h, corr_l, norm_hi, norm_lo);
    extract_l(r)
}

/// Advance the filtered excitation to the next delay, `e` being the new
/// excitation sample (see [`next_filtered`]).
fn advance_filtered(f: &mut [Word16; 80], e: Word16, h: &[Word16], l: usize)
    requires
        1 <= l <= 80,
        h@.len() >= l,
    ensures
        final(f)@ == next_filtered(old(f)@, e, h@, l as int),
{
    let ghost f0 = f@;
    let mut j: usize = l - 1;
    while j >= 1
        invariant
            j < l <= 80,
            h@.len() >= l,
            f@.len() == 80,
            forall|q: int| 0 <= q <= j ==> #[trigger] f@[q] == f0[q],
            forall|q: int| l <= q < 80 ==> #[trigger] f@[q] == f0[q],
            forall|q: int| j < q < l ==> #[trigger] f@[q] == filtered_tap(e, h@[q], f0[q - 1]),
        decreases j,
    {
        proof {
            lemma2_to64();
        }
        let mut s = l_mult0(e, h[j]);
        s = add_shifted(s, f[j - 1], 12);
        f[j] = store_high(s, 4);
        j = j - 1;
    }
    f[0] = e;
    assert(f@ =~= next_filtered(f0, e, h@, l as int));
}

/// Closed-loop fractional pitch search (1/3 sample resolution): the lag in
/// `t0_min..=t0_max` of greatest normalised correlation between the target
/// and the filtered past excitation, refined to a third of a sample by
/// interpolating the correlations (see [`closed_loop_result`]).
#[verifier::rlimit(40)]
#[verifier::spinoff_prover]
pub fn closed_loop_pitch(
    tables: &CodecTables,
    exc: &[Word16],
    eb: usize,
    pitch_target: &[Word16],
    h: &[Word16],
    l_subfr: usize,
    t0_min: Word16,
    t0_max: Word16,
    i_subfr: usize,
) -> (r: (Word16, Word16))
    requires
        20 <= t0_min <= t0_max <= 143,
        t0_max - t0_min <= 31,
        eb >= t0_max + 4,
        eb + 4 + l_subfr <= exc@.len() + t0_min,
        1 <= l_subfr <= 80,
        pitch_target@.len() >= l_subfr,
        h@.len() >= l_subfr,
    ensures
        (r.0 as int, r.1 as int) == closed_loop_result(
            *tables,
            exc@,
            eb as int,
            pitch_target@,
            h@,
            l_subfr as int,
            t0_min as int,
            t0_max as int,
            i_subfr as int,
        ),
        t0_min - 1 <= r.0 <= t0_max + 1,
        r.1 == 0 || r.1 == 1 || r.1 == -1,
        r.0 == t0_min - 1 ==> r.1 == 1,
        r.0 == t0_max + 1 ==> r.1 == -1,
        i_subfr == 0 && r.0 >= 86 ==> r.1 == 0 && r.0 <= t0_max,
        i_subfr == 0 && r.0 == 85 ==> r.1 != 1,
{
    let t_min = t0_min - 4;
    let t_max = t0_max + 4;
    let ghost corrs = pitch_correlations(
        exc@,
        eb as int,
        pitch_target@,
        h@,
        l_subfr as int,
        t_min as int,
        t_max as int,
    );
    let mut corr_v = [0i16; 40];
    let mut excf = [0i16; 80];
    let start = eb - t_min as usize;
    let xl = exc.len();
    assert(start + l_subfr <= xl);
    let tail = &exc[start..start + l_subfr];
    convolution(tail, h, &mut excf, l_subfr);
    assert(excf@ =~= filtered_at(exc@, eb as int, t_min as int, h@, l_subfr as int, 0));
    let mut i = t_min;
    while i <= t_max
        invariant
            16 <= t_min <= i <= t_max + 1,
            t_max <= 147,
            t_max - t_min <= 39,
            eb >= t_max,
            t_min == t0_min - 4,
            t_max == t0_max + 4,
            eb + 4 + l_subfr <= exc@.len() + t0_min,
            1 <= l_subfr <= 80,
            pitch_target@.len() >= l_subfr,
            h@.len() >= l_subfr,
            i <= t_max ==> excf@ == filtered_at(
                exc@,
                eb as int,
                t_min as int,
                h@,
                l_subfr as int,
                (i - t_min) as nat,
            ),
            forall|k: int| 0 <= k < i - t_min ==> #[trigger] corr_v@[k] == corrs[k],
            forall|k: int| i - t_min <= k < 40 ==> #[trigger] corr_v@[k] == 0,
            corrs == pitch_correlations(
                exc@,
                eb as int,
                pitch_target@,
                h@,
                l_subfr as int,
                t_min as int,
                t_max as int,
            ),
        decreases t_max + 1 - i,
    {
        let c = correlate(pitch_target, &excf, l_subfr);
        corr_v[(i - t_min) as usize] = c;
        if i != t_max {
            let excn = exc[eb - (i as usize) - 1];
            advance_filtered(&mut excf, excn, h, l_subfr);
            proof {
                let n = (i + 1 - t_min) as nat;
                assert(eb - t_min - n == eb - i - 1);
            }
        }
        i = i + 1;
    }
    assert(corr_v@ =~= corrs);
    let lo = (t0_min - t_min) as usize;
    let hi = (t0_max - t_min) as usize;
    let mut max = corr_v[lo];
    let mut k = lo;
    let mut q = lo + 1;
    while q <= hi
        invariant
            lo == 4,
            lo < q <= hi + 1,
            hi <= 35,
            corr_v@ == corrs,
            (k as int, max) == best_delay(corrs, lo as int, q - 1),
            lo <= k <= hi,
        decreases hi + 1 - q,
    {
        let c = corr_v[q];
        if crate::fixed::ops::sub_pure(c, max) >= 0 {
            max = c;
            k = q;
        }
        q = q + 1;
    }
    let mut lag = k as Word16 + t_min;
    if i_subfr == 0 && crate::fixed::ops::sub_pure(lag, 84) > 0 {
        return (lag, 0);
    }
    proof {
        lemma2_to64();
    }
    let mut frac: Word16 = 0;
    let mut l_max = load_shifted(max, 15);
    let corr_int = interpolate_up_8(tables, &corr_v, k);
    if l_sub_pure(corr_int, l_max) >= 0 {
        l_max = corr_int;
        frac = 1;
    }
    let corr_int = interpolate_down_8(tables, &corr_v, k + 1);
    if l_sub_pure(corr_int, l_max) >= 0 {
        l_max = corr_int;
        frac = 2;
    }
    let corr_int = interpolate_up_8(tables, &corr_v, k - 1);
    if l_sub_pure(corr_int, l_max) >= 0 {
        l_max = corr_int;
        frac = -2;
    }
    let corr_int = interpolate_down_8(tables, &corr_v, k);
    if l_sub_pure(corr_int, l_max) >= 0 {
        frac = -1;
    }
    if frac == 2 {
        frac = -1;
        lag = lag + 1;
    }
    if frac == -2 {
        frac = 1;
        lag = lag - 1;
    }
    (lag, frac)
}

/// `(m * 10923) >> 15` is `m / 3` for `0 <= m <= 198`.
proof fn lemma_third_exact(m: int)
    requires
        0 <= m <= 198,
    ensures
        (m * 10923) / 32768 == m / 3,
{
    let q = m / 3;
    let r = m % 3;
    vstd::arithmetic::div_mod::lemma_fundamental_div_mod(m, 3);
    assert(m * 10923 == 32768 * q + (q + 10923 * r)) by (nonlinear_arith)
        requires
            m == 3 * q + r,
    ;
    assert(0 <= q + 10923 * r < 32768);
    vstd::arithmetic::div_mod::lemma_fundamental_div_mod_converse(m * 10923, 32768, q, q + 10923 * r);
}

/// The lower end of the lag range of the later subframes, from the first
/// subframe's lag.
pub open spec fn first_lag_min(t0: int) -> int {
    let m0 = sat16(t0 - 5);
    let m1 = if m0 < 20 {
        20
    } else {
        m0
    };
    if sat16(m1 + 9) > 143 {
        134
    } else {
        m1
    }
}

/// Encode the pitch lag and fraction of subframe `s` as its parameter:
/// absolutely in the first subframe, relative to `t0_min` in the others.
/// The decoder's [`pitch_lag`] gives back the lag and fraction.
fn pitch_index(s: usize, t0: Word16, frac: Word16, t0_min: Word16) -> (idx: Word16)
    requires
        s < 4,
        frac == 0 || frac == 1 || frac == -1,
        s == 0 ==> 19 <= t0 <= 143 && (t0 >= 86 ==> frac == 0) && (t0 == 85 ==> frac != 1) && (t0
            == 19 ==> frac == 1),
        s > 0 ==> 20 <= t0_min <= 134 && t0_min - 1 <= t0 <= t0_min + 10 && (t0 == t0_min - 1
            ==> frac == 1) && (t0 == t0_min + 10 ==> frac == -1),
    ensures
        s == 0 ==> 0 <= idx < 256,
        s > 0 ==> 0 <= idx < 32,
        idx == pitch_index_value(s as int, t0 as int, frac as int, t0_min as int),
        s == 0 ==> pitch_lag(0, 0, idx as int, 0, 0, 0) == (t0 as int, frac as int, first_lag_min(
            t0 as int,
        )),
        s > 0 ==> pitch_lag(s as int, 0, idx as int, 0, t0_min as int, 0) == (
            t0 as int,
            frac as int,
            t0_min as int,
        ),
{
    if s == 0 {
        if t0 <= 85 {
            let mut idx = crate::fixed::ops::add_pure(t0, crate::fixed::ops::add_pure(t0, t0));
            idx = crate::fixed::ops::sub_pure(idx, 58);
            idx = crate::fixed::ops::add_pure(idx, frac);
            proof {
                if idx < 197 {
                    lemma_third_exact(idx + 2);
                    assert((idx + 2) / 3 == t0 - 19);
                }
            }
            idx
        } else {
            crate::fixed::ops::add_pure(t0, 112)
        }
    } else {
        let ii = crate::fixed::ops::sub_pure(t0, t0_min);
        let mut idx = crate::fixed::ops::add_pure(ii, crate::fixed::ops::add_pure(ii, ii));
        idx = crate::fixed::ops::add_pure(idx, 2);
        idx = crate::fixed::ops::add_pure(idx, frac);
        proof {
            lemma_third_exact(idx + 2);
            assert((idx + 2) / 3 == ii + 1);
        }
        idx
    }
}

/// The innovative-codebook stage of a subframe: the target after removing
/// the adaptive contribution, the shaping and combined responses, the
/// backward-filtered target, the codebook search and the code gain.
/// Returns `(index, sign, shift, code vector, code gain, shaping response)`.
#[verifier::spinoff_prover]
fn codebook_stage(
    aq: &[Word16],
    ap4: &[Word16; 11],
    fac3: &[Word16; 10],
    fac4: &[Word16; 10],
    t0: Word16,
    pitch_target: &[Word16; 60],
    filt_pitch: &[Word16; 60],
    ga: Word16,
) -> (r: (Word16, Word16, Word16, [Word16; 64], Word16, [Word16; 124]))
    requires
        aq@.len() == 11,
        t0 >= 0,
        fac3@ == gamma_factors(24576),
        fac4@ == gamma_factors(27853),
        ap4@ == weighted_lp(aq@, fac4@),
    ensures
        0 <= r.0 < 16384,
        r.1 == 0 || r.1 == 1,
        r.2 == 0 || r.2 == 1,
        r.5@ == shaping_response(aq@, fac3@, fac4@, t0 as int),
        forall|i: int| 0 <= i < 60 ==> #[trigger] r.3@[i] == code_sample(r.5@, r.0, r.1, r.2, i),
        ({
            let inn = innovation_choice(aq@, t0 as int, pitch_target@, filt_pitch@, ga as int);
            &&& r.0 == inn.0
            &&& r.1 == inn.1
            &&& r.2 == inn.2
            &&& r.4 == inn.3
        }),
{
    let mut code_target = [0i16; 60];
    let ghost ct = crate::analysis::code_target(pitch_target@, filt_pitch@, ga as int);
    let mut k: usize = 0;
    while k < 60
        invariant
            k <= 60,
            ct == crate::analysis::code_target(pitch_target@, filt_pitch@, ga as int),
            forall|q: int| 0 <= q < k ==> #[trigger] code_target@[q] == ct[q],
        decreases 60 - k,
    {
        let mut l = l_mult_pure(filt_pitch[k], ga);
        l = l_shl_pure(l, 3);
        l = l_sub_pure(load_high16(pitch_target[k]), l);
        code_target[k] = extract_h(l);
        proof {
            assert(code_target@[k as int] == ct[k as int]);
        }
        k = k + 1;
    }
    proof {
        assert(code_target@ =~= ct);
    }
    let zero_f = shaping(aq, fac3, fac4, t0);
    let mut fin = [0i16; 60];
    let mut k: usize = 0;
    while k < 60
        invariant
            k <= 60,
            forall|q: int| 0 <= q < k ==> #[trigger] fin@[q] == zero_f@[64 + q],
        decreases 60 - k,
    {
        fin[k] = zero_f[64 + k];
        k = k + 1;
    }
    proof {
        assert(fin@ =~= zero_f@.subrange(64, 124));
    }
    let mut h2 = [0i16; 60];
    let mut zm = [0i16; 10];
    let ghost zm0 = zm@;
    synthesis_filter(ap4, &fin, &mut h2, 60, &mut zm, false);
    let ghost h2s = synthesis_output(ap4@, fin@, zm0, 60);
    proof {
        lemma_synthesis_buffer_len(ap4@, fin@, zm0, 60);
        assert(zm0 =~= zeros(10));
        assert(h2@ =~= h2s);
    }
    let mut zero_h2 = [0i16; 124];
    let mut k: usize = 0;
    while k < 60
        invariant
            k <= 60,
            forall|q: int| 0 <= q < 64 ==> #[trigger] zero_h2@[q] == 0,
            forall|q: int| 0 <= q < k ==> #[trigger] zero_h2@[64 + q] == h2@[q],
        decreases 60 - k,
    {
        zero_h2[64 + k] = h2[k];
        k = k + 1;
    }
    proof {
        assert forall|q: int| 0 <= q < 124 implies #[trigger] zero_h2@[q] == (zeros(64) + h2s)[q] by {
            if q >= 64 {
                assert(zero_h2@[64 + (q - 64)] == h2@[q - 64]);
            }
        }
        assert(zero_h2@ =~= zeros(64) + h2s);
    }
    let mut dn = [0i16; 64];
    backward_filter(&code_target, &h2, &mut dn, 60);
    proof {
        assert(dn@ =~= crate::analysis::backward_target(ct, h2s));
    }
    let mut code = [0i16; 64];
    let mut filt_code = [0i16; 60];
    let (ci, sign, shift) = search_codebook(&mut dn, &zero_f, &zero_h2, &mut code, &mut filt_code);
    let gi = code_gain(&code_target, &filt_code, 60);
    proof {
        let fc = Seq::new(60, |i: int| code_sample(zero_h2@, ci as i16, sign as i16, shift as i16, i) as i16);
        assert(filt_code@ =~= fc);
    }
    (ci, sign, shift, code, gi, zero_f)
}

/// TETRA source speech encoder, stateful across frames.
pub struct Encoder {
    tables: CodecTables,
    pre: PreProcess,
    old_speech: [Word16; 290],
    old_wsp: [Word16; 383],
    old_exc: [Word16; 398],
    mem_syn: [Word16; 10],
    mem_w0: [Word16; 10],
    mem_w: [Word16; 10],
    lspold: [Word16; 10],
    lspold_q: [Word16; 10],
    last_ener_pit: Word16,
    last_ener_cod: Word16,
    f_gamma1: [Word16; 10],
    f_gamma2: [Word16; 10],
    f_gamma3: [Word16; 10],
    f_gamma4: [Word16; 10],
    levin_old_a: [Word16; 11],
    clsp_old: [Word16; 10],
}

/// The part of the codec state that both ends keep in step on a clean
/// channel: excitation buffer, synthesis memory, quantised LSPs of the
/// previous frame, and the two gain-predictor energies.
pub type SynthesisView = (Seq<Word16>, Seq<Word16>, Seq<Word16>, int, int);

impl Encoder {
    /// The codec tables the encoder reads.
    pub closed spec fn codec_tables(&self) -> CodecTables {
        self.tables
    }

    /// The state one subframe reads and moves, with the lag range
    /// `t0_min..=t0_max`.
    spec fn carry(&self, t0_min: int, t0_max: int) -> SubframeCarry {
        (
            self.old_exc@,
            self.mem_syn@,
            self.mem_w0@,
            self.last_ener_pit as int,
            self.last_ener_cod as int,
            t0_min,
            t0_max,
        )
    }

    /// The encoder state as plain values (the tables and the invariant
    /// parts aside).
    pub closed spec fn state_view(&self) -> EncoderView {
        EncoderView {
            pre: self.pre.view_state(),
            speech: self.old_speech@,
            wsp: self.old_wsp@,
            exc: self.old_exc@,
            mem_syn: self.mem_syn@,
            mem_w0: self.mem_w0@,
            mem_w: self.mem_w@,
            lsp: self.lspold@,
            lsp_q: self.lspold_q@,
            ener_pit: self.last_ener_pit as int,
            ener_cod: self.last_ener_cod as int,
            lpc: self.levin_old_a@,
        }
    }

    /// The state the decoder mirrors on a clean channel.
    pub closed spec fn synthesis_view(&self) -> SynthesisView {
        (self.old_exc@, self.mem_syn@, self.lspold_q@, self.last_ener_pit as int, self.last_ener_cod as int)
    }

    /// The encoder's invariant: the expansion factors are those of
    /// `0.95, 0.6, 0.75, 0.85`, and the fallback LSP set is the previous
    /// quantised set.
    pub closed spec fn wf(&self) -> bool {
        &&& self.f_gamma1@ == gamma_factors(31130)
        &&& self.f_gamma2@ == gamma_factors(19661)
        &&& self.f_gamma3@ == gamma_factors(24576)
        &&& self.f_gamma4@ == gamma_factors(27853)
        &&& self.clsp_old@ == self.lspold_q@
    }

    /// Encode subframe `s` once the filters are known: pitch, codebook and
    /// gain analysis, then the excitation and filter-memory updates. Returns
    /// the five parameters, the lag and the new lag range; the synthesis
    /// state moves exactly as the decoder's does on these parameters.
    #[verifier::rlimit(100)]
    #[verifier::spinoff_prover]
    fn encode_subframe(
        &mut self,
        aq_t: &[Word16; 44],
        s: usize,
        t0_min: Word16,
        t0_max: Word16,
        out: &mut [Word16; 60],
    ) -> (r: ([Word16; 5], Word16, Word16, Word16))
        requires
            s < 4,
            old(self).wf(),
            s == 0 ==> 20 <= t0_min && t0_max == t0_min + 4 && t0_max <= 143,
            s > 0 ==> 20 <= t0_min <= 134 && t0_max == t0_min + 9,
        ensures
            final(self).wf(),
            final(self).codec_tables() == old(self).codec_tables(),
            final(self).lspold_q == old(self).lspold_q,
            final(self).old_speech == old(self).old_speech,
            0 <= r.0[0] < (if s == 0 { 256int } else { 32 }),
            0 <= r.0[1] < 16384,
            0 <= r.0[2] < 2,
            0 <= r.0[3] < 2,
            0 <= r.0[4] < 64,
            20 <= r.2 <= 134,
            r.3 == r.2 + 9,
            s > 0 ==> r.2 == t0_min,
            ({
                let o = old(self).synthesis_view();
                let step = subframe_from_params(
                    old(self).codec_tables(),
                    gamma_factors(24576),
                    gamma_factors(27853),
                    aq_t@.subrange(11 * s, 11 * s + 11),
                    r.0@,
                    0,
                    60,
                    (o.0, o.1, 0, t0_min as int, o.3, o.4),
                    s as int,
                );
                &&& final(self).synthesis_view() == (step.0.0, step.0.1, o.2, step.0.4, step.0.5)
                &&& step.0.2 == r.1
                &&& step.0.3 == r.2
                &&& final(out)@ == step.1
            }),
            ({
                let c = subframe_analysis(
                    old(self).codec_tables(),
                    aq_t@.subrange(11 * s, 11 * s + 11),
                    s as int,
                    old(self).old_speech@,
                    old(self).carry(t0_min as int, t0_max as int),
                );
                &&& r.0@ == c.0
                &&& final(self).carry(r.2 as int, r.3 as int) == c.1
            }),
            final(self).old_wsp == old(self).old_wsp,
            final(self).mem_w == old(self).mem_w,
            final(self).lspold == old(self).lspold,
            final(self).levin_old_a == old(self).levin_old_a,
            final(self).pre == old(self).pre,
    {
        let ghost tables = self.tables;
        let ghost exc0 = self.old_exc@;
        let ghost mw00 = self.mem_w0@;
        let ghost lspq0 = self.lspold_q;
        let mut exc = self.old_exc;
        let eb = 158 + 60 * s;
        let aq = &aq_t[s * 11..s * 11 + 11];
        let mut ap3 = [0i16; 11];
        let mut ap4 = [0i16; 11];
        weight_lp(aq, &self.f_gamma3, &mut ap3);
        weight_lp(aq, &self.f_gamma4, &mut ap4);
        proof {
            assert(ap4@ =~= weighted_lp(aq@, self.f_gamma4@));
        }
        // Impulse response of the weighted synthesis filter.
        let mut imp = [0i16; 60];
        imp[0] = 4096;
        let mut h1 = [0i16; 60];
        let mut zm = [0i16; 10];
        proof {
            assert(imp@ =~= unit_impulse());
            assert(zm@ =~= zeros(10));
        }
        synthesis_filter(&ap4, &imp, &mut h1, 60, &mut zm, false);
        let ghost h1s = synthesis_output(ap4@, unit_impulse(), zeros(10), 60);
        proof {
            lemma_synthesis_buffer_len(ap4@, unit_impulse(), zeros(10), 60);
            assert(h1@ =~= h1s);
        }
        // LP residual into the excitation buffer.
        let mut res = [0i16; 60];
        lp_residual(aq, &self.old_speech[60 * s..60 * s + 70], &mut res, 60);
        let ghost res0 = res@;
        proof {
            assert(res0 =~= residual_of(aq@, self.old_speech@.subrange(60 * s, 60 * s + 70), 60));
        }
        let mut k: usize = 0;
        while k < 60
            invariant
                k <= 60,
                eb == 158 + 60 * s,
                s < 4,
                exc@.len() == 398,
                res@ == res0,
                forall|q: int| 0 <= q < 398 && !(eb <= q < eb + 60) ==> #[trigger] exc@[q] == exc0[q],
                forall|q: int| eb <= q < eb + k ==> #[trigger] exc@[q] == res0[q - eb],
                forall|q: int| eb + k <= q < eb + 60 ==> #[trigger] exc@[q] == exc0[q],
            decreases 60 - k,
        {
            exc[eb + k] = res[k];
            k = k + 1;
        }
        let ghost exc_res = exc@;
        proof {
            assert(exc_res =~= written(exc0, eb as int, res0, 60));
        }
        // Target for the pitch search.
        let mut pitch_target = [0i16; 60];
        let mut mw0 = self.mem_w0;
        synthesis_filter(&ap4, &res, &mut pitch_target, 60, &mut mw0, false);
        proof {
            lemma_synthesis_buffer_len(ap4@, res0, mw00, 60);
            assert(pitch_target@ =~= synthesis_output(ap4@, res0, mw00, 60));
        }
        let (t0, frac) = closed_loop_pitch(
            &self.tables,
            &exc,
            eb,
            &pitch_target,
            &h1,
            60,
            t0_min,
            t0_max,
            60 * s,
        );
        let pidx = pitch_index(s, t0, frac, t0_min);
        let mut new_min = t0_min;
        let mut new_max = t0_max;
        if s == 0 {
            new_min = crate::fixed::ops::sub_pure(t0, 5);
            if new_min < 20 {
                new_min = 20;
            }
            new_max = crate::fixed::ops::add_pure(new_min, 9);
            if new_max > 143 {
                new_max = 143;
                new_min = crate::fixed::ops::sub_pure(new_max, 9);
            }
        }
        proof {
            assert(s == 0 ==> new_min == first_lag_min(t0 as int));
        }
        // Adaptive codebook vector.
        long_term_predict(&self.tables, &mut exc, eb, t0, frac, 60);
        let ghost exc1 = exc@;
        proof {
            lemma_ltp_overwrites(tables, exc_res, exc0, eb as int, t0 as int, frac as int, 60);
            assert(exc1 =~= ltp_buffer(tables, exc0, eb as int, t0 as int, frac as int, 60));
        }
        let mut seg = [0i16; 60];
        let mut k: usize = 0;
        while k < 60
            invariant
                k <= 60,
                eb == 158 + 60 * s,
                s < 4,
                exc@ == exc1,
                forall|q: int| 0 <= q < k ==> #[trigger] seg@[q] == exc1[eb + q],
            decreases 60 - k,
        {
            seg[k] = exc[eb + k];
            k = k + 1;
        }
        proof {
            assert(seg@ =~= exc1.subrange(eb as int, eb + 60));
        }
        let mut filt_pitch = [0i16; 60];
        let mut zm = [0i16; 10];
        proof {
            assert(zm@ =~= zeros(10));
        }
        synthesis_filter(&ap4, &seg, &mut filt_pitch, 60, &mut zm, false);
        proof {
            lemma_synthesis_buffer_len(ap4@, seg@, zeros(10), 60);
            assert(filt_pitch@ =~= synthesis_output(ap4@, seg@, zeros(10), 60));
        }
        let ga0 = pitch_gain(&pitch_target, &filt_pitch, 60);
        let (ci, sign, shift, code, gi0, zero_f) = codebook_stage(
            aq,
            &ap4,
            &self.f_gamma3,
            &self.f_gamma4,
            t0,
            &pitch_target,
            &filt_pitch,
            ga0,
        );
        let mut ga = ga0;
        let mut gi = gi0;
        let pit0 = self.last_ener_pit;
        let cod0 = self.last_ener_cod;
        let mut pit = pit0;
        let mut cod = cod0;
        let gidx = quantize_gains(&self.tables, aq, &seg, &code, 60, &mut ga, &mut gi, &mut pit, &mut cod);
        proof {
            let en = next_energies(tables, gidx as int, 0, pit0 as int, cod0 as int);
            assert(pit == en.0 && cod == en.1);
        }
        let params: [Word16; 5] = [pidx, ci, sign, shift, gidx];
        let ghost code_spec = Seq::new(60, |i: int| code_sample(zero_f@, ci, sign, shift, i) as i16);
        proof {
            assert(code@.take(60) =~= code_spec);
            assert(code_spec.take(60) =~= code_spec);
        }
        // Total excitation.
        let mut k: usize = 0;
        while k < 60
            invariant
                k <= 60,
                eb == 158 + 60 * s,
                s < 4,
                exc@.len() == 398,
                forall|q: int| 0 <= q < k ==> #[trigger] exc@[eb + q] == shift32_round(
                    sat32(exc1[eb + q] * ga + code_spec[q] * gi),
                    12,
                ) as i16,
                forall|q: int| 0 <= q < 398 && !(eb <= q < eb + k) ==> #[trigger] exc@[q] == exc1[q],
                forall|q: int| 0 <= q < 60 ==> #[trigger] code@[q] == code_spec[q],
            decreases 60 - k,
        {
            let mut l = l_mult0(exc[eb + k], ga);
            l = l_mac0_pure(l, code[k], gi);
            exc[eb + k] = extract_l(l_shr_r_pure(l, 12));
            k = k + 1;
        }
        let ghost exc2 = exc@;
        // Memory of the weighting filter.
        let ghost err = Seq::new(60, |q: int| sat16(res0[q] - exc2[eb + q]) as i16);
        let mut k: usize = 0;
        while k < 60
            invariant
                k <= 60,
                eb == 158 + 60 * s,
                s < 4,
                exc@ == exc2,
                err == Seq::new(60, |q: int| sat16(res0[q] - exc2[eb + q]) as i16),
                forall|q: int| 0 <= q < k ==> #[trigger] res@[q] == err[q],
                forall|q: int| k <= q < 60 ==> #[trigger] res@[q] == res0[q],
            decreases 60 - k,
        {
            res[k] = crate::fixed::ops::sub_pure(res[k], exc[eb + k]);
            k = k + 1;
        }
        proof {
            assert(res@ =~= err);
        }
        let mut tmp = [0i16; 60];
        let mut mw0 = self.mem_w0;
        synthesis_filter(&ap4, &res, &mut tmp, 60, &mut mw0, true);
        let ghost mws = synthesis_output(ap4@, err, mw00, 60).subrange(50, 60);
        proof {
            lemma_synthesis_buffer_len(ap4@, err, mw00, 60);
            assert(mw0@ =~= mws);
        }
        self.mem_w0 = mw0;
        // Local synthesis.
        let mut xin = [0i16; 60];
        let mut k: usize = 0;
        while k < 60
            invariant
                k <= 60,
                eb == 158 + 60 * s,
                s < 4,
                exc@ == exc2,
                forall|q: int| 0 <= q < k ==> #[trigger] xin@[q] == exc2[eb + q],
            decreases 60 - k,
        {
            xin[k] = exc[eb + k];
            k = k + 1;
        }
        proof {
            assert(xin@ =~= exc2.subrange(eb as int, eb + 60));
        }
        let mut mem = self.mem_syn;
        let ghost mem0 = self.mem_syn@;
        synthesis_filter(aq, &xin, out, 60, &mut mem, true);
        let ghost outv = synthesis_output(aq@, xin@, mem0, 60);
        proof {
            lemma_synthesis_buffer_len(aq@, xin@, mem0, 60);
            assert(out@ =~= outv);
            assert(mem@ =~= outv.subrange(50, 60));
        }
        self.old_exc = exc;
        self.mem_syn = mem;
        self.last_ener_pit = pit;
        self.last_ener_cod = cod;
        proof {
            reveal(subframe_from_params);
            let a_s = aq_t@.subrange(11 * s, 11 * s + 11);
            assert(aq@ == a_s);
            let o_pit = old(self).last_ener_pit as int;
            let o_cod = old(self).last_ener_cod as int;
            let st: SubframeState = (exc0, mem0, 0, t0_min as int, o_pit, o_cod);
            let pl = pitch_lag(s as int, 0, pidx as int, 0, t0_min as int, 60);
            assert(pl == (t0 as int, frac as int, new_min as int));
            let ex1 = if pl.1 == 0 || pl.1 == 1 || pl.1 == -1 {
                ltp_buffer(tables, exc0, eb as int, pl.0, pl.1, 60)
            } else {
                exc0
            };
            assert(exc1 == ex1);
            assert(zero_f@ == shaping_response(a_s, gamma_factors(24576), gamma_factors(27853), pl.0));
            assert(params@[1] == ci && params@[2] == sign && params@[3] == shift && params@[4] == gidx);
            let en = next_energies(tables, gidx as int, 0, o_pit, o_cod);
            assert(pit == en.0 && cod == en.1);
            assert(code_energy(tables, a_s, code@, 60) == code_energy(tables, a_s, code_spec, 60));
            let g = decoded_gains(
                en.0,
                en.1,
                pitch_energy(tables, a_s, ex1.subrange(eb as int, eb + 60), 60),
                code_energy(tables, a_s, code_spec, 60),
            );
            assert(seg@ == ex1.subrange(eb as int, eb + 60));
            assert(ga == g.0 && gi == g.1);
            let step = subframe_from_params(
                tables,
                gamma_factors(24576),
                gamma_factors(27853),
                a_s,
                params@,
                0,
                60,
                st,
                s as int,
            );
            assert forall|q: int| 0 <= q < 398 implies #[trigger] exc@[q] == step.0.0[q] by {
                if eb <= q < eb + 60 {
                    assert(exc2[eb + (q - eb)] == shift32_round(
                        sat32(exc1[eb + (q - eb)] * ga + code_spec[q - eb] * gi),
                        12,
                    ) as i16);
                }
            }
            assert(exc@ =~= step.0.0);
            let zf_spec = shaping_response(a_s, gamma_factors(24576), gamma_factors(27853), t0 as int);
            let code_a = Seq::new(60, |i: int| code_sample(zf_spec, ci, sign, shift, i) as i16);
            assert(code_spec =~= code_a);
            assert(params@ =~= seq![
                pitch_index_value(s as int, t0 as int, frac as int, t0_min as int) as i16,
                ci,
                sign,
                shift,
                gidx,
            ]);
            let err_a = Seq::new(60, |k: int| sat16(res0[k] - step.0.0[158 + 60 * s + k]) as i16);
            assert(err =~= err_a);
            lemma_subframe_analysis(
                tables,
                a_s,
                s as int,
                old(self).old_speech@,
                old(self).carry(t0_min as int, t0_max as int),
                h1s,
                res0,
                exc_res,
                pitch_target@,
                (t0 as int, frac as int),
                seg@,
                filt_pitch@,
                ga0 as int,
                (ci as int, sign as int, shift as int, gi0 as int),
                code_a,
                gidx as int,
                params@,
                err_a,
                mws,
                (new_min as int, new_max as int),
            );
        }
        (params, t0, new_min, new_max)
    }
}

/// The encoder has produced the first `sf` subframes: its synthesis state
/// and output are the decoder's after those subframes of `ana`.
pub open spec fn encoding_progress(
    view: SynthesisView,
    lspq: Seq<Word16>,
    tables: CodecTables,
    aq: Seq<Word16>,
    ana: Seq<Word16>,
    synth: Seq<Word16>,
    init: SubframeState,
    sf: int,
    t0_min: int,
) -> bool {
    let r = decode_subframes(tables, gamma_factors(24576), gamma_factors(27853), aq, ana, 0, 60, init, sf as nat);
    &&& view == (r.0.0, r.0.1, lspq, r.0.4, r.0.5)
    &&& sf > 0 ==> r.0.3 == t0_min
    &&& synth.take(60 * sf) == r.1
    &&& r.1.len() == 60 * sf
}

/// One encoded subframe advances [`encoding_progress`].
proof fn lemma_encoding_step(
    tables: CodecTables,
    aq: Seq<Word16>,
    lspq: Seq<Word16>,
    before_ana: Seq<Word16>,
    ana: Seq<Word16>,
    before_synth: Seq<Word16>,
    synth: Seq<Word16>,
    out: Seq<Word16>,
    params: Seq<Word16>,
    init: SubframeState,
    sf: int,
    min_before: int,
    min_after: int,
    view_before: SynthesisView,
    view_after: SynthesisView,
)
    requires
        0 <= sf < 4,
        init.2 == 0 && init.3 == 0,
        init.0 == view_before.0 || sf > 0,
        sf == 0 ==> init == (view_before.0, view_before.1, 0int, 0int, view_before.3, view_before.4),
        encoding_progress(view_before, lspq, tables, aq, before_ana, before_synth, init, sf, min_before),
        before_ana.len() == 23,
        ana.len() == 23,
        before_synth.len() == 240,
        synth.len() == 240,
        out.len() == 60,
        params.len() == 5,
        forall|q: int| 0 <= q < 3 + 5 * sf ==> #[trigger] ana[q] == before_ana[q],
        forall|q: int| 0 <= q < 5 ==> #[trigger] ana[3 + 5 * sf + q] == params[q],
        forall|q: int| 0 <= q < 60 * sf ==> #[trigger] synth[q] == before_synth[q],
        forall|q: int| 0 <= q < 60 ==> #[trigger] synth[60 * sf + q] == out[q],
        ({
            let step = subframe_from_params(
                tables,
                gamma_factors(24576),
                gamma_factors(27853),
                aq.subrange(11 * sf, 11 * sf + 11),
                params,
                0,
                60,
                (view_before.0, view_before.1, 0, min_before, view_before.3, view_before.4),
                sf,
            );
            &&& view_after == (step.0.0, step.0.1, lspq, step.0.4, step.0.5)
            &&& step.0.3 == min_after
            &&& out == step.1
        }),
    ensures
        encoding_progress(view_after, lspq, tables, aq, ana, synth, init, sf + 1, min_after),
{
    let prev = decode_subframes(tables, gamma_factors(24576), gamma_factors(27853), aq, before_ana, 0, 60, init, sf as nat);
    assert forall|q: int| 0 <= q < 5 implies #[trigger] ana.subrange(3 + 5 * sf, 8 + 5 * sf)[q] == params[q] by {
        assert(ana[3 + 5 * sf + q] == params[q]);
    }
    assert(ana.subrange(3 + 5 * sf, 8 + 5 * sf) =~= params);
    lemma_subframes_prefix(
        tables,
        gamma_factors(24576),
        gamma_factors(27853),
        aq,
        before_ana,
        ana,
        0,
        60,
        init,
        sf as nat,
    );
    lemma_subframe_history(
        tables,
        gamma_factors(24576),
        gamma_factors(27853),
        aq.subrange(11 * sf, 11 * sf + 11),
        params,
        0,
        prev.0.2,
        min_before,
        prev.0.3,
        60,
        60,
        prev.0.0,
        prev.0.1,
        prev.0.4,
        prev.0.5,
        sf,
    );
    assert forall|q: int| 0 <= q < 60 * sf + 60 implies #[trigger] synth.take(60 * sf + 60)[q] == (prev.1
        + out)[q] by {
        if q < 60 * sf {
            assert(synth[q] == before_synth[q]);
            assert(before_synth.take(60 * sf)[q] == prev.1[q]);
        } else {
            assert(synth[60 * sf + (q - 60 * sf)] == out[q - 60 * sf]);
        }
    }
    assert(synth.take(60 * sf + 60) =~= prev.1 + out);
}

/// The decoder state that mirrors an encoder's synthesis state (the parts
/// a good frame does not read are fixed arbitrarily).
pub open spec fn mirror_state(v: SynthesisView) -> DecoderState {
    DecoderState {
        exc: v.0,
        mem: v.1,
        lspold: v.2,
        lspnew: v.2,
        old_parm: Seq::new(23, |i: int| 0i16),
        old_t0: 60,
        ener_pit: v.3,
        ener_cod: v.4,
    }
}

/// The state of a freshly created encoder: silent histories and filter
/// memories, the initial LSPs, zero predictor energies, and the trivial
/// filter `A(z) = 1` to fall back on.
pub open spec fn fresh_view() -> EncoderView {
    EncoderView {
        pre: (0, 0, 0),
        speech: zeros(290),
        wsp: zeros(383),
        exc: zeros(398),
        mem_syn: zeros(10),
        mem_w0: zeros(10),
        mem_w: zeros(10),
        lsp: LSP_INIT@,
        lsp_q: LSP_INIT@,
        ener_pit: 0,
        ener_cod: 0,
        lpc: Seq::new(11, |i: int| if i == 0 { 4096i16 } else { 0i16 }),
    }
}

impl Encoder {
    /// Create an encoder with reset state, reading the given tables.
    pub fn new(tables: &CodecTables) -> (e: Self)
        ensures
            e.wf(),
            e.codec_tables() == *tables,
            e.state_view() == fresh_view(),
            e.synthesis_view() == (
                Seq::new(398, |i: int| 0i16),
                Seq::new(10, |i: int| 0i16),
                LSP_INIT@,
                0int,
                0int,
            ),
    {
        let mut f_gamma1 = [0i16; 10];
        let mut f_gamma2 = [0i16; 10];
        let mut f_gamma3 = [0i16; 10];
        let mut f_gamma4 = [0i16; 10];
        weight_factors(31130, &mut f_gamma1);
        weight_factors(19661, &mut f_gamma2);
        weight_factors(24576, &mut f_gamma3);
        weight_factors(27853, &mut f_gamma4);
        let e = Encoder {
            tables: *tables,
            pre: PreProcess::new(),
            old_speech: [0; 290],
            old_wsp: [0; 383],
            old_exc: [0; 398],
            mem_syn: [0; 10],
            mem_w0: [0; 10],
            mem_w: [0; 10],
            lspold: LSP_INIT,
            lspold_q: LSP_INIT,
            last_ener_pit: 0,
            last_ener_cod: 0,
            f_gamma1,
            f_gamma2,
            f_gamma3,
            f_gamma4,
            levin_old_a: [4096, 0, 0, 0, 0, 0, 0, 0, 0, 0, 0],
            clsp_old: LSP_INIT,
        };
        proof {
            assert(e.f_gamma1@ =~= gamma_factors(31130));
            assert(e.f_gamma2@ =~= gamma_factors(19661));
            assert(e.f_gamma3@ =~= gamma_factors(24576));
            assert(e.f_gamma4@ =~= gamma_factors(27853));
            assert(e.old_exc@ =~= Seq::new(398, |i: int| 0i16));
            assert(e.mem_syn@ =~= Seq::new(10, |i: int| 0i16));
            assert(e.old_speech@ =~= zeros(290));
            assert(e.old_wsp@ =~= zeros(383));
            assert(e.old_exc@ =~= zeros(398));
            assert(e.mem_syn@ =~= zeros(10));
            assert(e.mem_w0@ =~= zeros(10));
            assert(e.mem_w@ =~= zeros(10));
            assert(e.levin_old_a@ =~= Seq::new(11, |i: int| if i == 0 { 4096i16 } else { 0i16 }));
            assert(e.state_view() == fresh_view());
        }
        e
    }

    /// The weighted speech of the current frame, `old_wsp[143..383]`,
    /// through `A(z/g1) / A(z/g2)` of each subframe's filter.
    fn weighted_speech(&mut self, a_t: &[Word16; 44])
        requires
            old(self).wf(),
        ensures
            final(self).wf(),
            final(self).codec_tables() == old(self).codec_tables(),
            final(self).synthesis_view() == old(self).synthesis_view(),
            final(self).old_speech == old(self).old_speech,
            final(self).mem_w0 == old(self).mem_w0,
            final(self).lspold == old(self).lspold,
            final(self).levin_old_a == old(self).levin_old_a,
            final(self).pre == old(self).pre,
            final(self).old_wsp@ == old(self).old_wsp@.take(143) + weighted_run(
                a_t@,
                old(self).old_speech@,
                old(self).mem_w@,
                4,
            ).0,
            final(self).mem_w@ == weighted_run(a_t@, old(self).old_speech@, old(self).mem_w@, 4).1,
    {
        let ghost speech = self.old_speech@;
        let ghost wsp0 = self.old_wsp@;
        let ghost mw0 = self.mem_w@;
        let mut wsp = self.old_wsp;
        let mut mw = self.mem_w;
        let mut ap1 = [0i16; 11];
        let mut ap2 = [0i16; 11];
        let mut sf: usize = 0;
        while sf < 4
            invariant
                sf <= 4,
                self.wf(),
                self.old_speech@ == speech,
                wsp@.len() == 383,
                forall|q: int| 0 <= q < 143 ==> #[trigger] wsp@[q] == wsp0[q],
                wsp@.subrange(143, 143 + 60 * sf) == weighted_run(a_t@, speech, mw0, sf as nat).0,
                mw@ == weighted_run(a_t@, speech, mw0, sf as nat).1,
                mw@.len() == 10,
            decreases 4 - sf,
        {
            let ghost prev = weighted_run(a_t@, speech, mw0, sf as nat);
            let ghost wsp_before = wsp@;
            let a = &a_t[11 * sf..11 * sf + 11];
            weight_lp(a, &self.f_gamma1, &mut ap1);
            weight_lp(a, &self.f_gamma2, &mut ap2);
            let mut r60 = [0i16; 60];
            lp_residual(&ap1, &self.old_speech[60 * sf..60 * sf + 70], &mut r60, 60);
            let mut w60 = [0i16; 60];
            let ghost mw_before = mw@;
            synthesis_filter(&ap2, &r60, &mut w60, 60, &mut mw, true);
            let ghost a_s = a_t@.subrange(11 * sf, 11 * sf + 11);
            let ghost ws = synthesis_output(
                weighted_lp(a_s, gamma_factors(19661)),
                residual_of(weighted_lp(a_s, gamma_factors(31130)), speech.subrange(60 * sf, 60 * sf + 70), 60),
                prev.1,
                60,
            );
            proof {
                assert(ap1@ =~= weighted_lp(a_s, gamma_factors(31130)));
                assert(ap2@ =~= weighted_lp(a_s, gamma_factors(19661)));
                assert(r60@ =~= residual_of(ap1@, speech.subrange(60 * sf, 60 * sf + 70), 60));
                lemma_synthesis_buffer_len(ap2@, r60@, mw_before, 60);
                assert(w60@ =~= ws);
                assert(mw@ =~= ws.subrange(50, 60));
            }
            let mut k: usize = 0;
            while k < 60
                invariant
                    k <= 60,
                    sf < 4,
                    wsp@.len() == 383,
                    forall|q: int| 0 <= q < 143 + 60 * sf ==> #[trigger] wsp@[q] == wsp_before[q],
                    forall|q: int| 0 <= q < k ==> #[trigger] wsp@[143 + 60 * sf + q] == w60@[q],
                decreases 60 - k,
            {
                wsp[143 + 60 * sf + k] = w60[k];
                k = k + 1;
            }
            proof {
                assert forall|q: int| 0 <= q < 60 * sf + 60 implies #[trigger] wsp@.subrange(143, 143 + 60 * (sf + 1))[q]
                    == (prev.0 + ws)[q] by {
                    if q < 60 * sf {
                        assert(wsp@[143 + q] == wsp_before[143 + q]);
                        assert(wsp_before.subrange(143, 143 + 60 * sf)[q] == prev.0[q]);
                    } else {
                        assert(wsp@[143 + 60 * sf + (q - 60 * sf)] == w60@[q - 60 * sf]);
                    }
                }
                assert(wsp@.subrange(143, 143 + 60 * (sf + 1)) =~= prev.0 + ws);
            }
            sf = sf + 1;
        }
        proof {
            assert(wsp@ =~= wsp0.take(143) + weighted_run(a_t@, speech, mw0, 4).0);
        }
        self.old_wsp = wsp;
        self.mem_w = mw;
    }

    /// LP analysis and LSP quantisation of the frame in `old_speech`:
    /// returns the unquantised and the quantised filters of the four
    /// subframes and the three LSP indices; the new LSPs (both), the
    /// fallback set and the fallback filter are kept.
    #[verifier::rlimit(40)]
    fn lp_filters(&mut self) -> (r: ([Word16; 44], [Word16; 44], [Word16; 3]))
        requires
            old(self).wf(),
        ensures
            final(self).wf(),
            final(self).codec_tables() == old(self).codec_tables(),
            final(self).old_speech == old(self).old_speech,
            final(self).old_wsp == old(self).old_wsp,
            final(self).old_exc == old(self).old_exc,
            final(self).mem_syn == old(self).mem_syn,
            final(self).mem_w0 == old(self).mem_w0,
            final(self).mem_w == old(self).mem_w,
            final(self).last_ener_pit == old(self).last_ener_pit,
            final(self).last_ener_cod == old(self).last_ener_cod,
            final(self).pre == old(self).pre,
            ({
                let tables = old(self).codec_tables();
                let lsp_new = analysed_lsp(tables, old(self).old_speech@, old(self).levin_old_a@, old(self).lspold@);
                let ind = lsp_indices(tables, lsp_new);
                &&& final(self).levin_old_a@ == lp_analysis(tables, old(self).old_speech@, old(self).levin_old_a@).1
                &&& final(self).lspold@ == lsp_new
                &&& (r.2[0] as int, r.2[1] as int, r.2[2] as int) == ind
                &&& final(self).lspold_q@ == decoded_lsp(tables, ind.0, ind.1, ind.2, old(self).lspold_q@)
                &&& r.0@ == frame_filters(old(self).lspold@, lsp_new)
                &&& r.1@ == frame_filters(old(self).lspold_q@, final(self).lspold_q@)
            }),
            0 <= r.2[0] < 256,
            0 <= r.2[1] < 512,
            0 <= r.2[2] < 512,
    {
        let ghost tables = self.tables;
        let ghost speech = self.old_speech@;
        let ghost lp = lp_analysis(tables, speech, self.levin_old_a@);
        let ghost lsp0 = self.lspold@;
        let ghost lspq0 = self.lspold_q@;
        let mut r_h = [0i16; 11];
        let mut r_l = [0i16; 11];
        autocorrelation(&self.tables, &self.old_speech[34..290], &mut r_h, &mut r_l);
        let ghost rh0 = r_h@;
        let ghost rl0 = r_l@;
        proof {
            let x = speech.subrange(34, 290);
            assert(rh0 =~= Seq::new(11, |i: int| split_hi(autocorr_value(tables, x, i)) as i16));
            assert(rl0 =~= Seq::new(11, |i: int| split_lo(autocorr_value(tables, x, i)) as i16));
        }
        apply_lag_window(&self.tables, &mut r_h, &mut r_l);
        proof {
            assert(r_h@ =~= Seq::new(
                11,
                |i: int| if i == 0 { rh0[0] } else { split_hi(lag_windowed(tables, rh0, rl0, i)) as i16 },
            ));
            assert(r_l@ =~= Seq::new(
                11,
                |i: int| if i == 0 { rl0[0] } else { split_lo(lag_windowed(tables, rh0, rl0, i)) as i16 },
            ));
        }
        let mut a_t = [0i16; 44];
        let mut levin = self.levin_old_a;
        levinson_durbin(&r_h, &r_l, &mut a_t, &mut levin);
        proof {
            assert(a_t@ =~= lp.0 + zeros(33));
            assert(levin@ =~= lp.1);
        }
        self.levin_old_a = levin;
        let mut lspnew = [0i16; 10];
        lp_to_lsp(&self.tables, &a_t, &mut lspnew, &self.lspold);
        proof {
            assert(lspnew@ =~= analysed_lsp(tables, speech, old(self).levin_old_a@, lsp0));
        }
        let mut lspnew_q = [0i16; 10];
        let mut ind = [0i16; 3];
        let mut clsp = self.clsp_old;
        quantize_lsp(&self.tables, &lspnew, &mut lspnew_q, &mut ind, &mut clsp);
        proof {
            lemma_nearest_entry(lspnew@, tables.dico1_clsp@, 3, 0, 256, ind[0] as int);
            lemma_nearest_entry(lspnew@, tables.dico2_clsp@, 3, 3, 512, ind[1] as int);
            lemma_nearest_entry(lspnew@, tables.dico3_clsp@, 4, 6, 512, ind[2] as int);
            assert(lspnew_q@ =~= decoded_lsp(tables, ind[0] as int, ind[1] as int, ind[2] as int, lspq0));
            assert(clsp@ =~= lspnew_q@);
        }
        interpolate_lp(&self.lspold, &lspnew, &mut a_t);
        let mut aq_t = [0i16; 44];
        interpolate_lp(&self.lspold_q, &lspnew_q, &mut aq_t);
        proof {
            assert forall|n: int| 0 <= n < 44 implies #[trigger] a_t@[n] == frame_filters(lsp0, lspnew@)[n] by {
                if n < 33 {
                    let k = n / 11;
                    let q = n % 11;
                    assert(a_t@[11 * k + q] == lp_from_lsp(interpolated_lsp(lsp0, lspnew@, k))[q]);
                } else {
                    assert(a_t@[33 + (n - 33)] == lp_from_lsp(lspnew@)[n - 33]);
                }
            }
            assert(a_t@ =~= frame_filters(lsp0, lspnew@));
            assert forall|n: int| 0 <= n < 44 implies #[trigger] aq_t@[n] == frame_filters(lspq0, lspnew_q@)[n] by {
                if n < 33 {
                    let k = n / 11;
                    let q = n % 11;
                    assert(aq_t@[11 * k + q] == lp_from_lsp(interpolated_lsp(lspq0, lspnew_q@, k))[q]);
                } else {
                    assert(aq_t@[33 + (n - 33)] == lp_from_lsp(lspnew_q@)[n - 33]);
                }
            }
            assert(aq_t@ =~= frame_filters(lspq0, lspnew_q@));
        }
        self.lspold = lspnew;
        self.lspold_q = lspnew_q;
        self.clsp_old = clsp;
        (a_t, aq_t, ind)
    }

    /// Encode the frame held in `old_speech`: LP analysis and LSP
    /// quantisation, weighted speech and open-loop pitch, the four
    /// subframes, and the history shift.
    #[verifier::rlimit(100)]
    #[verifier::spinoff_prover]
    fn encode_core(&mut self, ana: &mut [Word16; 23], synth: &mut [Word16; 240])
        requires
            old(self).wf(),
        ensures
            final(self).wf(),
            final(self).codec_tables() == old(self).codec_tables(),
            params_fit(final(ana)@),
            ({
                let d = decode_result(
                    old(self).codec_tables(),
                    mirror_state(old(self).synthesis_view()),
                    seq![0i16] + final(ana)@,
                );
                &&& final(self).synthesis_view() == (d.0.exc, d.0.mem, d.0.lspold, d.0.ener_pit, d.0.ener_cod)
                &&& final(synth)@ == d.1
            }),
            ({
                let fa = frame_analysis(old(self).codec_tables(), old(self).state_view());
                &&& final(ana)@ == fa.0
                &&& final(self).state_view() == fa.1
            }),
    {
        let ghost tables = self.tables;
        let ghost v0 = self.synthesis_view();
        let ghost e0 = self.state_view();
        // LP analysis and LSP quantisation.
        let (a_t, aq_t, ind) = self.lp_filters();
        let ghost lspq = self.lspold_q@;
        // Weighted speech and open-loop pitch.
        self.weighted_speech(&a_t);
        let t0_ol = open_loop_pitch(&self.old_wsp, 143, 240);
        let mut t0_min = crate::fixed::ops::sub_pure(t0_ol, 2);
        if t0_min < 20 {
            t0_min = 20;
        }
        let mut t0_max = crate::fixed::ops::add_pure(t0_min, 4);
        if t0_max > 143 {
            t0_max = 143;
            t0_min = crate::fixed::ops::sub_pure(t0_max, 4);
        }
        proof {
            assert((t0_min as int, t0_max as int) == initial_lag_range(t0_ol as int));
        }
        // The four subframes.
        ana[0] = ind[0];
        ana[1] = ind[1];
        ana[2] = ind[2];
        let ghost parm_lsp = ana@;
        proof {
            lemma2_to64();
            let d0 = mirror_state(v0);
            let full = seq![0i16] + ana@;
            assert(full[1] == ind[0] && full[2] == ind[1] && full[3] == ind[2]);
            assert(lspq =~= next_lsp(tables, d0, full));
        }
        let ghost init: SubframeState = (v0.0, v0.1, 0, 0, v0.3, v0.4);
        let ghost c0 = self.carry(t0_min as int, t0_max as int);
        let ghost rest = self.state_view();
        proof {
            assert(synth@.take(0) =~= Seq::<Word16>::empty());
            assert(self.synthesis_view() == (v0.0, v0.1, lspq, v0.3, v0.4));
            assert(ana@.subrange(3, 3) =~= Seq::<Word16>::empty());
        }
        let mut sf: usize = 0;
        while sf < 4
            invariant
                sf <= 4,
                self.wf(),
                self.tables == tables,
                self.lspold_q@ == lspq,
                self.old_speech@ == e0.speech,
                self.old_wsp@ == rest.wsp,
                self.mem_w@ == rest.mem_w,
                self.lspold@ == rest.lsp,
                self.levin_old_a@ == rest.lpc,
                self.pre.view_state() == rest.pre,
                aq_t@ == frame_filters(v0.2, lspq),
                init == (v0.0, v0.1, 0int, 0int, v0.3, v0.4),
                sf == 0 ==> 20 <= t0_min && t0_max == t0_min + 4 && t0_max <= 143,
                sf > 0 ==> 20 <= t0_min <= 134 && t0_max == t0_min + 9,
                forall|i: int| 0 <= i < 3 ==> #[trigger] ana@[i] == parm_lsp[i],
                forall|k: int| 0 <= k < 3 + 5 * sf ==> #[trigger] param_fits(k, ana@[k] as int),
                encoding_progress(self.synthesis_view(), lspq, tables, aq_t@, ana@, synth@, init, sf as int, t0_min as int),
                subframes_run(tables, aq_t@, e0.speech, c0, sf as nat) == (
                    ana@.subrange(3, 3 + 5 * sf),
                    self.carry(t0_min as int, t0_max as int),
                ),
                ana@.len() == 23,
                synth@.len() == 240,
            decreases 4 - sf,
        {
            let ghost before_ana = ana@;
            let ghost before_synth = synth@;
            let ghost view_before = self.synthesis_view();
            let ghost min_before = t0_min;
            let mut out = [0i16; 60];
            let (params, _lag, nmin, nmax) = self.encode_subframe(&aq_t, sf, t0_min, t0_max, &mut out);
            let mut k: usize = 0;
            while k < 5
                invariant
                    k <= 5,
                    sf < 4,
                    forall|q: int| 0 <= q < 3 + 5 * sf ==> #[trigger] ana@[q] == before_ana[q],
                    forall|q: int| 0 <= q < k ==> #[trigger] ana@[3 + 5 * sf + q] == params@[q],
                    forall|q: int| 3 + 5 * sf + 5 <= q < 23 ==> #[trigger] ana@[q] == before_ana[q],
                decreases 5 - k,
            {
                ana[3 + 5 * sf + k] = params[k];
                k = k + 1;
            }
            let mut k: usize = 0;
            while k < 60
                invariant
                    k <= 60,
                    sf < 4,
                    forall|q: int| 0 <= q < 60 * sf ==> #[trigger] synth@[q] == before_synth[q],
                    forall|q: int| 0 <= q < k ==> #[trigger] synth@[60 * sf + q] == out@[q],
                decreases 60 - k,
            {
                synth[60 * sf + k] = out[k];
                k = k + 1;
            }
            proof {
                lemma_encoding_step(
                    tables,
                    aq_t@,
                    lspq,
                    before_ana,
                    ana@,
                    before_synth,
                    synth@,
                    out@,
                    params@,
                    init,
                    sf as int,
                    min_before as int,
                    nmin as int,
                    view_before,
                    self.synthesis_view(),
                );
                lemma2_to64();
                assert forall|k: int| 0 <= k < 3 + 5 * (sf + 1) implies #[trigger] param_fits(k, ana@[k] as int) by {
                    if k >= 3 + 5 * sf {
                        let q = k - 3 - 5 * sf;
                        assert(ana@[3 + 5 * sf + q] == params@[q]);
                        crate::layout::lemma_layout(k);
                    } else {
                        assert(ana@[k] == before_ana[k]);
                    }
                }
                assert forall|q: int| 0 <= q < 5 * sf + 5 implies #[trigger] ana@.subrange(3, 8 + 5 * sf)[q]
                    == (before_ana.subrange(3, 3 + 5 * sf) + params@)[q] by {
                    if q < 5 * sf {
                        assert(ana@[3 + q] == before_ana[3 + q]);
                    } else {
                        assert(ana@[3 + 5 * sf + (q - 5 * sf)] == params@[q - 5 * sf]);
                    }
                }
                assert(ana@.subrange(3, 8 + 5 * sf) =~= before_ana.subrange(3, 3 + 5 * sf) + params@);
            }
            t0_min = nmin;
            t0_max = nmax;
            sf = sf + 1;
        }
        let ghost sub = subframes_run(tables, aq_t@, e0.speech, c0, 4);
        // Shift the histories for the next frame.
        self.shift_histories();
        proof {
            let full = seq![0i16] + ana@;
            let d0 = mirror_state(v0);
            let d = decode_result(tables, d0, full);
            assert(full.subrange(1, 24) =~= ana@);
            assert(frame_params(d0, full) == ana@);
            assert(self.old_exc@ =~= d.0.exc);
            assert(synth@.take(240) =~= synth@);
            assert forall|k: int| 0 <= k < 23 implies #[trigger] param_fits(k, ana@[k] as int) by {}
            assert(ana@ =~= seq![ind[0], ind[1], ind[2]] + sub.0);
            reveal(frame_analysis);
            let fa = frame_analysis(tables, e0);
            assert(fa.0 == ana@);
            assert(self.state_view().speech =~= fa.1.speech);
            assert(self.state_view().wsp =~= fa.1.wsp);
            assert(self.state_view().exc =~= fa.1.exc);
            assert(self.state_view() == fa.1);
        }
    }

    /// Move the speech, weighted-speech and excitation histories on by one
    /// frame: the last samples of each buffer become its history.
    fn shift_histories(&mut self)
        ensures
            final(self).old_speech@ == Seq::new(
                290,
                |k: int| if k < 50 { old(self).old_speech@[k + 240] } else { old(self).old_speech@[k] },
            ),
            final(self).old_wsp@ == Seq::new(
                383,
                |k: int| if k < 143 { old(self).old_wsp@[k + 240] } else { old(self).old_wsp@[k] },
            ),
            final(self).old_exc@ == Seq::new(
                398,
                |k: int| if k < 158 { old(self).old_exc@[k + 240] } else { old(self).old_exc@[k] },
            ),
            final(self).tables == old(self).tables,
            final(self).pre == old(self).pre,
            final(self).mem_syn == old(self).mem_syn,
            final(self).mem_w0 == old(self).mem_w0,
            final(self).mem_w == old(self).mem_w,
            final(self).lspold == old(self).lspold,
            final(self).lspold_q == old(self).lspold_q,
            final(self).last_ener_pit == old(self).last_ener_pit,
            final(self).last_ener_cod == old(self).last_ener_cod,
            final(self).f_gamma1 == old(self).f_gamma1,
            final(self).f_gamma2 == old(self).f_gamma2,
            final(self).f_gamma3 == old(self).f_gamma3,
            final(self).f_gamma4 == old(self).f_gamma4,
            final(self).levin_old_a == old(self).levin_old_a,
            final(self).clsp_old == old(self).clsp_old,
    {
        let mut sp = self.old_speech;
        let ghost sp0 = sp@;
        let mut k: usize = 0;
        while k < 50
            invariant
                k <= 50,
                sp@.len() == 290,
                forall|q: int| 0 <= q < k ==> #[trigger] sp@[q] == sp0[q + 240],
                forall|q: int| k <= q < 290 ==> #[trigger] sp@[q] == sp0[q],
            decreases 50 - k,
        {
            sp[k] = sp[k + 240];
            k = k + 1;
        }
        proof {
            assert(sp@ =~= Seq::new(290, |k: int| if k < 50 { sp0[k + 240] } else { sp0[k] }));
        }
        self.old_speech = sp;
        let mut wsp = self.old_wsp;
        let ghost wsp0 = wsp@;
        let mut k: usize = 0;
        while k < 143
            invariant
                k <= 143,
                wsp@.len() == 383,
                forall|q: int| 0 <= q < k ==> #[trigger] wsp@[q] == wsp0[q + 240],
                forall|q: int| k <= q < 383 ==> #[trigger] wsp@[q] == wsp0[q],
            decreases 143 - k,
        {
            wsp[k] = wsp[k + 240];
            k = k + 1;
        }
        proof {
            assert(wsp@ =~= Seq::new(383, |k: int| if k < 143 { wsp0[k + 240] } else { wsp0[k] }));
        }
        self.old_wsp = wsp;
        let mut exc = self.old_exc;
        let ghost exc4 = exc@;
        let mut k: usize = 0;
        while k < 158
            invariant
                k <= 158,
                exc@.len() == 398,
                forall|q: int| 0 <= q < k ==> #[trigger] exc@[q] == exc4[q + 240],
                forall|q: int| k <= q < 398 ==> #[trigger] exc@[q] == exc4[q],
            decreases 158 - k,
        {
            exc[k] = exc[k + 240];
            k = k + 1;
        }
        proof {
            assert(exc@ =~= Seq::new(398, |k: int| if k < 158 { exc4[k + 240] } else { exc4[k] }));
        }
        self.old_exc = exc;
    }

    /// Encode one 30 ms frame of PCM (240 samples): the 23 codec parameters
    /// and the local synthesis. On a clean channel a decoder whose state
    /// mirrors this encoder's reproduces exactly this synthesis (see
    /// [`crate::frame::law_clean_channel`]).
    #[verifier::spinoff_prover]
    pub fn encode_frame(&mut self, pcm: &[Word16; 240]) -> (r: ([Word16; 23], [Word16; 240]))
        requires
            old(self).wf(),
        ensures
            final(self).wf(),
            (r.0@, final(self).state_view()) == encode_step(old(self).codec_tables(), old(self).state_view(), pcm@),
            final(self).codec_tables() == old(self).codec_tables(),
            params_fit(r.0@),
            ({
                let d = decode_result(
                    old(self).codec_tables(),
                    mirror_state(old(self).synthesis_view()),
                    seq![0i16] + r.0@,
                );
                &&& final(self).synthesis_view() == (d.0.exc, d.0.mem, d.0.lspold, d.0.ener_pit, d.0.ener_cod)
                &&& r.1@ == postprocessed(d.1)
            }),
    {
        let ghost e0 = self.state_view();
        let mut buf = *pcm;
        self.pre.process(&mut buf);
        let mut sp = self.old_speech;
        let ghost sp0 = sp@;
        let mut k: usize = 0;
        while k < 240
            invariant
                k <= 240,
                sp@.len() == 290,
                forall|q: int| 0 <= q < 50 ==> #[trigger] sp@[q] == sp0[q],
                forall|q: int| 0 <= q < k ==> #[trigger] sp@[50 + q] == buf@[q],
            decreases 240 - k,
        {
            sp[50 + k] = buf[k];
            k = k + 1;
        }
        proof {
            assert forall|q: int| 0 <= q < 290 implies #[trigger] sp@[q] == (sp0.take(50) + buf@)[q] by {
                if q >= 50 {
                    assert(sp@[50 + (q - 50)] == buf@[q - 50]);
                }
            }
            assert(sp@ =~= sp0.take(50) + buf@);
        }
        self.old_speech = sp;
        proof {
            let p = pre_run(e0.pre, pcm@, 240);
            assert(self.state_view() == EncoderView {
                pre: p.0,
                speech: e0.speech.take(50) + p.1,
                ..e0
            });
        }
        let mut ana = [0i16; 23];
        let mut synth = [0i16; 240];
        self.encode_core(&mut ana, &mut synth);
        let ghost raw = synth@;
        postprocess(&mut synth);
        proof {
            assert(synth@ =~= postprocessed(raw));
        }
        (ana, synth)
    }
}

} // verus!
