//! The encoder's analysis as mathematics: what each step of the TETRA
//! speech encoder computes from its state and input, written over the
//! spec functions of the signal-processing operators. The encoder's
//! contracts speak of these functions, so the parameters it sends are
//! pinned down, not only their consistency with the decoder.

use crate::acelp_search::codebook_choice;
use crate::decoder::{
    code_sample, decoded_lsp, frame_filters, gamma_factors, shaping_response, subframe_from_params,
};
use crate::dsp::{
    autocorr_value, backward_acc, backward_peak, backward_shift, lag_windowed, lev_coefficient,
    lev_state, lsp_from_lp, ltp_buffer, mult_round, residual_sample, synthesis_output,
};
use crate::encoder::{
    closed_loop_result, code_gain_value, first_lag_min, first_nearest, first_nearest_gain,
    gain_errors, open_loop_lag, pitch_gain_value, pre_run,
};
use crate::fixed::ext::{split_hi, split_lo};
use crate::fixed::ops::{sat16, sat32, shift32};
use crate::fixed::Word16;
use crate::tables::CodecTables;
use vstd::prelude::*;

verus! {

/// `n` zero samples.
pub open spec fn zeros(n: nat) -> Seq<Word16> {
    Seq::new(n, |i: int| 0i16)
}

/// The LP filter `a` (11 coefficients) with coefficient `i` scaled by
/// `fac[i - 1]`: the filter `A(z/g)` for the factors of `g`.
pub open spec fn weighted_lp(a: Seq<Word16>, fac: Seq<Word16>) -> Seq<Word16> {
    Seq::new(11, |i: int| if i == 0 { a[0] } else { mult_round(a[i] as int, fac[i - 1] as int) as i16 })
}

/// A unit impulse (4096 in Q12) followed by 59 zeros.
pub open spec fn unit_impulse() -> Seq<Word16> {
    Seq::new(60, |i: int| if i == 0 { 4096i16 } else { 0i16 })
}

/// The LP residual of `x` through `a`, `n` samples after the first ten.
pub open spec fn residual_of(a: Seq<Word16>, x: Seq<Word16>, n: nat) -> Seq<Word16> {
    Seq::new(n, |i: int| residual_sample(a, x, 10 + i) as i16)
}

/// `buf` with `n` samples of `x` written from `at` on.
pub open spec fn written(buf: Seq<Word16>, at: int, x: Seq<Word16>, n: int) -> Seq<Word16> {
    Seq::new(buf.len(), |q: int| if at <= q < at + n { x[q - at] } else { buf[q] })
}

/// The pitch parameter of subframe `s`: the lag and fraction coded
/// absolutely in the first subframe (`3 t0 - 58 + frac` up to lag 85,
/// `t0 + 112` above), relative to `t0_min` in the others.
pub open spec fn pitch_index_value(s: int, t0: int, frac: int, t0_min: int) -> int {
    if s == 0 {
        if t0 <= 85 {
            3 * t0 - 58 + frac
        } else {
            t0 + 112
        }
    } else {
        3 * (t0 - t0_min) + 2 + frac
    }
}

/// The lag range `(t0_min, t0_max)` of the later subframes, from the
/// first subframe's lag.
pub open spec fn later_lag_range(t0: int) -> (int, int) {
    let m = first_lag_min(t0);
    (m, m + 9)
}

/// The target of the innovative codebook: the pitch target less the
/// filtered adaptive contribution at gain `ga` (Q12, scaled by 8).
pub open spec fn code_target(target: Seq<Word16>, filt_pitch: Seq<Word16>, ga: int) -> Seq<Word16> {
    Seq::new(
        60,
        |k: int|
            (sat32(
                (if target[k] == -32768 { -0x7fff_ffff } else { target[k] * 65536 }) - shift32(
                    sat32(2 * filt_pitch[k] * ga),
                    3,
                ),
            ) / 65536) as i16,
    )
}

/// The backward-filtered target `x` through the response `h` (60
/// samples, normalised), padded with four zeros.
pub open spec fn backward_target(x: Seq<Word16>, h: Seq<Word16>) -> Seq<Word16> {
    Seq::new(
        64,
        |i: int|
            if i < 60 {
                shift32(backward_acc(x, h, i, 60), -backward_shift(backward_peak(x, h, 60, 60))) as i16
            } else {
                0i16
            },
    )
}

/// The first nearest entry of the gain codebook to the errors `err`.
pub open spec fn nearest_gain(tables: CodecTables, err: (int, int)) -> int {
    choose|i: int| first_nearest_gain(tables, err, i)
}

/// The first nearest entry of a split-VQ codebook (see [`first_nearest`]).
pub open spec fn nearest_entry_of(lsp: Seq<Word16>, cb: Seq<Word16>, dim: int, off: int, n: int) -> int {
    choose|i: int| first_nearest(lsp, cb, dim, off, n, i)
}

/// The innovative-codebook choice of a subframe with filter `aq`, shaped
/// by the lag `t0`, for the pitch target and filtered adaptive vector at
/// pitch gain `ga`: `(index, sign, shift, code gain)`.
pub open spec fn innovation_choice(
    aq: Seq<Word16>,
    t0: int,
    target: Seq<Word16>,
    filt_pitch: Seq<Word16>,
    ga: int,
) -> (int, int, int, int) {
    let ap4 = weighted_lp(aq, gamma_factors(27853));
    let ct = code_target(target, filt_pitch, ga);
    let zf = shaping_response(aq, gamma_factors(24576), gamma_factors(27853), t0);
    let h2 = synthesis_output(ap4, zf.subrange(64, 124), zeros(10), 60);
    let zh = zeros(64) + h2;
    let c = codebook_choice(backward_target(ct, h2), zh);
    let fc = Seq::new(60, |i: int| code_sample(zh, c.0 as i16, c.1 as i16, c.2 as i16, i) as i16);
    (c.0, c.1, c.2, code_gain_value(ct, fc, 60))
}

/// The encoder state that one subframe reads and moves: excitation
/// buffer, synthesis memory, memory of the weighting filter, the two gain
/// predictor energies and the lag range.
pub type SubframeCarry = (Seq<Word16>, Seq<Word16>, Seq<Word16>, int, int, int, int);

/// The analysis of subframe `s` (filter `aq`, speech history `speech`):
/// the five parameters and the carried state after it.
///
/// The LP residual goes into the excitation buffer; the closed-loop pitch
/// is searched against the weighted target in the lag range; the adaptive
/// vector, its filtered version and the pitch gain follow; the codebook
/// is searched for the remaining target; the gains are vector-quantised;
/// the excitation, synthesis and predictor move as the decoder's do on
/// these parameters, and the weighting filter's memory takes the error
/// between the residual and the chosen excitation.
#[verifier::opaque]
pub open spec fn subframe_analysis(
    tables: CodecTables,
    aq: Seq<Word16>,
    s: int,
    speech: Seq<Word16>,
    c: SubframeCarry,
) -> (Seq<Word16>, SubframeCarry) {
    let (exc, mem_syn, mem_w0, pit, cod, t0_min, t0_max) = c;
    let eb = 158 + 60 * s;
    let ap4 = weighted_lp(aq, gamma_factors(27853));
    let h1 = synthesis_output(ap4, unit_impulse(), zeros(10), 60);
    let res = residual_of(aq, speech.subrange(60 * s, 60 * s + 70), 60);
    let target = synthesis_output(ap4, res, mem_w0, 60);
    let lag = closed_loop_result(tables, written(exc, eb, res, 60), eb, target, h1, 60, t0_min, t0_max, 60 * s);
    let seg = ltp_buffer(tables, exc, eb, lag.0, lag.1, 60).subrange(eb, eb + 60);
    let fp = synthesis_output(ap4, seg, zeros(10), 60);
    let ga = pitch_gain_value(target, fp, 60);
    let inn = innovation_choice(aq, lag.0, target, fp, ga);
    let zf = shaping_response(aq, gamma_factors(24576), gamma_factors(27853), lag.0);
    let code = Seq::new(60, |i: int| code_sample(zf, inn.0 as i16, inn.1 as i16, inn.2 as i16, i) as i16);
    let gidx = nearest_gain(tables, gain_errors(tables, aq, seg, code, 60, ga, inn.3, pit, cod));
    let params = seq![
        pitch_index_value(s, lag.0, lag.1, t0_min) as i16,
        inn.0 as i16,
        inn.1 as i16,
        inn.2 as i16,
        gidx as i16,
    ];
    let step = subframe_from_params(
        tables,
        gamma_factors(24576),
        gamma_factors(27853),
        aq,
        params,
        0,
        60,
        (exc, mem_syn, 0, t0_min, pit, cod),
        s,
    );
    let err = Seq::new(60, |k: int| sat16(res[k] - step.0.0[eb + k]) as i16);
    let range = if s == 0 { later_lag_range(lag.0) } else { (t0_min, t0_max) };
    (
        params,
        (
            step.0.0,
            step.0.1,
            synthesis_output(ap4, err, mem_w0, 60).subrange(50, 60),
            step.0.4,
            step.0.5,
            range.0,
            range.1,
        ),
    )
}

/// The subframes `0..n` of a frame with filters `aq_t` (11 coefficients
/// each): their parameters, five per subframe, and the carried state.
pub open spec fn subframes_run(
    tables: CodecTables,
    aq_t: Seq<Word16>,
    speech: Seq<Word16>,
    c: SubframeCarry,
    n: nat,
) -> (Seq<Word16>, SubframeCarry)
    decreases n,
{
    if n == 0 {
        (Seq::empty(), c)
    } else {
        let prev = subframes_run(tables, aq_t, speech, c, (n - 1) as nat);
        let k = n - 1;
        let step = subframe_analysis(tables, aq_t.subrange(11 * k, 11 * k + 11), k, speech, prev.1);
        (prev.0 + step.0, step.1)
    }
}

/// The LP analysis of the frame in `speech[34..290]`: autocorrelation of
/// the windowed signal, lag window, Levinson-Durbin recursion. Returns
/// the LP filter (11 coefficients) and the filter to fall back on for
/// the next frame; an unstable recursion gives the fallback `lpc` itself.
pub open spec fn lp_analysis(tables: CodecTables, speech: Seq<Word16>, lpc: Seq<Word16>) -> (Seq<Word16>, Seq<Word16>) {
    let x = speech.subrange(34, 290);
    let rh0 = Seq::new(11, |i: int| split_hi(autocorr_value(tables, x, i)) as i16);
    let rl0 = Seq::new(11, |i: int| split_lo(autocorr_value(tables, x, i)) as i16);
    let rh = Seq::new(11, |i: int| if i == 0 { rh0[0] } else { split_hi(lag_windowed(tables, rh0, rl0, i)) as i16 });
    let rl = Seq::new(11, |i: int| if i == 0 { rl0[0] } else { split_lo(lag_windowed(tables, rh0, rl0, i)) as i16 });
    let lev = lev_state(rh, rl, 10);
    if lev.5 {
        let a = Seq::new(11, |j: int| if j == 0 { 4096i16 } else { lev_coefficient(lev.0[j], lev.1[j]) as i16 });
        (a, Seq::new(11, |j: int| if j == 0 { lpc[0] } else { a[j] }))
    } else {
        (lpc, lpc)
    }
}

/// The LSPs of the frame in `speech[34..290]` (see [`lp_analysis`]);
/// `lsp_old` where fewer than ten roots are found.
pub open spec fn analysed_lsp(tables: CodecTables, speech: Seq<Word16>, lpc: Seq<Word16>, lsp_old: Seq<Word16>) -> Seq<Word16> {
    let lp = lp_analysis(tables, speech, lpc);
    Seq::new(10, |i: int| lsp_from_lp(tables, lp.0 + zeros(33), lsp_old)[i])
}

/// The split-VQ indices of the LSPs `lsp`: the first nearest entry of
/// each of the three codebooks.
pub open spec fn lsp_indices(tables: CodecTables, lsp: Seq<Word16>) -> (int, int, int) {
    (
        nearest_entry_of(lsp, tables.dico1_clsp@, 3, 0, 256),
        nearest_entry_of(lsp, tables.dico2_clsp@, 3, 3, 512),
        nearest_entry_of(lsp, tables.dico3_clsp@, 4, 6, 512),
    )
}

/// The weighted speech of subframes `0..n` (filters `a_t`) through
/// `A(z/0.95) / A(z/0.6)`, from filter memory `mem`: the samples and the
/// memory after them.
pub open spec fn weighted_run(a_t: Seq<Word16>, speech: Seq<Word16>, mem: Seq<Word16>, n: nat) -> (Seq<Word16>, Seq<Word16>)
    decreases n,
{
    if n == 0 {
        (Seq::empty(), mem)
    } else {
        let prev = weighted_run(a_t, speech, mem, (n - 1) as nat);
        let k = n - 1;
        let a = a_t.subrange(11 * k, 11 * k + 11);
        let r = residual_of(weighted_lp(a, gamma_factors(31130)), speech.subrange(60 * k, 60 * k + 70), 60);
        let w = synthesis_output(weighted_lp(a, gamma_factors(19661)), r, prev.1, 60);
        (prev.0 + w, w.subrange(50, 60))
    }
}

/// The lag range of the first subframe around the open-loop lag `t0`.
pub open spec fn initial_lag_range(t0: int) -> (int, int) {
    let m = if t0 - 2 < 20 { 20 } else { t0 - 2 };
    if m + 4 > 143 {
        (139, 143)
    } else {
        (m, m + 4)
    }
}

/// The encoder state as plain values.
pub ghost struct EncoderView {
    /// The pre-processing filter state.
    pub pre: (int, int, int),
    /// Speech history (50 samples) and the current frame (240).
    pub speech: Seq<Word16>,
    /// Weighted speech history (143 samples) and the current frame.
    pub wsp: Seq<Word16>,
    /// Excitation history (158 samples) and the current frame.
    pub exc: Seq<Word16>,
    /// Memory of the local synthesis filter.
    pub mem_syn: Seq<Word16>,
    /// Memory of the weighting filter of the error signal.
    pub mem_w0: Seq<Word16>,
    /// Memory of the weighting filter of the speech.
    pub mem_w: Seq<Word16>,
    /// The previous frame's LSPs.
    pub lsp: Seq<Word16>,
    /// The previous frame's quantised LSPs.
    pub lsp_q: Seq<Word16>,
    /// Gain-predictor energy of the adaptive codebook.
    pub ener_pit: int,
    /// Gain-predictor energy of the innovative codebook.
    pub ener_cod: int,
    /// The LP filter kept for an unstable frame.
    pub lpc: Seq<Word16>,
}

/// The analysis of the frame held in `v.speech[50..290]`: the 23
/// parameters and the next state.
///
/// LP analysis gives the LSPs, which are split-vector quantised; the
/// unquantised filters weight the speech, whose open-loop pitch sets the
/// lag range; the quantised filters drive the four subframe analyses.
/// The speech, weighted speech and excitation histories then move on by
/// one frame.
#[verifier::opaque]
pub open spec fn frame_analysis(tables: CodecTables, v: EncoderView) -> (Seq<Word16>, EncoderView) {
    let lp = lp_analysis(tables, v.speech, v.lpc);
    let lsp_new = analysed_lsp(tables, v.speech, v.lpc, v.lsp);
    let (i0, i1, i2) = lsp_indices(tables, lsp_new);
    let lsp_q = decoded_lsp(tables, i0, i1, i2, v.lsp_q);
    let w = weighted_run(frame_filters(v.lsp, lsp_new), v.speech, v.mem_w, 4);
    let wsp = v.wsp.take(143) + w.0;
    let range = initial_lag_range(open_loop_lag(wsp, 143, 240));
    let sub = subframes_run(
        tables,
        frame_filters(v.lsp_q, lsp_q),
        v.speech,
        (v.exc, v.mem_syn, v.mem_w0, v.ener_pit, v.ener_cod, range.0, range.1),
        4,
    );
    (
        seq![i0 as i16, i1 as i16, i2 as i16] + sub.0,
        EncoderView {
            pre: v.pre,
            speech: Seq::new(290, |k: int| if k < 50 { v.speech[k + 240] } else { v.speech[k] }),
            wsp: Seq::new(383, |k: int| if k < 143 { wsp[k + 240] } else { wsp[k] }),
            exc: Seq::new(398, |k: int| if k < 158 { sub.1.0[k + 240] } else { sub.1.0[k] }),
            mem_syn: sub.1.1,
            mem_w0: sub.1.2,
            mem_w: w.1,
            lsp: lsp_new,
            lsp_q: lsp_q,
            ener_pit: sub.1.3,
            ener_cod: sub.1.4,
            lpc: lp.1,
        },
    )
}

/// Encoding one frame of PCM from state `v`: pre-processing into the
/// speech buffer, then [`frame_analysis`]. The 23 parameters and the next
/// state.
pub open spec fn encode_step(tables: CodecTables, v: EncoderView, pcm: Seq<Word16>) -> (Seq<Word16>, EncoderView) {
    let p = pre_run(v.pre, pcm, 240);
    frame_analysis(
        tables,
        EncoderView {
            pre: p.0,
            speech: v.speech.take(50) + p.1,
            wsp: v.wsp,
            exc: v.exc,
            mem_syn: v.mem_syn,
            mem_w0: v.mem_w0,
            mem_w: v.mem_w,
            lsp: v.lsp,
            lsp_q: v.lsp_q,
            ener_pit: v.ener_pit,
            ener_cod: v.ener_cod,
            lpc: v.lpc,
        },
    )
}

/// The pieces an encoder computes for one subframe, each as the analysis
/// defines it, make up [`subframe_analysis`].
pub proof fn lemma_subframe_analysis(
    tables: CodecTables,
    aq: Seq<Word16>,
    s: int,
    speech: Seq<Word16>,
    c: SubframeCarry,
    h1: Seq<Word16>,
    res: Seq<Word16>,
    exc_res: Seq<Word16>,
    target: Seq<Word16>,
    lag: (int, int),
    seg: Seq<Word16>,
    fp: Seq<Word16>,
    ga: int,
    inn: (int, int, int, int),
    code: Seq<Word16>,
    gidx: int,
    params: Seq<Word16>,
    err: Seq<Word16>,
    mw: Seq<Word16>,
    range: (int, int),
)
    requires
        h1 == synthesis_output(weighted_lp(aq, gamma_factors(27853)), unit_impulse(), zeros(10), 60),
        res == residual_of(aq, speech.subrange(60 * s, 60 * s + 70), 60),
        exc_res == written(c.0, 158 + 60 * s, res, 60),
        target == synthesis_output(weighted_lp(aq, gamma_factors(27853)), res, c.2, 60),
        lag == closed_loop_result(tables, exc_res, 158 + 60 * s, target, h1, 60, c.5, c.6, 60 * s),
        seg == ltp_buffer(tables, c.0, 158 + 60 * s, lag.0, lag.1, 60).subrange(158 + 60 * s, 218 + 60 * s),
        fp == synthesis_output(weighted_lp(aq, gamma_factors(27853)), seg, zeros(10), 60),
        ga == pitch_gain_value(target, fp, 60),
        inn == innovation_choice(aq, lag.0, target, fp, ga),
        code == Seq::new(
            60,
            |i: int|
                code_sample(
                    shaping_response(aq, gamma_factors(24576), gamma_factors(27853), lag.0),
                    inn.0 as i16,
                    inn.1 as i16,
                    inn.2 as i16,
                    i,
                ) as i16,
        ),
        first_nearest_gain(tables, gain_errors(tables, aq, seg, code, 60, ga, inn.3, c.3, c.4), gidx),
        params == seq![
            pitch_index_value(s, lag.0, lag.1, c.5) as i16,
            inn.0 as i16,
            inn.1 as i16,
            inn.2 as i16,
            gidx as i16,
        ],
        err == Seq::new(
            60,
            |k: int|
                sat16(
                    res[k] - subframe_from_params(
                        tables,
                        gamma_factors(24576),
                        gamma_factors(27853),
                        aq,
                        params,
                        0,
                        60,
                        (c.0, c.1, 0, c.5, c.3, c.4),
                        s,
                    ).0.0[158 + 60 * s + k],
                ) as i16,
        ),
        mw == synthesis_output(weighted_lp(aq, gamma_factors(27853)), err, c.2, 60).subrange(50, 60),
        range == (if s == 0 { later_lag_range(lag.0) } else { (c.5, c.6) }),
    ensures
        ({
            let step = subframe_from_params(
                tables,
                gamma_factors(24576),
                gamma_factors(27853),
                aq,
                params,
                0,
                60,
                (c.0, c.1, 0, c.5, c.3, c.4),
                s,
            );
            subframe_analysis(tables, aq, s, speech, c) == (
                params,
                (step.0.0, step.0.1, mw, step.0.4, step.0.5, range.0, range.1),
            )
        }),
{
    reveal(subframe_analysis);
    lemma_nearest_gain(tables, gain_errors(tables, aq, seg, code, 60, ga, inn.3, c.3, c.4), gidx);
}

/// At most one entry of the gain codebook is the first nearest.
pub proof fn lemma_nearest_gain(tables: CodecTables, err: (int, int), ind: int)
    requires
        first_nearest_gain(tables, err, ind),
    ensures
        nearest_gain(tables, err) == ind,
{
    let c = nearest_gain(tables, err);
    assert(first_nearest_gain(tables, err, c));
    if c < ind {
        assert(crate::encoder::gain_distance(tables, err, ind) < crate::encoder::gain_distance(tables, err, c));
    } else if ind < c {
        assert(crate::encoder::gain_distance(tables, err, c) < crate::encoder::gain_distance(tables, err, ind));
    }
}

/// At most one entry of a split-VQ codebook is the first nearest.
pub proof fn lemma_nearest_entry(lsp: Seq<Word16>, cb: Seq<Word16>, dim: int, off: int, n: int, ind: int)
    requires
        first_nearest(lsp, cb, dim, off, n, ind),
    ensures
        nearest_entry_of(lsp, cb, dim, off, n) == ind,
{
    let c = nearest_entry_of(lsp, cb, dim, off, n);
    assert(first_nearest(lsp, cb, dim, off, n, c));
    if c < ind {
        assert(crate::encoder::vq_partial(lsp, cb, dim, off, ind, dim) < crate::encoder::vq_partial(lsp, cb, dim, off, c, dim));
    } else if ind < c {
        assert(crate::encoder::vq_partial(lsp, cb, dim, off, c, dim) < crate::encoder::vq_partial(lsp, cb, dim, off, ind, dim));
    }
}

} // verus!
