//! Shared signal-processing primitives used by both the encoder and decoder
//! (EN 300 395-2 clause 4.2): LP analysis, LSP conversions, synthesis and
//! analysis filtering, fractional interpolation.
//!
//! Every routine is bit-exact: its contract gives each output word as the
//! exact fixed-point computation of the specification, written over the
//! saturating accumulations of [`crate::accumulate`].

use crate::accumulate::{lemma_mac_step, lemma_msu_step, mac_acc, msu_acc};
use crate::fixed::dsp_ops::{
    add_high16, add_shifted, lemma_normalising_shift_unique, lemma_norm_l_value, load_shifted, norm_l_value, normalize_capped, store_high,
    sub_high16, sub_shifted,
};
use crate::fixed::ext::{
    div_dpf, div_dpf_value, div_s_value, dpf_compose, dpf_split, mul_dpf, mul_dpf_value, mul_word_dpf, mul_word_dpf_value, split_hi, split_lo,
};
use crate::fixed::ops::{
    abs_s, extract_h, extract_l, l_abs, l_mult0, negate, norm_magnitude, norm_s, shl_pure, div_s_pure, l_add_pure, l_mac_pure, l_mac0_pure, l_mac0, l_msu0_pure, l_mult_pure, l_negate, l_shl_pure, l_shr_pure,
    l_shr_r_pure, l_sub_pure, mult_r_pure, norm_l, round_pure, sat16, sat32, shift16, shift32, shift32_round, shr_pure,
};
use crate::fixed::overflow::{occurred, reset, OverflowFlag};
use crate::fixed::{Word16, Word32};
use crate::tables::CodecTables;
use vstd::arithmetic::power2::{lemma2_to64, pow2};
use vstd::prelude::*;

verus! {

/// LP predictor order.
pub const P: usize = 10;

/// Half the LP order (number of LSP pairs).
pub const NC: usize = 5;

/// Analysis window length.
pub const L_WINDOW: usize = 256;

/// Number of grid points used when searching for LSP roots.
pub const GRID_POINTS: usize = 60;

/// Length of the impulse response used by [`lp_impulse_energy`].
pub const LLG: usize = 60;

/// `round(l_mult(a, b))`: the rounded high half of the fractional product.
pub open spec fn mult_round(a: int, b: int) -> int {
    sat32(sat32(2 * a * b) + 0x8000) / 65536
}

/// The spectral-expansion factor `gamma^(i+1)` (Q15), computed by repeated
/// rounded fractional multiplication.
pub open spec fn expansion_factor(gamma: int, i: nat) -> int
    decreases i,
{
    if i == 0 {
        gamma
    } else {
        mult_round(expansion_factor(gamma, (i - 1) as nat), gamma)
    }
}

/// The ten values before position `end`, most recent first:
/// `x[end-1], x[end-2], ..., x[end-10]`.
pub open spec fn history(x: Seq<Word16>, end: int) -> Seq<Word16> {
    Seq::new(10, |k: int| x[end - 1 - k])
}

/// The LP coefficients `a[1..=10]`.
pub open spec fn coeffs(a: Seq<Word16>) -> Seq<Word16> {
    a.subrange(1, 11)
}

/// Round a Q12 accumulation to a 16-bit output: add `2^11`, shift left by
/// four with saturation, keep the high half.
pub open spec fn q12_output(s: int) -> int {
    sat32(sat32(s + 2048) * 16) / 65536
}

/// One sample of the LP residual `A(z) x` at position `end` of `x`.
pub open spec fn residual_sample(a: Seq<Word16>, x: Seq<Word16>, end: int) -> int {
    q12_output(mac_acc(x[end] * 4096, coeffs(a), history(x, end)))
}

/// One output of the synthesis filter `1/A(z)` for input `xv`, given the ten
/// most recent outputs `hist` (most recent first).
pub open spec fn synthesis_sample(a: Seq<Word16>, xv: int, hist: Seq<Word16>) -> int {
    q12_output(msu_acc(xv * 4096, coeffs(a), hist))
}

/// The synthesis filter's buffer after `k` outputs: the ten memory words
/// followed by the first `k` outputs.
pub open spec fn synthesis_buffer(a: Seq<Word16>, x: Seq<Word16>, mem: Seq<Word16>, k: nat) -> Seq<
    Word16,
>
    decreases k,
{
    if k == 0 {
        mem.take(10)
    } else {
        let prev = synthesis_buffer(a, x, mem, (k - 1) as nat);
        prev.push(synthesis_sample(a, x[k - 1] as int, history(prev, prev.len() as int)) as Word16)
    }
}

/// The `lg` outputs of the synthesis filter `1/A(z)` on `x` from memory
/// `mem`.
pub open spec fn synthesis_output(a: Seq<Word16>, x: Seq<Word16>, mem: Seq<Word16>, lg: nat) -> Seq<
    Word16,
> {
    synthesis_buffer(a, x, mem, lg).subrange(10, 10 + lg as int)
}

/// Post-processing of synthesised speech: multiply by two with saturation.
pub fn postprocess(signal: &mut [Word16])
    ensures
        final(signal)@.len() == old(signal)@.len(),
        forall|i: int|
            0 <= i < old(signal)@.len() ==> #[trigger] final(signal)@[i] == sat16(
                2 * old(signal)@[i],
            ),
{
    let mut i: usize = 0;
    while i < signal.len()
        invariant
            i <= signal@.len(),
            signal@.len() == old(signal)@.len(),
            forall|k: int| 0 <= k < i ==> #[trigger] signal@[k] == sat16(2 * old(signal)@[k]),
            forall|k: int| i <= k < signal@.len() ==> #[trigger] signal@[k] == old(signal)@[k],
        decreases signal@.len() - i,
    {
        let s = signal[i];
        signal[i] = crate::fixed::ops::add_pure(s, s);
        i = i + 1;
    }
}

/// Compute the spectral-expansion factors `fac[i] = gamma^(i+1)` (Q15).
pub fn weight_factors(gamma: Word16, fac: &mut [Word16; 10])
    ensures
        forall|i: int| 0 <= i < 10 ==> #[trigger] final(fac)@[i] == expansion_factor(gamma as int, i as nat),
{
    fac[0] = gamma;
    let mut i: usize = 1;
    while i < P
        invariant
            1 <= i <= 10,
            forall|k: int| 0 <= k < i ==> #[trigger] fac@[k] == expansion_factor(gamma as int, k as nat),
        decreases 10 - i,
    {
        let prev = fac[i - 1];
        proof {
            assert(prev == expansion_factor(gamma as int, (i - 1) as nat));
        }
        fac[i] = round_pure(l_mult_pure(prev, gamma));
        i = i + 1;
    }
}

/// Apply spectral expansion to `a`: `a_exp[0] = a[0]`,
/// `a_exp[i] = round(a[i] * fac[i-1])` for `i` in `1..=10`.
pub fn weight_lp(a: &[Word16], fac: &[Word16], a_exp: &mut [Word16])
    requires
        a@.len() >= 11,
        fac@.len() >= 10,
        old(a_exp)@.len() >= 11,
    ensures
        final(a_exp)@.len() == old(a_exp)@.len(),
        final(a_exp)@[0] == a@[0],
        forall|i: int|
            1 <= i <= 10 ==> #[trigger] final(a_exp)@[i] == mult_round(a@[i] as int, fac@[i - 1] as int),
        forall|i: int| 11 <= i < old(a_exp)@.len() ==> #[trigger] final(a_exp)@[i] == old(a_exp)@[i],
{
    a_exp[0] = a[0];
    let mut i: usize = 1;
    while i <= P
        invariant
            1 <= i <= 11,
            a@.len() >= 11,
            fac@.len() >= 10,
            a_exp@.len() == old(a_exp)@.len(),
            old(a_exp)@.len() >= 11,
            a_exp@[0] == a@[0],
            forall|k: int|
                1 <= k < i ==> #[trigger] a_exp@[k] == mult_round(a@[k] as int, fac@[k - 1] as int),
            forall|k: int| 11 <= k < old(a_exp)@.len() ==> #[trigger] a_exp@[k] == old(a_exp)@[k],
        decreases 11 - i,
    {
        a_exp[i] = round_pure(l_mult_pure(a[i], fac[i - 1]));
        i = i + 1;
    }
}

/// A 32-tap interpolation: `round(2 * sum(x[j] * taps[j]))`, the sum and
/// the doubling saturated.
pub open spec fn interpolation_32(x: Seq<Word16>, taps: Seq<Word16>) -> int {
    let s = mac_acc(0, x, taps);
    sat32(sat32(s + s) + 0x8000) / 65536
}

/// Multiply-accumulate `taps` against `x[start..start+n]` from zero.
fn dot_taps(x: &[Word16], start: usize, taps: &[Word16], n: usize) -> (s: Word32)
    requires
        start + n <= x@.len(),
        n <= taps@.len(),
    ensures
        s == mac_acc(0, x@.subrange(start as int, start + n), taps@.take(n as int)),
{
    let ghost xs = x@.subrange(start as int, start + n);
    let ghost ts = taps@.take(n as int);
    let xl = x.len();
    let mut s: Word32 = 0;
    let mut i: usize = 0;
    proof {
        assert(xs.take(0) =~= Seq::<Word16>::empty());
    }
    while i < n
        invariant
            i <= n,
            start + n <= x@.len(),
            xl == x@.len(),
            n <= taps@.len(),
            xs == x@.subrange(start as int, start + n),
            ts == taps@.take(n as int),
            s == mac_acc(0, xs.take(i as int), ts.take(i as int)),
        decreases n - i,
    {
        proof {
            lemma_mac_step(0, xs, ts, i as int);
        }
        s = l_mac0_pure(s, x[start + i], taps[i]);
        i = i + 1;
    }
    proof {
        assert(xs.take(n as int) =~= xs);
        assert(ts.take(n as int) =~= ts);
    }
    s
}

/// 32-tap fractional interpolation at -1/3; `x[c]` is the reference sample
/// and the taps cover `x[c-15..=c+16]`.
pub fn interpolate_down_32(tables: &CodecTables, x: &[Word16], c: usize) -> (r: Word16)
    requires
        c >= 15,
        c + 17 <= x@.len(),
    ensures
        r == interpolation_32(x@.subrange(c - 15, c + 17), tables.inter32_m1_3@),
{
    let s = dot_taps(x, c - 15, &tables.inter32_m1_3, 32);
    proof {
        assert(tables.inter32_m1_3@.take(32) =~= tables.inter32_m1_3@);
    }
    let s2 = l_add_pure(s, s);
    round_pure(s2)
}

/// 32-tap fractional interpolation at +1/3; `x[c]` is the reference sample
/// and the taps cover `x[c-16..=c+15]`.
pub fn interpolate_up_32(tables: &CodecTables, x: &[Word16], c: usize) -> (r: Word16)
    requires
        c >= 16,
        c + 16 <= x@.len(),
    ensures
        r == interpolation_32(x@.subrange(c - 16, c + 16), tables.inter32_1_3@),
{
    let s = dot_taps(x, c - 16, &tables.inter32_1_3, 32);
    proof {
        assert(tables.inter32_1_3@.take(32) =~= tables.inter32_1_3@);
    }
    let s2 = l_add_pure(s, s);
    round_pure(s2)
}

/// Compute the LP residual by filtering `x` through `A(z)`: `x` carries the
/// ten history samples before index 10, and `y[i]` is the residual at
/// `x[10 + i]`.
pub fn lp_residual(a: &[Word16], x: &[Word16], y: &mut [Word16], lg: usize)
    requires
        a@.len() >= 11,
        x@.len() >= 10 + lg,
        old(y)@.len() >= lg,
    ensures
        final(y)@.len() == old(y)@.len(),
        forall|i: int| 0 <= i < lg ==> #[trigger] final(y)@[i] == residual_sample(a@, x@, 10 + i),
        forall|i: int| lg <= i < old(y)@.len() ==> #[trigger] final(y)@[i] == old(y)@[i],
{
    let xl = x.len();
    let mut i: usize = 0;
    while i < lg
        invariant
            i <= lg,
            a@.len() >= 11,
            xl == x@.len(),
            x@.len() >= 10 + lg,
            y@.len() == old(y)@.len(),
            y@.len() >= lg,
            forall|k: int| 0 <= k < i ==> #[trigger] y@[k] == residual_sample(a@, x@, 10 + k),
            forall|k: int| lg <= k < old(y)@.len() ==> #[trigger] y@[k] == old(y)@[k],
        decreases lg - i,
    {
        let ghost end = 10 + i as int;
        let ghost hs = history(x@, end);
        let ghost cs = coeffs(a@);
        let mut s = load_shifted(x[P + i], 12);
        proof {
            lemma2_to64();
            assert(x@[end] * pow2(12) == x@[end] * 4096);
        }
        let mut j: usize = 1;
        while j <= P
            invariant
                1 <= j <= 11,
                a@.len() >= 11,
                end == 10 + i,
                xl == x@.len(),
                x@.len() >= 10 + lg,
                i < lg,
                hs == history(x@, end),
                cs == coeffs(a@),
                s == mac_acc(x@[end] * 4096, cs.take(j - 1), hs.take(j - 1)),
            decreases 11 - j,
        {
            proof {
                lemma_mac_step(x@[end] * 4096, cs, hs, j - 1);
            }
            s = l_mac0_pure(s, a[j], x[P + i - j]);
            j = j + 1;
        }
        proof {
            assert(cs.take(10) =~= cs);
            assert(hs.take(10) =~= hs);
        }
        s = add_shifted(s, 1, 11);
        s = l_shl_pure(s, 4);
        proof {
            lemma2_to64();
            assert(1 * pow2(11) == 2048);
            lemma_shift16_is_mul(s as int);
        }
        y[i] = extract_h(s);
        i = i + 1;
    }
}

/// `shift32(x, 4)` multiplies by sixteen with saturation.
pub proof fn lemma_shift16_is_mul(x: int)
    ensures
        shift32(x, 4) == sat32(x * 16),
{
    lemma2_to64();
}

/// Synthesis filter `1/A(z)`. `mem` holds the ten previous outputs (oldest
/// first) and is replaced by the last ten outputs when `update` is set.
pub fn synthesis_filter(
    a: &[Word16],
    x: &[Word16],
    y: &mut [Word16],
    lg: usize,
    mem: &mut [Word16],
    update: bool,
)
    requires
        a@.len() >= 11,
        lg <= 70,
        x@.len() >= lg,
        old(y)@.len() >= lg,
        old(mem)@.len() >= 10,
        update ==> lg >= 10,
    ensures
        final(y)@.len() == old(y)@.len(),
        final(mem)@.len() == old(mem)@.len(),
        forall|i: int|
            0 <= i < lg ==> #[trigger] final(y)@[i] == synthesis_output(a@, x@, old(mem)@, lg as nat)[i],
        forall|i: int| lg <= i < old(y)@.len() ==> #[trigger] final(y)@[i] == old(y)@[i],
        update ==> forall|i: int| 0 <= i < 10 ==> #[trigger] final(mem)@[i] == final(y)@[lg - 10 + i],
        update ==> forall|i: int| 10 <= i < old(mem)@.len() ==> #[trigger] final(mem)@[i] == old(mem)@[i],
        !update ==> final(mem)@ == old(mem)@,
{
    proof {
        lemma2_to64();
    }
    let ghost m0 = mem@;
    let mut tmp = [0i16; 80];
    let mut k: usize = 0;
    while k < P
        invariant
            k <= 10,
            mem@ == m0,
            m0.len() >= 10,
            forall|q: int| 0 <= q < k ==> #[trigger] tmp@[q] == m0[q],
        decreases 10 - k,
    {
        tmp[k] = mem[k];
        k = k + 1;
    }
    proof {
        assert(tmp@.take(10) =~= synthesis_buffer(a@, x@, m0, 0));
    }
    let mut i: usize = 0;
    while i < lg
        invariant
            i <= lg <= 70,
            a@.len() >= 11,
            x@.len() >= lg,
            m0.len() >= 10,
            tmp@.len() == 80,
            tmp@.take(10 + i) == synthesis_buffer(a@, x@, m0, i as nat),
        decreases lg - i,
    {
        let ghost prev = synthesis_buffer(a@, x@, m0, i as nat);
        let ghost hs = history(prev, 10 + i as int);
        let ghost cs = coeffs(a@);
        proof {
            assert forall|q: int| 0 <= q < 10 implies #[trigger] hs[q] == tmp@[10 + i - 1 - q] by {
                assert(prev[10 + i - 1 - q] == tmp@.take(10 + i)[10 + i - 1 - q]);
            }
        }
        let mut s = load_shifted(x[i], 12);
        proof {
            lemma2_to64();
            assert(x@[i as int] * pow2(12) == x@[i as int] * 4096);
        }
        let mut j: usize = 1;
        while j <= P
            invariant
                1 <= j <= 11,
                a@.len() >= 11,
                i < lg <= 70,
                x@.len() >= lg,
                hs == history(prev, 10 + i as int),
                cs == coeffs(a@),
                forall|q: int| 0 <= q < 10 ==> #[trigger] hs[q] == tmp@[10 + i - 1 - q],
                s == msu_acc(x@[i as int] * 4096, cs.take(j - 1), hs.take(j - 1)),
            decreases 11 - j,
        {
            proof {
                lemma_msu_step(x@[i as int] * 4096, cs, hs, j - 1);
                assert(hs[j - 1] == tmp@[10 + i - j]);
            }
            s = l_msu0_pure(s, a[j], tmp[P + i - j]);
            j = j + 1;
        }
        proof {
            assert(cs.take(10) =~= cs);
            assert(hs.take(10) =~= hs);
        }
        s = add_shifted(s, 1, 11);
        proof {
            lemma2_to64();
            assert(1 * pow2(11) == 2048);
            lemma_shift16_is_mul(s as int);
        }
        let ghost before = tmp@;
        tmp[P + i] = extract_h(l_shl_pure(s, 4));
        proof {
            assert(prev.len() == 10 + i) by {
                lemma_synthesis_buffer_len(a@, x@, m0, i as nat);
            }
            assert(tmp@.take(10 + i + 1) =~= prev.push(
                synthesis_sample(a@, x@[i as int] as int, hs) as Word16,
            ));
        }
        i = i + 1;
    }
    let ghost buf = synthesis_buffer(a@, x@, m0, lg as nat);
    proof {
        lemma_synthesis_buffer_len(a@, x@, m0, lg as nat);
    }
    let mut i: usize = 0;
    while i < lg
        invariant
            i <= lg <= 70,
            tmp@.len() == 80,
            tmp@.take(10 + lg) == buf,
            buf.len() == 10 + lg,
            y@.len() == old(y)@.len(),
            y@.len() >= lg,
            forall|q: int| 0 <= q < i ==> #[trigger] y@[q] == buf[10 + q],
            forall|q: int| lg <= q < old(y)@.len() ==> #[trigger] y@[q] == old(y)@[q],
        decreases lg - i,
    {
        proof {
            assert(tmp@[i + 10] == buf[10 + i]);
        }
        y[i] = tmp[i + P];
        i = i + 1;
    }
    if update {
        let mut i: usize = 0;
        while i < P
            invariant
                i <= 10,
                10 <= lg <= 70,
                y@.len() >= lg,
                mem@.len() == m0.len(),
                m0.len() >= 10,
                forall|q: int| 0 <= q < i ==> #[trigger] mem@[q] == y@[lg - 10 + q],
                forall|q: int| 10 <= q < m0.len() ==> #[trigger] mem@[q] == m0[q],
            decreases 10 - i,
        {
            mem[i] = y[lg - P + i];
            i = i + 1;
        }
    }
    proof {
        assert forall|q: int| 0 <= q < lg implies #[trigger] y@[q] == synthesis_output(
            a@,
            x@,
            m0,
            lg as nat,
        )[q] by {
            assert(y@[q] == buf[10 + q]);
        }
    }
}

/// The synthesis buffer after `k` outputs holds `10 + k` words.
pub proof fn lemma_synthesis_buffer_len(a: Seq<Word16>, x: Seq<Word16>, mem: Seq<Word16>, k: nat)
    requires
        mem.len() >= 10,
    ensures
        synthesis_buffer(a, x, mem, k).len() == 10 + k,
    decreases k,
{
    if k > 0 {
        lemma_synthesis_buffer_len(a, x, mem, (k - 1) as nat);
    }
}

/// `h[n], h[n-1], ..., h[0]`: the first `n + 1` taps of `h`, reversed.
pub open spec fn reversed_taps(h: Seq<Word16>, n: int) -> Seq<Word16> {
    Seq::new((n + 1) as nat, |i: int| h[n - i])
}

/// Output `n` of the convolution of `x` with the Q12 response `h`: the
/// saturated sum `x[0] h[n] + ... + x[n] h[0]`, divided by `2^12` and
/// truncated to 16 bits.
pub open spec fn convolution_sample(x: Seq<Word16>, h: Seq<Word16>, n: int) -> int {
    (mac_acc(0, x.take(n + 1), reversed_taps(h, n)) / 4096) as i16 as int
}

/// Convolve `x` with the impulse response `h` (Q12) over `l` samples.
pub fn convolution(x: &[Word16], h: &[Word16], y: &mut [Word16], l: usize)
    requires
        x@.len() >= l,
        h@.len() >= l,
        old(y)@.len() >= l,
    ensures
        final(y)@.len() == old(y)@.len(),
        forall|n: int| 0 <= n < l ==> #[trigger] final(y)@[n] == convolution_sample(x@, h@, n),
        forall|n: int| l <= n < old(y)@.len() ==> #[trigger] final(y)@[n] == old(y)@[n],
{
    let mut n: usize = 0;
    while n < l
        invariant
            n <= l,
            x@.len() >= l,
            h@.len() >= l,
            y@.len() == old(y)@.len(),
            y@.len() >= l,
            forall|k: int| 0 <= k < n ==> #[trigger] y@[k] == convolution_sample(x@, h@, k),
            forall|k: int| l <= k < old(y)@.len() ==> #[trigger] y@[k] == old(y)@[k],
        decreases l - n,
    {
        let ghost xs = x@.take(n + 1);
        let ghost hs = reversed_taps(h@, n as int);
        let mut s: Word32 = 0;
        let mut i: usize = 0;
        while i <= n
            invariant
                i <= n + 1,
                n < l,
                x@.len() >= l,
                h@.len() >= l,
                xs == x@.take(n + 1),
                hs == reversed_taps(h@, n as int),
                s == mac_acc(0, xs.take(i as int), hs.take(i as int)),
            decreases n + 1 - i,
        {
            proof {
                lemma_mac_step(0, xs, hs, i as int);
            }
            s = l_mac0_pure(s, x[i], h[n - i]);
            i = i + 1;
        }
        proof {
            assert(xs.take(n + 1) =~= xs);
            assert(hs.take(n + 1) =~= hs);
            lemma2_to64();
        }
        y[n] = store_high(s, 4);
        n = n + 1;
    }
}

/// `x[i] h[0] + x[i+1] h[1] + ... + x[l-1] h[l-1-i]`, each step saturated.
pub open spec fn backward_acc(x: Seq<Word16>, h: Seq<Word16>, i: int, l: int) -> int {
    mac_acc(0, x.subrange(i, l), h.take(l - i))
}

/// The saturated magnitude of a 32-bit value, as `l_abs` computes it.
pub open spec fn abs32(v: int) -> int {
    sat32(if v < 0 { -v } else { v })
}

/// The largest magnitude among the first `k` backward accumulations.
pub open spec fn backward_peak(x: Seq<Word16>, h: Seq<Word16>, l: int, k: nat) -> int
    decreases k,
{
    if k == 0 {
        0
    } else {
        let m = backward_peak(x, h, l, (k - 1) as nat);
        let v = abs32(backward_acc(x, h, k - 1, l));
        if v > m {
            v
        } else {
            m
        }
    }
}

/// The right shift that brings the peak `m` into 16 bits:
/// `18 - min(norm_l(m), 16)`.
pub open spec fn backward_shift(m: int) -> int {
    let n = norm_l_value(m);
    18 - (if n > 16 {
        16
    } else {
        n
    })
}

/// Backward filtering of `x` by the impulse response `h` (at most 60
/// samples), scaled so that the largest output fits 16 bits:
/// `y[i] = backward_acc(i) >> backward_shift(peak)`, truncated to 16 bits.
pub fn backward_filter(x: &[Word16], h: &[Word16], y: &mut [Word16], l: usize)
    requires
        l <= 60,
        x@.len() >= l,
        h@.len() >= l,
        old(y)@.len() >= l,
    ensures
        final(y)@.len() == old(y)@.len(),
        forall|i: int|
            0 <= i < l ==> #[trigger] final(y)@[i] == shift32(
                backward_acc(x@, h@, i, l as int),
                -backward_shift(backward_peak(x@, h@, l as int, l as nat)),
            ) as i16,
        forall|i: int| l <= i < old(y)@.len() ==> #[trigger] final(y)@[i] == old(y)@[i],
{
    let mut y32 = [0i32; 60];
    let mut max: Word32 = 0;
    let mut i: usize = 0;
    while i < l
        invariant
            i <= l <= 60,
            x@.len() >= l,
            h@.len() >= l,
            max == backward_peak(x@, h@, l as int, i as nat),
            0 <= max,
            forall|k: int| 0 <= k < i ==> #[trigger] y32@[k] == backward_acc(x@, h@, k, l as int),
        decreases l - i,
    {
        let ghost xs = x@.subrange(i as int, l as int);
        let ghost hs = h@.take(l - i);
        let mut s: Word32 = 0;
        let mut j: usize = i;
        while j < l
            invariant
                i <= j <= l <= 60,
                x@.len() >= l,
                h@.len() >= l,
                xs == x@.subrange(i as int, l as int),
                hs == h@.take(l - i),
                s == mac_acc(0, xs.take(j - i), hs.take(j - i)),
            decreases l - j,
        {
            proof {
                lemma_mac_step(0, xs, hs, j - i);
            }
            s = l_mac0_pure(s, x[j], h[j - i]);
            j = j + 1;
        }
        proof {
            assert(xs.take(l - i) =~= xs);
            assert(hs.take(l - i) =~= hs);
        }
        y32[i] = s;
        let a = l_abs(s);
        if l_sub_pure(a, max) > 0 {
            max = a;
        }
        i = i + 1;
    }
    let mut j = norm_l(max);
    proof {
        lemma_norm_l_value(max, j);
    }
    if crate::fixed::ops::sub_pure(j, 16) > 0 {
        j = 16;
    }
    j = crate::fixed::ops::sub_pure(18, j);
    let mut i: usize = 0;
    while i < l
        invariant
            i <= l <= 60,
            j == backward_shift(backward_peak(x@, h@, l as int, l as nat)),
            y@.len() == old(y)@.len(),
            y@.len() >= l,
            forall|k: int| 0 <= k < l ==> #[trigger] y32@[k] == backward_acc(x@, h@, k, l as int),
            forall|k: int|
                0 <= k < i ==> #[trigger] y@[k] == shift32(
                    backward_acc(x@, h@, k, l as int),
                    -backward_shift(backward_peak(x@, h@, l as int, l as nat)),
                ) as i16,
            forall|k: int| l <= k < old(y)@.len() ==> #[trigger] y@[k] == old(y)@[k],
        decreases l - i,
    {
        y[i] = extract_l(l_shr_pure(y32[i], j));
        i = i + 1;
    }
}

/// The unit impulse (1.0 in Q10) over 60 samples.
pub open spec fn unit_impulse() -> Seq<Word16> {
    Seq::new(60, |i: int| if i == 0 { 1024i16 } else { 0i16 })
}

/// The first 60 samples of the impulse response of `1/A(z)` from rest.
pub open spec fn impulse_response(a: Seq<Word16>) -> Seq<Word16> {
    synthesis_output(a, unit_impulse(), Seq::new(10, |i: int| 0i16), 60)
}

/// Energy of the impulse response of `1/A(z)` over 60 points (Q20):
/// the saturated sum of its squares.
pub fn lp_impulse_energy(a: &[Word16]) -> (r: Word32)
    requires
        a@.len() >= 11,
    ensures
        r == mac_acc(0, impulse_response(a@), impulse_response(a@)),
{
    let mut h = [0i16; 60];
    h[0] = 1024;
    let mut mem = [0i16; 10];
    let mut hh = h;
    proof {
        assert(h@ =~= unit_impulse());
        assert(mem@ =~= Seq::new(10, |i: int| 0i16));
    }
    synthesis_filter(a, &h, &mut hh, LLG, &mut mem, false);
    let ghost imp = impulse_response(a@);
    proof {
        lemma_synthesis_buffer_len(a@, unit_impulse(), Seq::new(10, |i: int| 0i16), 60);
        assert(hh@ =~= imp);
    }
    let mut ener: Word32 = 0;
    let mut i: usize = 0;
    while i < LLG
        invariant
            i <= 60,
            hh@ == imp,
            ener == mac_acc(0, imp.take(i as int), imp.take(i as int)),
        decreases 60 - i,
    {
        proof {
            lemma_mac_step(0, imp, imp, i as int);
        }
        ener = l_mac0_pure(ener, hh[i], hh[i]);
        i = i + 1;
    }
    proof {
        assert(imp.take(60) =~= imp);
    }
    ener
}

/// The value that long-term prediction writes at one position: the past
/// excitation `T0` samples back (`frac == 0`), or its interpolation at
/// `+1/3` or `-1/3`.
pub open spec fn ltp_value(tables: CodecTables, buf: Seq<Word16>, c: int, frac: int) -> int {
    if frac == 1 {
        interpolation_32(buf.subrange(c - 16, c + 16), tables.inter32_1_3@)
    } else if frac == -1 {
        interpolation_32(buf.subrange(c - 15, c + 17), tables.inter32_m1_3@)
    } else {
        buf[c] as int
    }
}

/// The excitation buffer after `k` steps of long-term prediction: each step
/// overwrites position `eb + k - 1` from the buffer as it stands, so a lag
/// shorter than the subframe repeats the samples just written.
pub open spec fn ltp_buffer(
    tables: CodecTables,
    exc: Seq<Word16>,
    eb: int,
    t0: int,
    frac: int,
    k: nat,
) -> Seq<Word16>
    decreases k,
{
    if k == 0 {
        exc
    } else {
        let prev = ltp_buffer(tables, exc, eb, t0, frac, (k - 1) as nat);
        prev.update(eb + k - 1, ltp_value(tables, prev, eb + k - 1 - t0, frac) as Word16)
    }
}

/// Long-term prediction with fractional interpolation, in place on
/// `exc[eb..eb + l_subfr]`; the buffer must hold the samples that the
/// interpolation filter reads around `eb - t0`. A fraction other than `-1`, `0`, `1` leaves
/// the buffer unchanged.
pub fn long_term_predict(
    tables: &CodecTables,
    exc: &mut [Word16],
    eb: usize,
    t0: Word16,
    frac: Word16,
    l_subfr: usize,
)
    requires
        t0 >= 0,
        eb + l_subfr <= old(exc)@.len(),
        eb >= t0,
        frac == 1 ==> eb >= t0 + 16 && eb + l_subfr + 15 <= old(exc)@.len() + t0,
        frac == -1 ==> eb >= t0 + 15 && eb + l_subfr + 16 <= old(exc)@.len() + t0,
    ensures
        final(exc)@.len() == old(exc)@.len(),
        frac == 0 || frac == 1 || frac == -1 ==> final(exc)@ == ltp_buffer(
            *tables,
            old(exc)@,
            eb as int,
            t0 as int,
            frac as int,
            l_subfr as nat,
        ),
        !(frac == 0 || frac == 1 || frac == -1) ==> final(exc)@ == old(exc)@,
{
    let lag = t0 as usize;
    let n = exc.len();
    if frac == 0 || frac == 1 || frac == -1 {
        let mut i: usize = 0;
        while i < l_subfr
            invariant
                i <= l_subfr,
                lag == t0,
                t0 >= 0,
                eb + l_subfr <= old(exc)@.len(),
                eb >= t0,
                frac == 0 || frac == 1 || frac == -1,
                frac == 1 ==> eb >= t0 + 16 && eb + l_subfr + 15 <= old(exc)@.len() + t0,
                frac == -1 ==> eb >= t0 + 15 && eb + l_subfr + 16 <= old(exc)@.len() + t0,
                exc@.len() == old(exc)@.len(),
                n == exc@.len(),
                exc@ == ltp_buffer(*tables, old(exc)@, eb as int, t0 as int, frac as int, i as nat),
            decreases l_subfr - i,
        {
            let c = eb + i - lag;
            let v = if frac == 0 {
                exc[c]
            } else if frac == 1 {
                interpolate_up_32(tables, exc, c)
            } else {
                interpolate_down_32(tables, exc, c)
            };
            exc[eb + i] = v;
            i = i + 1;
        }
    }
}

/// Autocorrelation `i` (DPF) times lag-window coefficient `i - 1`.
pub open spec fn lag_windowed(tables: CodecTables, r_h: Seq<Word16>, r_l: Seq<Word16>, i: int) -> int {
    mul_dpf_value(
        r_h[i] as int,
        r_l[i] as int,
        tables.lag_h@[i - 1] as int,
        tables.lag_l@[i - 1] as int,
    )
}

/// Apply the 60 Hz lag window to the autocorrelations `r[1..=10]` (DPF, in
/// place): each becomes the DPF split of its product with the window
/// coefficient.
pub fn apply_lag_window(tables: &CodecTables, r_h: &mut [Word16], r_l: &mut [Word16])
    requires
        old(r_h)@.len() >= 11,
        old(r_l)@.len() >= 11,
    ensures
        final(r_h)@.len() == old(r_h)@.len(),
        final(r_l)@.len() == old(r_l)@.len(),
        forall|i: int|
            1 <= i <= 10 ==> #[trigger] final(r_h)@[i] == split_hi(
                lag_windowed(*tables, old(r_h)@, old(r_l)@, i),
            ),
        forall|i: int|
            1 <= i <= 10 ==> #[trigger] final(r_l)@[i] == split_lo(
                lag_windowed(*tables, old(r_h)@, old(r_l)@, i),
            ),
        final(r_h)@[0] == old(r_h)@[0],
        final(r_l)@[0] == old(r_l)@[0],
        forall|i: int| 11 <= i < old(r_h)@.len() ==> #[trigger] final(r_h)@[i] == old(r_h)@[i],
        forall|i: int| 11 <= i < old(r_l)@.len() ==> #[trigger] final(r_l)@[i] == old(r_l)@[i],
{
    let mut i: usize = 1;
    while i <= P
        invariant
            1 <= i <= 11,
            r_h@.len() == old(r_h)@.len(),
            r_l@.len() == old(r_l)@.len(),
            old(r_h)@.len() >= 11,
            old(r_l)@.len() >= 11,
            forall|k: int|
                1 <= k < i ==> #[trigger] r_h@[k] == split_hi(lag_windowed(*tables, old(r_h)@, old(r_l)@, k)),
            forall|k: int|
                1 <= k < i ==> #[trigger] r_l@[k] == split_lo(lag_windowed(*tables, old(r_h)@, old(r_l)@, k)),
            forall|k: int| (k == 0 || i <= k < old(r_h)@.len()) ==> #[trigger] r_h@[k] == old(r_h)@[k],
            forall|k: int| (k == 0 || i <= k < old(r_l)@.len()) ==> #[trigger] r_l@[k] == old(r_l)@[k],
        decreases 11 - i,
    {
        let x = mul_dpf(r_h[i], r_l[i], tables.lag_h[i - 1], tables.lag_l[i - 1]);
        let (h, l) = dpf_split(x);
        r_h[i] = h;
        r_l[i] = l;
        i = i + 1;
    }
}

/// One step of the Chebyshev recursion `b0 = 2 x b1 - b2 + f[i]`, in Q24
/// DPF arithmetic.
pub open spec fn cheby_step(x: int, fi: int, b1h: int, b1l: int, b2h: int, b2l: int) -> int {
    sat32(sat32(sat32(shift32(mul_word_dpf_value(b1h, b1l, x), 1) - b2l) - b2h * 32768) + fi * 8192)
}

/// The recursion state `(b1_h, b1_l, b2_h, b2_l)` once the coefficients
/// `f[2..=k]` have been consumed (`k <= 1`: the starting state).
pub open spec fn cheby_state(x: int, f: Seq<Word16>, k: int) -> (int, int, int, int)
    decreases k,
{
    if k <= 1 {
        let t0 = sat32(x * 1024 + f[1] * 8192);
        (split_hi(t0), split_lo(t0), 512, 0)
    } else {
        let st = cheby_state(x, f, k - 1);
        let t0 = cheby_step(x, f[k] as int, st.0, st.1, st.2, st.3);
        (split_hi(t0), split_lo(t0), st.0, st.1)
    }
}

/// The Chebyshev series `C(x)` of the coefficients `f[1..=n]`, in Q14.
pub open spec fn cheby_value(x: int, f: Seq<Word16>, n: int) -> int {
    let st = cheby_state(x, f, n - 1);
    let t0 = sat32(sat32(sat32(mul_word_dpf_value(st.0, st.1, x) - st.3) - st.2 * 32768) + f[n] * 4096);
    shift32(t0, 6) / 65536
}

/// Evaluate the Chebyshev polynomial series `C(x)` in Q14.
pub fn cheby_eval(x: Word16, f: &[Word16], n: usize) -> (r: Word16)
    requires
        f@.len() >= 2,
        n < f@.len(),
    ensures
        r == cheby_value(x as int, f@, n as int),
{
    proof {
        lemma2_to64();
    }
    let mut b2_h: Word16 = 512;
    let mut b2_l: Word16 = 0;
    let mut t0 = load_shifted(x, 10);
    t0 = add_shifted(t0, f[1], 13);
    proof {
        assert(x * pow2(10) == x * 1024);
        assert(f@[1] * pow2(13) == f@[1] * 8192);
    }
    let (h0, l0) = dpf_split(t0);
    let mut b1_h = h0;
    let mut b1_l = l0;
    let mut i: usize = 2;
    while i < n
        invariant
            2 <= i,
            i <= n || n < 2,
            n < 2 ==> i == 2,
            f@.len() >= 2,
            n < f@.len(),
            (b1_h as int, b1_l as int, b2_h as int, b2_l as int) == cheby_state(
                x as int,
                f@,
                i - 1,
            ),
        decreases n - i,
    {
        proof {
            lemma2_to64();
        }
        let ghost st = cheby_state(x as int, f@, i - 1);
        let mut t0 = mul_word_dpf(b1_h, b1_l, x);
        t0 = l_shl_pure(t0, 1);
        t0 = sub_shifted(t0, b2_l, 0);
        proof {
            assert(b2_l * pow2(0) == b2_l);
        }
        t0 = sub_shifted(t0, b2_h, 15);
        proof {
            assert(b2_h * pow2(15) == b2_h * 32768);
        }
        t0 = add_shifted(t0, f[i], 13);
        proof {
            assert(f@[i as int] * pow2(13) == f@[i as int] * 8192);
            assert(t0 == cheby_step(x as int, f@[i as int] as int, st.0, st.1, st.2, st.3));
        }
        let (b0_h, b0_l) = dpf_split(t0);
        b2_l = b1_l;
        b2_h = b1_h;
        b1_l = b0_l;
        b1_h = b0_h;
        i = i + 1;
    }
    proof {
        lemma2_to64();
        assert(n < 2 ==> cheby_state(x as int, f@, n - 1) == cheby_state(x as int, f@, 1));
        assert(cheby_state(x as int, f@, n - 1) == (b1_h as int, b1_l as int, b2_h as int, b2_l as int));
    }
    let mut t0 = mul_word_dpf(b1_h, b1_l, x);
    t0 = sub_shifted(t0, b2_l, 0);
    proof {
        assert(b2_l * pow2(0) == b2_l);
    }
    t0 = sub_shifted(t0, b2_h, 15);
    proof {
        assert(b2_h * pow2(15) == b2_h * 32768);
    }
    t0 = add_shifted(t0, f[n], 12);
    proof {
        assert(f@[n as int] * pow2(12) == f@[n as int] * 4096);
    }
    t0 = l_shl_pure(t0, 6);
    extract_h(t0)
}

/// The product term of one update of the LSP polynomial:
/// `2 * f[c-1] * q`, with `f[c-1]` taken as a DPF pair.
pub open spec fn poly_term(f: Seq<int>, c: int, q: int) -> int {
    shift32(mul_word_dpf_value(split_hi(f[c - 1]), split_lo(f[c - 1]), q), 1)
}

/// Multiply the polynomial `f` (degree `i - 1`, Q24) by
/// `1 - 2 q z^-1 + z^-2`, keeping coefficients `0..=i`.
pub open spec fn poly_step(f: Seq<int>, i: int, q: int) -> Seq<int> {
    Seq::new(
        6,
        |c: int|
            if 2 <= c <= i {
                let fc = if c == i {
                    f[i - 2]
                } else {
                    f[c]
                };
                sat32(sat32(fc + f[c - 2]) - poly_term(f, c, q))
            } else if c == 1 {
                sat32(f[1] - q * 1024)
            } else {
                f[c]
            },
    )
}

/// The polynomial `1 - 2 q z^-1` (Q24) and zero coefficients above.
pub open spec fn poly_init(q: int) -> Seq<int> {
    Seq::new(
        6,
        |c: int|
            if c == 0 {
                16777216
            } else if c == 1 {
                sat32(-(q * 1024))
            } else {
                0
            },
    )
}

/// The LSP polynomial built from `lsp[off], lsp[off + 2], ...` up to its
/// `k`-th factor.
pub open spec fn poly_coeffs(lsp: Seq<Word16>, off: int, k: int) -> Seq<int>
    decreases k,
{
    if k <= 1 {
        poly_init(lsp[off] as int)
    } else {
        poly_step(poly_coeffs(lsp, off, k - 1), k, lsp[off + 2 * (k - 1)] as int)
    }
}

/// The LP coefficients (Q12) given by the LSP vector `lsp`: `a[0] = 1.0`,
/// `a[i]` and `a[11 - i]` from the sum and difference of the two
/// symmetric polynomials, rounded from Q24.
pub open spec fn lp_from_lsp(lsp: Seq<Word16>) -> Seq<Word16> {
    let f1 = poly_coeffs(lsp, 0, 5);
    let f2 = poly_coeffs(lsp, 1, 5);
    Seq::new(
        11,
        |k: int|
            if k == 0 {
                4096i16
            } else if k <= 5 {
                shift32_round(sat32(sat32(f1[k] + f1[k - 1]) + sat32(f2[k] - f2[k - 1])), 13) as i16
            } else {
                let i = 11 - k;
                shift32_round(sat32(sat32(f1[i] + f1[i - 1]) - sat32(f2[i] - f2[i - 1])), 13) as i16
            },
    )
}

/// Build one LSP polynomial from `lsp[off], lsp[off + 2], ..., lsp[off + 8]`.
fn lsp_poly(lsp: &[Word16], off: usize, f: &mut [Word32; 6])
    requires
        off + 9 <= lsp@.len(),
    ensures
        forall|c: int| 0 <= c < 6 ==> #[trigger] final(f)@[c] == poly_coeffs(lsp@, off as int, 5)[c],
{
    proof {
        lemma2_to64();
    }
    let ln = lsp.len();
    f[0] = load_shifted(4096, 12);
    f[1] = 0;
    f[1] = sub_shifted(f[1], lsp[off], 10);
    f[2] = 0;
    f[3] = 0;
    f[4] = 0;
    f[5] = 0;
    let mut i: usize = 2;
    while i <= NC
        invariant
            2 <= i <= 6,
            off + 9 <= lsp@.len(),
            ln == lsp@.len(),
            forall|c: int| 0 <= c < 6 ==> #[trigger] f@[c] == poly_coeffs(lsp@, off as int, i - 1)[c],
        decreases 6 - i,
    {
        let ghost g = poly_coeffs(lsp@, off as int, i - 1);
        let q = lsp[off + 2 * (i - 1)];
        let ghost next = poly_step(g, i as int, q as int);
        proof {
            assert(poly_coeffs(lsp@, off as int, i as int) == next);
        }
        f[i] = f[i - 2];
        let mut cur: usize = i;
        while cur >= 2
            invariant
                1 <= cur <= i <= 5,
                g == poly_coeffs(lsp@, off as int, i - 1),
                next == poly_step(g, i as int, q as int),
                forall|c: int| cur < c <= i ==> #[trigger] f@[c] == next[c],
                forall|c: int| 0 <= c <= cur && c != i ==> #[trigger] f@[c] == g[c],
                cur == i ==> f@[i as int] == g[i - 2],
                forall|c: int| i < c < 6 ==> #[trigger] f@[c] == g[c],
            decreases cur,
        {
            let (hi, lo) = dpf_split(f[cur - 1]);
            let mut t0 = mul_word_dpf(hi, lo, q);
            t0 = l_shl_pure(t0, 1);
            f[cur] = l_add_pure(f[cur], f[cur - 2]);
            f[cur] = l_sub_pure(f[cur], t0);
            cur = cur - 1;
        }
        proof {
            lemma2_to64();
        }
        f[1] = sub_shifted(f[1], q, 10);
        proof {
            assert forall|c: int| 0 <= c < 6 implies #[trigger] f@[c] == next[c] by {
                if c >= 2 && c <= i {
                } else if c == 1 {
                } else {
                }
            }
        }
        i = i + 1;
    }
}

/// Write the LP coefficients of `lsp` into `a[base..base + 11]`.
fn lsp_to_lp_at(lsp: &[Word16], a: &mut [Word16], base: usize)
    requires
        lsp@.len() >= 10,
        base + 11 <= old(a)@.len(),
    ensures
        final(a)@.len() == old(a)@.len(),
        forall|k: int| 0 <= k < 11 ==> #[trigger] final(a)@[base + k] == lp_from_lsp(lsp@)[k],
        forall|k: int|
            0 <= k < old(a)@.len() && !(base <= k < base + 11) ==> #[trigger] final(a)@[k]
                == old(a)@[k],
{
    let mut f1 = [0i32; 6];
    let mut f2 = [0i32; 6];
    lsp_poly(lsp, 0, &mut f1);
    lsp_poly(lsp, 1, &mut f2);
    let ghost p1 = poly_coeffs(lsp@, 0, 5);
    let ghost p2 = poly_coeffs(lsp@, 1, 5);
    let mut i: usize = NC;
    while i >= 1
        invariant
            0 <= i <= 5,
            forall|c: int| 0 <= c <= i ==> #[trigger] f1@[c] == p1[c],
            forall|c: int| 0 <= c <= i ==> #[trigger] f2@[c] == p2[c],
            forall|c: int| i < c <= 5 ==> #[trigger] f1@[c] == sat32(p1[c] + p1[c - 1]),
            forall|c: int| i < c <= 5 ==> #[trigger] f2@[c] == sat32(p2[c] - p2[c - 1]),
        decreases i,
    {
        f1[i] = l_add_pure(f1[i], f1[i - 1]);
        f2[i] = l_sub_pure(f2[i], f2[i - 1]);
        i = i - 1;
    }
    let ghost lp = lp_from_lsp(lsp@);
    let alen = a.len();
    a[base] = 4096;
    let mut j: usize = P;
    let mut i: usize = 1;
    while i <= NC
        invariant
            1 <= i <= 6,
            j == 11 - i,
            base + 11 <= old(a)@.len(),
            a@.len() == old(a)@.len(),
            alen == a@.len(),
            lp == lp_from_lsp(lsp@),
            p1 == poly_coeffs(lsp@, 0, 5),
            p2 == poly_coeffs(lsp@, 1, 5),
            forall|c: int| 1 <= c <= 5 ==> #[trigger] f1@[c] == sat32(p1[c] + p1[c - 1]),
            forall|c: int| 1 <= c <= 5 ==> #[trigger] f2@[c] == sat32(p2[c] - p2[c - 1]),
            a@[base as int] == 4096,
            forall|k: int| 1 <= k < i ==> #[trigger] a@[base + k] == lp[k],
            forall|k: int| 11 - i < k <= 10 ==> #[trigger] a@[base + k] == lp[k],
            forall|k: int|
                0 <= k < old(a)@.len() && !(base <= k < base + 11) ==> #[trigger] a@[k]
                    == old(a)@[k],
        decreases 6 - i,
    {
        let t0 = l_add_pure(f1[i], f2[i]);
        a[base + i] = extract_l(l_shr_r_pure(t0, 13));
        let t0 = l_sub_pure(f1[i], f2[i]);
        a[base + j] = extract_l(l_shr_r_pure(t0, 13));
        j = j - 1;
        i = i + 1;
    }
}

/// Convert LSPs (cosine domain, Q15) to LP coefficients (Q12).
pub fn lsp_to_lp(lsp: &[Word16], a: &mut [Word16])
    requires
        lsp@.len() >= 10,
        old(a)@.len() >= 11,
    ensures
        final(a)@.len() == old(a)@.len(),
        forall|k: int| 0 <= k < 11 ==> #[trigger] final(a)@[k] == lp_from_lsp(lsp@)[k],
        forall|k: int| 11 <= k < old(a)@.len() ==> #[trigger] final(a)@[k] == old(a)@[k],
{
    lsp_to_lp_at(lsp, a, 0);
    proof {
        assert forall|k: int| 0 <= k < 11 implies #[trigger] a@[k] == lp_from_lsp(lsp@)[k] by {
            assert(a@[0 + k] == lp_from_lsp(lsp@)[k]);
        }
    }
}

/// The LSP vector of subframe `k` (`0..=2`), interpolated between the
/// previous and the current frame with weights `(3 - k)/4` and `(k + 1)/4`.
pub open spec fn interpolated_lsp(lsp_old: Seq<Word16>, lsp_new: Seq<Word16>, k: int) -> Seq<Word16> {
    let fac_old = 24576 - 8192 * k;
    let fac_new = 8192 + 8192 * k;
    Seq::new(
        10,
        |i: int|
            (sat32(sat32(2 * lsp_old[i] * fac_old) + sat32(2 * lsp_new[i] * fac_new)) / 65536) as i16,
    )
}

/// The LSP polynomials read only the first ten LSPs.
proof fn lemma_poly_coeffs_first_ten(a: Seq<Word16>, b: Seq<Word16>, off: int, k: int)
    requires
        0 <= off <= 1,
        k <= 5,
        a.len() >= 10,
        b.len() >= 10,
        forall|i: int| 0 <= i < 10 ==> a[i] == b[i],
    ensures
        poly_coeffs(a, off, k) == poly_coeffs(b, off, k),
    decreases k,
{
    if k > 1 {
        lemma_poly_coeffs_first_ten(a, b, off, k - 1);
        assert(a[off + 2 * (k - 1)] == b[off + 2 * (k - 1)]);
    }
}

/// Law: the LP filter of an LSP set depends only on its first ten values,
/// and interpolating between two sets that agree there is exact: every
/// interpolated filter is the new set's filter.
pub proof fn law_interpolating_equal_sets(lsp_old: Seq<Word16>, lsp_new: Seq<Word16>)
    requires
        lsp_old.len() >= 10,
        lsp_new.len() >= 10,
        forall|i: int| 0 <= i < 10 ==> lsp_old[i] == lsp_new[i],
    ensures
        forall|k: int|
            0 <= k < 3 ==> lp_from_lsp(#[trigger] interpolated_lsp(lsp_old, lsp_new, k)) == lp_from_lsp(
                lsp_new,
            ),
{
    assert forall|k: int| 0 <= k < 3 implies lp_from_lsp(#[trigger] interpolated_lsp(lsp_old, lsp_new, k))
        == lp_from_lsp(lsp_new) by {
        let m = interpolated_lsp(lsp_old, lsp_new, k);
        assert forall|i: int| 0 <= i < 10 implies m[i] == lsp_new[i] by {
            let x = lsp_new[i] as int;
            let fo = 24576 - 8192 * k;
            let fnw = 8192 + 8192 * k;
            assert(0 < fo <= 24576 && 0 < fnw <= 24576 && fo + fnw == 32768);
            assert(-0x8000_0000 <= 2 * x * fo <= 0x7fff_ffff && -0x8000_0000 <= 2 * x * fnw
                <= 0x7fff_ffff && 2 * x * fo + 2 * x * fnw == 65536 * x) by (nonlinear_arith)
                requires
                    -32768 <= x <= 32767,
                    0 < fo <= 24576,
                    0 < fnw <= 24576,
                    fo + fnw == 32768,
            ;
            assert((65536 * x) / 65536 == x) by (nonlinear_arith);
        }
        lemma_poly_coeffs_first_ten(m, lsp_new, 0, 5);
        lemma_poly_coeffs_first_ten(m, lsp_new, 1, 5);
        assert(lp_from_lsp(m) =~= lp_from_lsp(lsp_new));
    }
}

/// Interpolate LSPs across the four subframes and convert each to an LP
/// filter: `a[11 k..11 k + 11]` for subframe `k`, the last one from
/// `lsp_new` itself.
pub fn interpolate_lp(lsp_old: &[Word16], lsp_new: &[Word16], a: &mut [Word16])
    requires
        lsp_old@.len() >= 10,
        lsp_new@.len() >= 10,
        old(a)@.len() >= 44,
    ensures
        final(a)@.len() == old(a)@.len(),
        forall|k: int, i: int|
            0 <= k < 3 && 0 <= i < 11 ==> #[trigger] final(a)@[11 * k + i] == lp_from_lsp(
                interpolated_lsp(lsp_old@, lsp_new@, k),
            )[i],
        forall|i: int| 0 <= i < 11 ==> #[trigger] final(a)@[33 + i] == lp_from_lsp(lsp_new@)[i],
        forall|i: int| 44 <= i < old(a)@.len() ==> #[trigger] final(a)@[i] == old(a)@[i],
{
    let mut fac_new: Word16 = 8192;
    let mut fac_old: Word16 = 24576;
    let mut j: usize = 0;
    let mut k: usize = 0;
    while j < 33
        invariant
            j == 11 * k,
            k <= 3,
            fac_old == 24576 - 8192 * k,
            k < 3 ==> fac_new == 8192 + 8192 * k,
            lsp_old@.len() >= 10,
            lsp_new@.len() >= 10,
            a@.len() == old(a)@.len(),
            a@.len() >= 44,
            forall|kk: int, i: int|
                0 <= kk < k && 0 <= i < 11 ==> #[trigger] a@[11 * kk + i] == lp_from_lsp(
                    interpolated_lsp(lsp_old@, lsp_new@, kk),
                )[i],
            forall|i: int| 44 <= i < old(a)@.len() ==> #[trigger] a@[i] == old(a)@[i],
        decreases 33 - j,
    {
        let mut lsp = [0i16; 10];
        let mut i: usize = 0;
        while i < P
            invariant
                i <= 10,
                k < 3,
                fac_old == 24576 - 8192 * k,
                fac_new == 8192 + 8192 * k,
                lsp_old@.len() >= 10,
                lsp_new@.len() >= 10,
                forall|q: int|
                    0 <= q < i ==> #[trigger] lsp@[q] == interpolated_lsp(lsp_old@, lsp_new@, k as int)[q],
            decreases 10 - i,
        {
            let mut t0 = l_mult_pure(lsp_old[i], fac_old);
            t0 = l_mac_pure(t0, lsp_new[i], fac_new);
            lsp[i] = extract_h(t0);
            i = i + 1;
        }
        proof {
            assert(lsp@ =~= interpolated_lsp(lsp_old@, lsp_new@, k as int));
        }
        let ghost before = a@;
        lsp_to_lp_at(&lsp, a, j);
        proof {
            assert forall|kk: int, q: int|
                0 <= kk < k + 1 && 0 <= q < 11 implies #[trigger] a@[11 * kk + q] == lp_from_lsp(
                interpolated_lsp(lsp_old@, lsp_new@, kk),
            )[q] by {
                if kk < k {
                    assert(before[11 * kk + q] == lp_from_lsp(
                        interpolated_lsp(lsp_old@, lsp_new@, kk),
                    )[q]);
                    assert(!(j <= 11 * kk + q < j + 11));
                }
            }
        }
        fac_old = crate::fixed::ops::sub_pure(fac_old, 8192);
        fac_new = crate::fixed::ops::add_pure(fac_new, 8192);
        j = j + 11;
        k = k + 1;
    }
    let ghost before = a@;
    lsp_to_lp_at(lsp_new, a, 33);
    proof {
        assert forall|kk: int, q: int|
            0 <= kk < 3 && 0 <= q < 11 implies #[trigger] a@[11 * kk + q] == lp_from_lsp(
            interpolated_lsp(lsp_old@, lsp_new@, kk),
        )[q] by {
            assert(before[11 * kk + q] == lp_from_lsp(interpolated_lsp(lsp_old@, lsp_new@, kk))[q]);
        }
    }
}

/// The input multiplied by the analysis window, with rounding (Q15).
pub open spec fn windowed(tables: CodecTables, x: Seq<Word16>) -> Seq<Word16> {
    Seq::new(256, |i: int| sat16((x[i] * tables.window@[i] + 0x4000) / 32768) as i16)
}

/// Every sample divided by four (arithmetic shift right by two).
pub open spec fn quartered(y: Seq<Word16>) -> Seq<Word16> {
    Seq::new(y.len(), |i: int| shift16(y[i] as int, -2) as i16)
}

/// The signal after `k` rounds of [`quartered`].
pub open spec fn scaled(y: Seq<Word16>, k: nat) -> Seq<Word16>
    decreases k,
{
    if k == 0 {
        y
    } else {
        quartered(scaled(y, (k - 1) as nat))
    }
}

/// The exact sum of squares of a signal.
pub open spec fn sum_squares(y: Seq<Word16>) -> int
    decreases y.len(),
{
    if y.len() == 0 {
        0
    } else {
        sum_squares(y.drop_last()) + y.last() * y.last()
    }
}

/// Whether `1 + sum(y^2)` fits in 32 bits.
pub open spec fn energy_fits(y: Seq<Word16>) -> bool {
    1 + sum_squares(y) <= 0x7fff_ffff
}

/// The number of quarterings after which the energy of the windowed signal
/// fits in 32 bits (two always suffice for 256 samples).
pub open spec fn rescale_rounds(w: Seq<Word16>) -> nat {
    if energy_fits(w) {
        0
    } else if energy_fits(scaled(w, 1)) {
        1
    } else {
        2
    }
}

/// The windowed signal that the autocorrelations are computed from, after
/// rescaling.
pub open spec fn autocorr_signal(tables: CodecTables, x: Seq<Word16>) -> Seq<Word16> {
    let w = windowed(tables, x);
    scaled(w, rescale_rounds(w))
}

/// `1 + sum(y^2)` of the rescaled windowed signal.
pub open spec fn autocorr_energy(tables: CodecTables, x: Seq<Word16>) -> int {
    1 + sum_squares(autocorr_signal(tables, x))
}

/// Autocorrelation `i` (`0..=10`) before its DPF split: `r[0]` is the
/// energy normalised and halved; `r[i]` is the lag-`i` product sum, halved
/// and shifted by the same normalisation.
pub open spec fn autocorr_value(tables: CodecTables, x: Seq<Word16>, i: int) -> int {
    let y = autocorr_signal(tables, x);
    let e = autocorr_energy(tables, x);
    let norm = norm_l_value(e);
    if i == 0 {
        shift32(shift32(e, norm), -1)
    } else {
        shift32(shift32(mac_acc(0, y.take(256 - i), y.subrange(i, 256)), -1), norm)
    }
}

/// The sum of squares of samples bounded by `b` in magnitude is at most
/// `len * b^2`.
proof fn lemma_sum_squares_bound(y: Seq<Word16>, b: int)
    requires
        b >= 0,
        forall|i: int| 0 <= i < y.len() ==> -b <= #[trigger] y[i] <= b,
    ensures
        0 <= sum_squares(y) <= y.len() * (b * b),
    decreases y.len(),
{
    if y.len() > 0 {
        let t = y.drop_last();
        assert forall|i: int| 0 <= i < t.len() implies -b <= #[trigger] t[i] <= b by {
            assert(t[i] == y[i]);
        }
        lemma_sum_squares_bound(t, b);
        let v = y.last();
        assert(-b <= v <= b);
        assert(0 <= v * v <= b * b) by (nonlinear_arith)
            requires
                -b <= v <= b,
        ;
        assert(t.len() * (b * b) + b * b == y.len() * (b * b)) by (nonlinear_arith)
            requires
                t.len() + 1 == y.len(),
        ;
    }
}

/// A quarter of a sample bounded by `b` is bounded by `b / 4`.
proof fn lemma_quarter_bound(v: Word16, b: int)
    requires
        -b <= v < b,
        b % 4 == 0,
    ensures
        -(b / 4) <= shift16(v as int, -2) < b / 4,
        shift16(v as int, -2) as i16 == shift16(v as int, -2),
{
    vstd::arithmetic::power2::lemma2_to64();
    assert(shift16(v as int, -2) == (v as int) / 4);
}

/// Two quarterings of 256 samples always bring the energy into 32 bits.
proof fn lemma_two_rounds_fit(w: Seq<Word16>)
    requires
        w.len() == 256,
    ensures
        energy_fits(scaled(w, 2)),
{
    vstd::arithmetic::power2::lemma2_to64();
    let q1 = scaled(w, 1);
    let q2 = scaled(w, 2);
    assert(scaled(w, 0) == w);
    assert(q1 == quartered(w));
    assert(q2 == quartered(q1));
    assert forall|i: int| 0 <= i < 256 implies -8192 <= #[trigger] q1[i] <= 8191 by {
        lemma_quarter_bound(w[i], 32768);
    }
    assert forall|i: int| 0 <= i < q2.len() implies -2048 <= #[trigger] q2[i] <= 2048 by {
        assert(-8192 <= q1[i] <= 8191);
        lemma_quarter_bound(q1[i], 8192);
    }
    lemma_sum_squares_bound(q2, 2048);
}

/// One more square in the running sum.
proof fn lemma_sum_squares_step(y: Seq<Word16>, j: int)
    requires
        0 <= j < y.len(),
    ensures
        sum_squares(y.take(j + 1)) == sum_squares(y.take(j)) + y[j] * y[j],
        y[j] * y[j] >= 0,
{
    assert(y.take(j + 1).drop_last() =~= y.take(j));
    let v = y[j];
    assert(v * v >= 0) by (nonlinear_arith);
}

/// `sum_squares` of a prefix never exceeds that of a longer prefix.
proof fn lemma_sum_squares_monotone(y: Seq<Word16>, j: int, k: int)
    requires
        0 <= j <= k <= y.len(),
    ensures
        sum_squares(y.take(j)) <= sum_squares(y.take(k)),
    decreases k - j,
{
    if j < k {
        lemma_sum_squares_monotone(y, j, k - 1);
        lemma_sum_squares_step(y, k - 1);
    }
}

/// Compute the autocorrelations `r[0..=10]` of the windowed input, in DPF
/// (`r_h`/`r_l`) with a shared normalisation. If the energy overflows 32
/// bits the windowed signal is divided by four until it fits.
pub fn autocorrelation(tables: &CodecTables, x: &[Word16], r_h: &mut [Word16], r_l: &mut [Word16])
    requires
        x@.len() >= 256,
        old(r_h)@.len() >= 11,
        old(r_l)@.len() >= 11,
    ensures
        final(r_h)@.len() == old(r_h)@.len(),
        final(r_l)@.len() == old(r_l)@.len(),
        forall|i: int|
            0 <= i <= 10 ==> #[trigger] final(r_h)@[i] == split_hi(autocorr_value(*tables, x@, i)),
        forall|i: int|
            0 <= i <= 10 ==> #[trigger] final(r_l)@[i] == split_lo(autocorr_value(*tables, x@, i)),
        forall|i: int| 11 <= i < old(r_h)@.len() ==> #[trigger] final(r_h)@[i] == old(r_h)@[i],
        forall|i: int| 11 <= i < old(r_l)@.len() ==> #[trigger] final(r_l)@[i] == old(r_l)@[i],
{
    let mut y = [0i16; 256];
    let mut i: usize = 0;
    while i < L_WINDOW
        invariant
            i <= 256,
            x@.len() >= 256,
            forall|k: int| 0 <= k < i ==> #[trigger] y@[k] == windowed(*tables, x@)[k],
        decreases 256 - i,
    {
        y[i] = mult_r_pure(x[i], tables.window[i]);
        i = i + 1;
    }
    let ghost w = windowed(*tables, x@);
    proof {
        assert(y@ =~= w);
    }
    let mut flag = OverflowFlag::new();
    let mut sum: Word32 = 1;
    let mut rounds: usize = 0;
    loop
        invariant
            rounds <= 2,
            w == windowed(*tables, x@),
            w.len() == 256,
            y@ == scaled(w, rounds as nat),
            forall|k: nat| k < rounds ==> !energy_fits(#[trigger] scaled(w, k)),
        ensures
            y@ == autocorr_signal(*tables, x@),
            sum == autocorr_energy(*tables, x@),
            energy_fits(y@),
        decreases 2 - rounds,
    {
        reset(&mut flag);
        sum = 1;
        let mut j: usize = 0;
        while j < L_WINDOW
            invariant
                j <= 256,
                flag.raised == (1 + sum_squares(y@.take(j as int)) > 0x7fff_ffff),
                !flag.raised ==> sum == 1 + sum_squares(y@.take(j as int)),
                flag.raised ==> sum == 0x7fff_ffff,
            decreases 256 - j,
        {
            proof {
                lemma_sum_squares_step(y@, j as int);
            }
            sum = l_mac0(sum, y[j], y[j], &mut flag);
            j = j + 1;
        }
        proof {
            assert(y@.take(256) =~= y@);
        }
        if !occurred(&flag) {
            proof {
                assert(energy_fits(scaled(w, rounds as nat)));
                assert(scaled(w, 0) == w);
                if rounds >= 1 {
                    assert(!energy_fits(scaled(w, 0)));
                }
                if rounds == 2 {
                    assert(!energy_fits(scaled(w, 1)));
                }
                assert(rescale_rounds(w) == rounds);
            }
            break;
        }
        proof {
            if rounds == 2 {
                lemma_two_rounds_fit(w);
            }
        }
        let ghost before = y@;
        let mut k: usize = 0;
        while k < L_WINDOW
            invariant
                k <= 256,
                before.len() == 256,
                forall|q: int| 0 <= q < k ==> #[trigger] y@[q] == quartered(before)[q],
                forall|q: int| k <= q < 256 ==> #[trigger] y@[q] == before[q],
            decreases 256 - k,
        {
            y[k] = shr_pure(y[k], 2);
            k = k + 1;
        }
        proof {
            assert(y@ =~= quartered(before));
            assert(scaled(w, (rounds + 1) as nat) == quartered(scaled(w, rounds as nat)));
        }
        rounds = rounds + 1;
    }
    let ghost ys = y@;
    let norm = norm_l(sum);
    proof {
        lemma_norm_l_value(sum, norm);
    }
    let mut e = l_shl_pure(sum, norm);
    e = l_shr_pure(e, 1);
    let (h0, l0) = dpf_split(e);
    r_h[0] = h0;
    r_l[0] = l0;
    let mut i: usize = 1;
    while i <= P
        invariant
            1 <= i <= 11,
            ys == y@,
            ys == autocorr_signal(*tables, x@),
            ys.len() == 256,
            norm == norm_l_value(autocorr_energy(*tables, x@)),
            0 <= norm <= 31,
            r_h@.len() == old(r_h)@.len(),
            r_l@.len() == old(r_l)@.len(),
            old(r_h)@.len() >= 11,
            old(r_l)@.len() >= 11,
            forall|k: int| 0 <= k < i ==> #[trigger] r_h@[k] == split_hi(autocorr_value(*tables, x@, k)),
            forall|k: int| 0 <= k < i ==> #[trigger] r_l@[k] == split_lo(autocorr_value(*tables, x@, k)),
            forall|k: int| 11 <= k < old(r_h)@.len() ==> #[trigger] r_h@[k] == old(r_h)@[k],
            forall|k: int| 11 <= k < old(r_l)@.len() ==> #[trigger] r_l@[k] == old(r_l)@[k],
        decreases 11 - i,
    {
        let ghost a = ys.take(256 - i);
        let ghost b = ys.subrange(i as int, 256);
        let mut s: Word32 = 0;
        let mut j: usize = 0;
        while j < L_WINDOW - i
            invariant
                1 <= i <= 10,
                j <= 256 - i,
                ys == y@,
                ys.len() == 256,
                a == ys.take(256 - i),
                b == ys.subrange(i as int, 256),
                s == mac_acc(0, a.take(j as int), b.take(j as int)),
            decreases 256 - i - j,
        {
            proof {
                lemma_mac_step(0, a, b, j as int);
            }
            s = l_mac0_pure(s, y[j], y[j + i]);
            j = j + 1;
        }
        proof {
            assert(a.take(256 - i) =~= a);
            assert(b.take(256 - i) =~= b);
        }
        s = l_shr_pure(s, 1);
        s = l_shl_pure(s, norm);
        let (h, l) = dpf_split(s);
        r_h[i] = h;
        r_l[i] = l;
        i = i + 1;
    }
}

/// The state of the Levinson-Durbin recursion after some order: the
/// predictor `A` as DPF pairs (high, low, both indexed `0..=10`), the
/// prediction-error power `alpha` as a normalised DPF pair with its
/// exponent, and whether the filter is still usable.
pub type LevinsonState = (Seq<int>, Seq<int>, int, int, int, bool);

/// Normalise `t0` by at most twelve places, halve it and split it: the new
/// `(alpha_hi, alpha_lo, alpha_exp)` when the exponent was `exp`.
pub open spec fn lev_normalised(t0: int, exp: int) -> (int, int, int) {
    let n = norm_l_value(t0);
    let sh = if n > 12 {
        12
    } else {
        n
    };
    let t = shift32(shift32(t0, sh), -1);
    (split_hi(t), split_lo(t), exp + sh - 1)
}

/// `alpha * (1 - k^2)` with `k` and `alpha` as DPF pairs.
pub open spec fn lev_alpha(alpha_hi: int, alpha_lo: int, kh: int, kl: int) -> int {
    let t = sat32(0x3fff_ffff - abs32(mul_dpf_value(kh, kl, kh, kl)));
    mul_dpf_value(alpha_hi, alpha_lo, split_hi(t), split_lo(t))
}

/// The recursion after order one: `k = -r[1] / r[0]`, `A = [1, k]`. A
/// denominator that is not normalised makes the filter unusable.
pub open spec fn lev_first(rh: Seq<Word16>, rl: Seq<Word16>) -> LevinsonState {
    if rh[0] < 0x3fff {
        (Seq::new(11, |j: int| 0), Seq::new(11, |j: int| 0), 0, 0, 0, false)
    } else {
        let t1 = rh[1] * 32768 + rl[1];
        let q = div_dpf_value(abs32(t1), rh[0] as int, rl[0] as int);
        let k = if t1 > 0 {
            sat32(-q)
        } else {
            q
        };
        let c = shift32(k, -4);
        let nrm = lev_normalised(lev_alpha(rh[0] as int, rl[0] as int, split_hi(k), split_lo(k)), 0);
        (
            Seq::new(11, |j: int| if j == 1 { split_hi(c) } else { 0 }),
            Seq::new(11, |j: int| if j == 1 { split_lo(c) } else { 0 }),
            nrm.0,
            nrm.1,
            nrm.2,
            true,
        )
    }
}

/// `sum(r[m] * A[i - m], m = 1..j-1)` in DPF products, each step saturated.
pub open spec fn reflection_sum(
    rh: Seq<Word16>,
    rl: Seq<Word16>,
    ah: Seq<int>,
    al: Seq<int>,
    i: int,
    j: int,
) -> int
    decreases j,
{
    if j <= 1 {
        0
    } else {
        sat32(
            reflection_sum(rh, rl, ah, al, i, j - 1) + mul_dpf_value(
                rh[j - 1] as int,
                rl[j - 1] as int,
                ah[i - (j - 1)],
                al[i - (j - 1)],
            ),
        )
    }
}

/// The reflection coefficient of order `i` (Q31, before the DPF split).
pub open spec fn lev_reflection(rh: Seq<Word16>, rl: Seq<Word16>, st: LevinsonState, i: int) -> int {
    let t0 = sat32(shift32(reflection_sum(rh, rl, st.0, st.1, i, i), 4) + (rh[i] * 32768 + rl[i]));
    let q = div_dpf_value(abs32(t0), st.2, st.3);
    shift32(
        if t0 > 0 {
            sat32(-q)
        } else {
            q
        },
        st.4,
    )
}

/// The order-`i` update of coefficient `j < i`: `A[j] + k * A[i - j]`.
pub open spec fn lev_term(st: LevinsonState, kh: int, kl: int, i: int, j: int) -> int {
    sat32(sat32(mul_dpf_value(kh, kl, st.0[i - j], st.1[i - j]) + st.0[j] * 32768) + st.1[j])
}

/// Whether the reflection coefficient's high part leaves the stable range.
pub open spec fn reflection_unstable(kh: int) -> bool {
    sat16(
        if kh < 0 {
            -kh
        } else {
            kh
        },
    ) > 32750
}

/// One order of the recursion. It stops (the state becomes unusable) when
/// `alpha` is no longer normalised or the reflection coefficient is
/// unstable.
pub open spec fn lev_step(rh: Seq<Word16>, rl: Seq<Word16>, st: LevinsonState, i: int) -> LevinsonState {
    if !st.5 {
        st
    } else if st.2 < 0x3fff {
        (st.0, st.1, st.2, st.3, st.4, false)
    } else {
        let t2 = lev_reflection(rh, rl, st, i);
        let kh = split_hi(t2);
        let kl = split_lo(t2);
        if reflection_unstable(kh) {
            (st.0, st.1, st.2, st.3, st.4, false)
        } else {
            let c = shift32(t2, -4);
            let nrm = lev_normalised(lev_alpha(st.2, st.3, kh, kl), st.4);
            (
                Seq::new(
                    11,
                    |j: int|
                        if 1 <= j < i {
                            split_hi(lev_term(st, kh, kl, i, j))
                        } else if j == i {
                            split_hi(c)
                        } else {
                            st.0[j]
                        },
                ),
                Seq::new(
                    11,
                    |j: int|
                        if 1 <= j < i {
                            split_lo(lev_term(st, kh, kl, i, j))
                        } else if j == i {
                            split_lo(c)
                        } else {
                            st.1[j]
                        },
                ),
                nrm.0,
                nrm.1,
                nrm.2,
                true,
            )
        }
    }
}

/// The recursion after order `i` (`1..=10`).
pub open spec fn lev_state(rh: Seq<Word16>, rl: Seq<Word16>, i: int) -> LevinsonState
    decreases i,
{
    if i <= 1 {
        lev_first(rh, rl)
    } else {
        lev_step(rh, rl, lev_state(rh, rl, i - 1), i)
    }
}

/// The Q12 coefficient rounded from the Q27 DPF pair `(h, l)`.
pub open spec fn lev_coefficient(h: int, l: int) -> int {
    (sat32(h * 32768 + l + 8192) / 16384) as i16 as int
}

/// Copy `old_a[0..=10]` into `a`: the fallback filter.
fn keep_previous_filter(a: &mut [Word16], old_a: &[Word16; 11])
    requires
        old(a)@.len() >= 11,
    ensures
        final(a)@.len() == old(a)@.len(),
        forall|j: int| 0 <= j < 11 ==> #[trigger] final(a)@[j] == old_a@[j],
        forall|j: int| 11 <= j < old(a)@.len() ==> #[trigger] final(a)@[j] == old(a)@[j],
{
    let mut k: usize = 0;
    while k <= P
        invariant
            k <= 11,
            a@.len() == old(a)@.len(),
            old(a)@.len() >= 11,
            forall|j: int| 0 <= j < k ==> #[trigger] a@[j] == old_a@[j],
            forall|j: int| 11 <= j < old(a)@.len() ==> #[trigger] a@[j] == old(a)@[j],
        decreases 11 - k,
    {
        a[k] = old_a[k];
        k = k + 1;
    }
}

/// Levinson-Durbin recursion in double precision: the LP coefficients
/// `a[0..=10]` (Q12) from the autocorrelations `r` (DPF). When the
/// recursion meets an unstable reflection coefficient, or a prediction
/// error that can no longer be normalised, the previous filter `old_a` is
/// used instead and kept; otherwise the new filter also replaces `old_a`.
#[verifier::rlimit(60)]
pub fn levinson_durbin(rh: &[Word16], rl: &[Word16], a: &mut [Word16], old_a: &mut [Word16; 11])
    requires
        rh@.len() >= 11,
        rl@.len() >= 11,
        old(a)@.len() >= 11,
    ensures
        final(a)@.len() == old(a)@.len(),
        forall|j: int| 11 <= j < old(a)@.len() ==> #[trigger] final(a)@[j] == old(a)@[j],
        lev_state(rh@, rl@, 10).5 ==> {
            &&& final(a)@[0] == 4096
            &&& final(old_a)@[0] == old(old_a)@[0]
            &&& forall|j: int|
                1 <= j <= 10 ==> #[trigger] final(a)@[j] == lev_coefficient(
                    lev_state(rh@, rl@, 10).0[j],
                    lev_state(rh@, rl@, 10).1[j],
                )
            &&& forall|j: int| 1 <= j <= 10 ==> #[trigger] final(old_a)@[j] == final(a)@[j]
        },
        !lev_state(rh@, rl@, 10).5 ==> {
            &&& final(old_a)@ == old(old_a)@
            &&& forall|j: int| 0 <= j <= 10 ==> #[trigger] final(a)@[j] == old(old_a)@[j]
        },
{
    proof {
        lemma2_to64();
        lemma_lev_stops(rh@, rl@, 1, 10);
    }
    let mut ah = [0i16; 11];
    let mut al = [0i16; 11];
    let mut anh = [0i16; 11];
    let mut anl = [0i16; 11];
    if rh[0] < 0x3fff {
        keep_previous_filter(a, old_a);
        return;
    }
    let t1 = dpf_compose(rh[1], rl[1]);
    let t2 = l_abs(t1);
    let mut t0 = div_dpf(t2, rh[0], rl[0]);
    if t1 > 0 {
        t0 = l_negate(t0);
    }
    let (kh0, kl0) = dpf_split(t0);
    t0 = l_shr_pure(t0, 4);
    let (h1, l1) = dpf_split(t0);
    ah[1] = h1;
    al[1] = l1;
    t0 = mul_dpf(kh0, kl0, kh0, kl0);
    t0 = l_abs(t0);
    t0 = l_sub_pure(0x3fff_ffff, t0);
    let (hi0, lo0) = dpf_split(t0);
    t0 = mul_dpf(rh[0], rl[0], hi0, lo0);
    let (t0n, exp0) = normalize_capped(t0, 12);
    let t0n = l_shr_pure(t0n, 1);
    let (ahi, alo) = dpf_split(t0n);
    let mut alpha_hi = ahi;
    let mut alpha_lo = alo;
    let mut alpha_exp: Word16 = exp0 - 1;
    proof {
        let st = lev_state(rh@, rl@, 1);
        assert(st == lev_first(rh@, rl@));
        assert(ah@ =~= st.0.map_values(|v: int| v as i16));
        assert forall|j: int| 0 <= j < 11 implies #[trigger] ah@[j] as int == st.0[j] && al@[j] as int
            == st.1[j] by {}
    }
    let mut i: usize = 2;
    while i <= P
        invariant
            2 <= i <= 11,
            rh@.len() >= 11,
            rl@.len() >= 11,
            a@ == old(a)@,
            old_a@ == old(old_a)@,
            old(a)@.len() >= 11,
            lev_state(rh@, rl@, i - 1).5,
            forall|j: int| 0 <= j < 11 ==> #[trigger] ah@[j] as int == lev_state(rh@, rl@, i - 1).0[j],
            forall|j: int| 0 <= j < 11 ==> #[trigger] al@[j] as int == lev_state(rh@, rl@, i - 1).1[j],
            alpha_hi as int == lev_state(rh@, rl@, i - 1).2,
            alpha_lo as int == lev_state(rh@, rl@, i - 1).3,
            alpha_exp as int == lev_state(rh@, rl@, i - 1).4,
            -(i as int) <= alpha_exp <= 12 * i,
        decreases 11 - i,
    {
        let ghost st = lev_state(rh@, rl@, i - 1);
        if alpha_hi < 0x3fff {
            proof {
                assert(!lev_state(rh@, rl@, i as int).5);
                lemma_lev_stops(rh@, rl@, i as int, 10);
            }
            keep_previous_filter(a, old_a);
            return;
        }
        let mut t0: Word32 = 0;
        let mut j: usize = 1;
        while j < i
            invariant
                1 <= j <= i <= 10,
                rh@.len() >= 11,
                rl@.len() >= 11,
                forall|q: int| 0 <= q < 11 ==> #[trigger] ah@[q] as int == st.0[q],
                forall|q: int| 0 <= q < 11 ==> #[trigger] al@[q] as int == st.1[q],
                t0 == reflection_sum(rh@, rl@, st.0, st.1, i as int, j as int),
            decreases i - j,
        {
            t0 = l_add_pure(t0, mul_dpf(rh[j], rl[j], ah[i - j], al[i - j]));
            j = j + 1;
        }
        t0 = l_shl_pure(t0, 4);
        let t1 = dpf_compose(rh[i], rl[i]);
        t0 = l_add_pure(t0, t1);
        let t1 = l_abs(t0);
        let mut t2 = div_dpf(t1, alpha_hi, alpha_lo);
        if t0 > 0 {
            t2 = l_negate(t2);
        }
        t2 = l_shl_pure(t2, alpha_exp);
        proof {
            assert(t2 == lev_reflection(rh@, rl@, st, i as int));
        }
        let (kh, kl) = dpf_split(t2);
        if abs_s(kh) > 32750 {
            proof {
                assert(!lev_state(rh@, rl@, i as int).5);
                lemma_lev_stops(rh@, rl@, i as int, 10);
            }
            keep_previous_filter(a, old_a);
            return;
        }
        let mut j: usize = 1;
        while j < i
            invariant
                1 <= j <= i <= 10,
                forall|q: int| 0 <= q < 11 ==> #[trigger] ah@[q] as int == st.0[q],
                forall|q: int| 0 <= q < 11 ==> #[trigger] al@[q] as int == st.1[q],
                forall|q: int|
                    1 <= q < j ==> #[trigger] anh@[q] as int == split_hi(
                        lev_term(st, kh as int, kl as int, i as int, q),
                    ),
                forall|q: int|
                    1 <= q < j ==> #[trigger] anl@[q] as int == split_lo(
                        lev_term(st, kh as int, kl as int, i as int, q),
                    ),
            decreases i - j,
        {
            proof {
                lemma2_to64();
            }
            let mut u = mul_dpf(kh, kl, ah[i - j], al[i - j]);
            u = add_shifted(u, ah[j], 15);
            proof {
                assert(ah@[j as int] * pow2(15) == st.0[j as int] * 32768);
            }
            u = add_shifted(u, al[j], 0);
            proof {
                assert(al@[j as int] * pow2(0) == st.1[j as int]);
                assert(u == lev_term(st, kh as int, kl as int, i as int, j as int));
            }
            let (h, l) = dpf_split(u);
            anh[j] = h;
            anl[j] = l;
            j = j + 1;
        }
        t2 = l_shr_pure(t2, 4);
        let (h, l) = dpf_split(t2);
        anh[i] = h;
        anl[i] = l;
        let mut u = mul_dpf(kh, kl, kh, kl);
        u = l_abs(u);
        u = l_sub_pure(0x3fff_ffff, u);
        let (hi, lo) = dpf_split(u);
        u = mul_dpf(alpha_hi, alpha_lo, hi, lo);
        let (un, exp) = normalize_capped(u, 12);
        let un = l_shr_pure(un, 1);
        let (nh, nl) = dpf_split(un);
        alpha_hi = nh;
        alpha_lo = nl;
        alpha_exp = alpha_exp + exp - 1;
        let mut j: usize = 1;
        while j <= i
            invariant
                1 <= j <= i + 1,
                i <= 10,
                forall|q: int| 1 <= q < j ==> #[trigger] ah@[q] == anh@[q],
                forall|q: int| 1 <= q < j ==> #[trigger] al@[q] == anl@[q],
                forall|q: int| (q == 0 || j <= q < 11) ==> #[trigger] ah@[q] as int == st.0[q],
                forall|q: int| (q == 0 || j <= q < 11) ==> #[trigger] al@[q] as int == st.1[q],
            decreases i + 1 - j,
        {
            ah[j] = anh[j];
            al[j] = anl[j];
            j = j + 1;
        }
        proof {
            let nx = lev_state(rh@, rl@, i as int);
            assert(nx == lev_step(rh@, rl@, st, i as int));
            assert(nx.5);
            assert forall|q: int| 0 <= q < 11 implies #[trigger] ah@[q] as int == nx.0[q] by {
                if 1 <= q <= i {
                    assert(ah@[q] == anh@[q]);
                }
            }
            assert forall|q: int| 0 <= q < 11 implies #[trigger] al@[q] as int == nx.1[q] by {
                if 1 <= q <= i {
                    assert(al@[q] == anl@[q]);
                }
            }
        }
        i = i + 1;
    }
    let ghost fin = lev_state(rh@, rl@, 10);
    a[0] = 4096;
    let mut i: usize = 1;
    while i <= P
        invariant
            1 <= i <= 11,
            fin == lev_state(rh@, rl@, 10),
            a@.len() == old(a)@.len(),
            old(a)@.len() >= 11,
            a@[0] == 4096,
            old_a@[0] == old(old_a)@[0],
            forall|j: int| 0 <= j < 11 ==> #[trigger] ah@[j] as int == fin.0[j],
            forall|j: int| 0 <= j < 11 ==> #[trigger] al@[j] as int == fin.1[j],
            forall|j: int| 1 <= j < i ==> #[trigger] a@[j] == lev_coefficient(fin.0[j], fin.1[j]),
            forall|j: int| 1 <= j < i ==> #[trigger] old_a@[j] == a@[j],
            forall|j: int| 11 <= j < old(a)@.len() ==> #[trigger] a@[j] == old(a)@[j],
        decreases 11 - i,
    {
        proof {
            lemma2_to64();
        }
        let mut t0 = dpf_compose(ah[i], al[i]);
        t0 = add_shifted(t0, 1, 13);
        let v = store_high(t0, 2);
        old_a[i] = v;
        a[i] = v;
        i = i + 1;
    }
}

/// Once the recursion has become unusable it stays so.
proof fn lemma_lev_stops(rh: Seq<Word16>, rl: Seq<Word16>, i: int, k: int)
    requires
        1 <= i <= k,
    ensures
        !lev_state(rh, rl, i).5 ==> !lev_state(rh, rl, k).5,
    decreases k - i,
{
    if i < k {
        lemma_lev_stops(rh, rl, i, k - 1);
    }
}

/// Coefficient `k` (`0..=5`) of the symmetric polynomial `F1` (`first`)
/// or the antisymmetric polynomial `F2` of the LP filter `a`, in Q11:
/// `f[k+1] = a[k+1] +/- a[10-k] - f[k]` (`+ f[k]` for `F2`).
pub open spec fn lsp_f(a: Seq<Word16>, first: bool, k: int) -> int
    decreases k,
{
    if k <= 0 {
        2048
    } else {
        let i = k - 1;
        let prev = lsp_f(a, first, k - 1);
        if first {
            sat32(sat32(a[i + 1] * 32768 + a[10 - i] * 32768) + sat32(-65536 * prev)) / 65536
        } else {
            sat32(sat32(a[i + 1] * 32768 - a[10 - i] * 32768) - sat32(-65536 * prev)) / 65536
        }
    }
}

/// The six coefficients of `F1` or `F2` as 16-bit words.
pub open spec fn lsp_poly_coeffs(a: Seq<Word16>, first: bool) -> Seq<Word16> {
    Seq::new(6, |k: int| lsp_f(a, first, k) as i16)
}

/// `C(x)` of `F1` or `F2`.
pub open spec fn lsp_cheby(a: Seq<Word16>, x: int, first: bool) -> int {
    cheby_value(x, lsp_poly_coeffs(a, first), 5)
}

/// `k` bisections of the sign-change interval `[xlow, xhigh]`.
pub open spec fn bisect(
    a: Seq<Word16>,
    first: bool,
    xlow: int,
    ylow: int,
    xhigh: int,
    yhigh: int,
    k: nat,
) -> (int, int, int, int)
    decreases k,
{
    if k == 0 {
        (xlow, ylow, xhigh, yhigh)
    } else {
        let b = bisect(a, first, xlow, ylow, xhigh, yhigh, (k - 1) as nat);
        let xmid = sat32(b.0 * 32768 + b.2 * 32768) / 65536;
        let ymid = lsp_cheby(a, xmid, first);
        if b.1 * ymid <= 0 {
            (b.0, b.1, xmid, ymid)
        } else {
            (xmid, ymid, b.2, b.3)
        }
    }
}

/// The shift [`norm_s`] returns, as a function.
pub open spec fn norm_s_value(v: int) -> int {
    if v == 0 {
        0
    } else if v == -1 {
        15
    } else {
        choose|r: int|
            0 <= r <= 14 && 0x4000 <= norm_magnitude(v) * #[trigger] pow2(r as nat) < 0x8000
    }
}

/// The root of the secant between `(xlow, ylow)` and `(xhigh, yhigh)`.
pub open spec fn root_estimate(xlow: int, ylow: int, xhigh: int, yhigh: int) -> int {
    let x = sat16(xhigh - xlow);
    let y = sat16(yhigh - ylow);
    if y == 0 {
        xlow
    } else {
        let ay = sat16(
            if y < 0 {
                -y
            } else {
                y
            },
        );
        let e = norm_s_value(ay);
        let q = div_s_value(16383, ay * pow2(e as nat));
        let t = shift32(x * q, -(19 - e)) as i16 as int;
        let step = if y < 0 {
            sat16(-t)
        } else {
            t
        };
        (sat32(xlow * 1024 - ylow * step) / 1024) as i16 as int
    }
}

/// The state of the LSP root search: roots found, whether `F1` is being
/// searched, the current low end and its value, the grid index, and the
/// roots so far.
pub type LspSearch = (int, bool, int, int, int, Seq<Word16>);

/// One grid step of the root search.
pub open spec fn search_step(a: Seq<Word16>, grid: Seq<Word16>, st: LspSearch) -> LspSearch {
    let j1 = st.4 + 1;
    let xlow = grid[j1] as int;
    let ylow = lsp_cheby(a, xlow, st.1);
    if ylow * st.3 <= 0 {
        let b = bisect(a, st.1, xlow, ylow, st.2, st.3, 4);
        let xint = root_estimate(b.0, b.1, b.2, b.3);
        let nu = !st.1;
        (st.0 + 1, nu, xint, lsp_cheby(a, xint, nu), j1, st.5.push(xint as i16))
    } else {
        (st.0, st.1, xlow, ylow, j1, st.5)
    }
}

/// The root search after `k` grid steps (it stops at ten roots or at the
/// end of the grid).
pub open spec fn search_state(a: Seq<Word16>, grid: Seq<Word16>, k: nat) -> LspSearch
    decreases k,
{
    if k == 0 {
        (0, true, grid[0] as int, lsp_cheby(a, grid[0] as int, true), 0, Seq::empty())
    } else {
        let st = search_state(a, grid, (k - 1) as nat);
        if st.0 < 10 && st.4 < 60 {
            search_step(a, grid, st)
        } else {
            st
        }
    }
}

/// A stopped search stays where it is.
proof fn lemma_search_stops(a: Seq<Word16>, grid: Seq<Word16>, k: nat, m: nat)
    requires
        k <= m,
        !(search_state(a, grid, k).0 < 10 && search_state(a, grid, k).4 < 60),
    ensures
        search_state(a, grid, m) == search_state(a, grid, k),
    decreases m - k,
{
    if k < m {
        lemma_search_stops(a, grid, k, (m - 1) as nat);
    }
}

/// [`norm_s`] returns [`norm_s_value`].
proof fn lemma_norm_s_value(v: Word16, r: Word16)
    requires
        v > 0,
        0 <= r <= 14,
        0x4000 <= norm_magnitude(v as int) * pow2(r as nat) < 0x8000,
    ensures
        norm_s_value(v as int) == r,
{
    lemma2_to64();
    let m = norm_magnitude(v as int);
    let c = choose|c: int| 0 <= c <= 14 && 0x4000 <= m * #[trigger] pow2(c as nat) < 0x8000;
    lemma_normalising_shift_unique(m, c, r as int, 14);
}

/// Locate the root inside a bracket by interpolating between its ends.
fn root_between(xlow: Word16, ylow: Word16, xhigh: Word16, yhigh: Word16) -> (r: Word16)
    ensures
        r == root_estimate(xlow as int, ylow as int, xhigh as int, yhigh as int),
{
    proof {
        lemma2_to64();
    }
    let x = crate::fixed::ops::sub_pure(xhigh, xlow);
    let y = crate::fixed::ops::sub_pure(yhigh, ylow);
    if y == 0 {
        xlow
    } else {
        let sign = y;
        let mut yy = abs_s(y);
        let exp = norm_s(yy);
        proof {
            lemma_norm_s_value(yy, exp);
        }
        yy = shl_pure(yy, exp);
        let q = div_s_pure(16383, yy);
        let mut t0 = l_mult0(x, q);
        t0 = l_shr_pure(t0, crate::fixed::ops::sub_pure(19, exp));
        let mut step = extract_l(t0);
        if sign < 0 {
            step = negate(step);
        }
        let mut t0 = load_shifted(xlow, 10);
        t0 = l_msu0_pure(t0, ylow, step);
        store_high(t0, 6)
    }
}

/// The coefficients of `F1` (`first`) or `F2` of the LP filter `a`.
fn lsp_polys(a: &[Word16], f1: &mut [Word16; 6], f2: &mut [Word16; 6])
    requires
        a@.len() >= 11,
    ensures
        final(f1)@ == lsp_poly_coeffs(a@, true),
        final(f2)@ == lsp_poly_coeffs(a@, false),
{
    proof {
        lemma2_to64();
    }
    f1[0] = 2048;
    f2[0] = 2048;
    let mut i: usize = 0;
    while i < NC
        invariant
            i <= 5,
            a@.len() >= 11,
            forall|k: int| 0 <= k <= i ==> #[trigger] f1@[k] as int == lsp_f(a@, true, k),
            forall|k: int| 0 <= k <= i ==> #[trigger] f2@[k] as int == lsp_f(a@, false, k),
        decreases 5 - i,
    {
        proof {
            lemma2_to64();
        }
        let mut t0 = load_shifted(a[i + 1], 15);
        t0 = add_shifted(t0, a[P - i], 15);
        t0 = sub_high16(t0, f1[i]);
        f1[i + 1] = extract_h(t0);
        let mut t0 = load_shifted(a[i + 1], 15);
        t0 = sub_shifted(t0, a[P - i], 15);
        t0 = add_high16(t0, f2[i]);
        f2[i + 1] = extract_h(t0);
        i = i + 1;
    }
    proof {
        assert(f1@ =~= lsp_poly_coeffs(a@, true));
        assert(f2@ =~= lsp_poly_coeffs(a@, false));
    }
}

/// The LSPs found by the root search, or `old_lsp` when fewer than ten
/// roots were found.
pub open spec fn lsp_from_lp(
    tables: CodecTables,
    a: Seq<Word16>,
    old_lsp: Seq<Word16>,
) -> Seq<Word16> {
    let st = search_state(a, tables.grid@, 60);
    if st.0 == 10 {
        st.5
    } else {
        old_lsp.take(10)
    }
}

/// Convert LP coefficients to LSPs in the cosine domain (Q15): the roots of
/// `F1` and `F2`, alternately, located on the grid, refined by four
/// bisections and a secant step. `old_lsp` is used unchanged if fewer than
/// ten roots are found.
#[verifier::rlimit(100)]
#[verifier::spinoff_prover]
pub fn lp_to_lsp(tables: &CodecTables, a: &[Word16], lsp: &mut [Word16], old_lsp: &[Word16])
    requires
        a@.len() >= 11,
        old(lsp)@.len() >= 10,
        old_lsp@.len() >= 10,
    ensures
        final(lsp)@.len() == old(lsp)@.len(),
        forall|i: int|
            0 <= i < 10 ==> #[trigger] final(lsp)@[i] == lsp_from_lp(*tables, a@, old_lsp@)[i],
        forall|i: int| 10 <= i < old(lsp)@.len() ==> #[trigger] final(lsp)@[i] == old(lsp)@[i],
{
    let mut f1 = [0i16; 6];
    let mut f2 = [0i16; 6];
    lsp_polys(a, &mut f1, &mut f2);
    let ghost grid = tables.grid@;
    let mut nf: usize = 0;
    let mut use_f1 = true;
    let mut xlow = tables.grid[0];
    let mut ylow = cheby_eval(xlow, &f1, NC);
    let mut j: usize = 0;
    while nf < P && j < GRID_POINTS
        invariant
            nf <= 10,
            j <= 60,
            nf <= j,
            a@.len() >= 11,
            lsp@.len() == old(lsp)@.len(),
            old(lsp)@.len() >= 10,
            grid == tables.grid@,
            f1@ == lsp_poly_coeffs(a@, true),
            f2@ == lsp_poly_coeffs(a@, false),
            ({
                let st = search_state(a@, grid, j as nat);
                &&& st.0 == nf
                &&& st.1 == use_f1
                &&& st.2 == xlow
                &&& st.3 == ylow
                &&& st.4 == j
                &&& st.5 == lsp@.take(nf as int)
            }),
            forall|i: int| 10 <= i < old(lsp)@.len() ==> #[trigger] lsp@[i] == old(lsp)@[i],
        decreases 60 - j,
    {
        let ghost st = search_state(a@, grid, j as nat);
        j = j + 1;
        let mut xhigh = xlow;
        let mut yhigh = ylow;
        xlow = tables.grid[j];
        ylow = if use_f1 {
            cheby_eval(xlow, &f1, NC)
        } else {
            cheby_eval(xlow, &f2, NC)
        };
        if l_mult0(ylow, yhigh) <= 0 {
            let mut t: usize = 0;
            while t < 4
                invariant
                    t <= 4,
                    f1@ == lsp_poly_coeffs(a@, true),
                    f2@ == lsp_poly_coeffs(a@, false),
                    (xlow as int, ylow as int, xhigh as int, yhigh as int) == bisect(
                        a@,
                        st.1,
                        grid[j as int] as int,
                        lsp_cheby(a@, grid[j as int] as int, st.1),
                        st.2,
                        st.3,
                        t as nat,
                    ),
                    use_f1 == st.1,
                decreases 4 - t,
            {
                proof {
                    lemma2_to64();
                }
                let mut t0 = load_shifted(xlow, 15);
                t0 = add_shifted(t0, xhigh, 15);
                let xmid = extract_h(t0);
                let ymid = if use_f1 {
                    cheby_eval(xmid, &f1, NC)
                } else {
                    cheby_eval(xmid, &f2, NC)
                };
                if l_mult0(ylow, ymid) <= 0 {
                    yhigh = ymid;
                    xhigh = xmid;
                } else {
                    ylow = ymid;
                    xlow = xmid;
                }
                t = t + 1;
            }
            let xint = root_between(xlow, ylow, xhigh, yhigh);
            lsp[nf] = xint;
            xlow = xint;
            nf = nf + 1;
            use_f1 = !use_f1;
            ylow = if use_f1 {
                cheby_eval(xlow, &f1, NC)
            } else {
                cheby_eval(xlow, &f2, NC)
            };
            proof {
                assert(lsp@.take(nf as int) =~= st.5.push(xint));
            }
        }
    }
    proof {
        lemma_search_stops(a@, grid, j as nat, 60);
    }
    if nf < P {
        let mut k: usize = 0;
        while k < P
            invariant
                k <= 10,
                lsp@.len() == old(lsp)@.len(),
                old(lsp)@.len() >= 10,
                old_lsp@.len() >= 10,
                forall|i: int| 0 <= i < k ==> #[trigger] lsp@[i] == old_lsp@[i],
                forall|i: int| 10 <= i < old(lsp)@.len() ==> #[trigger] lsp@[i] == old(lsp)@[i],
            decreases 10 - k,
        {
            lsp[k] = old_lsp[k];
            k = k + 1;
        }
    }
}

/// Long-term prediction with a lag of at least 17 overwrites
/// `buf[eb..eb + 60]` from samples before the position being written: its
/// result does not depend on what that range held before.
pub proof fn lemma_ltp_overwrites(
    tables: CodecTables,
    a: Seq<Word16>,
    b: Seq<Word16>,
    eb: int,
    t0: int,
    frac: int,
    k: nat,
)
    requires
        a.len() == b.len(),
        k <= 60,
        t0 >= 17,
        eb >= t0,
        frac == 1 ==> eb >= t0 + 16,
        frac == -1 ==> eb >= t0 + 15,
        eb + 60 <= a.len(),
        forall|q: int| 0 <= q < a.len() && !(eb <= q < eb + 60) ==> #[trigger] a[q] == b[q],
    ensures
        ltp_buffer(tables, a, eb, t0, frac, k).len() == a.len(),
        ltp_buffer(tables, b, eb, t0, frac, k).len() == a.len(),
        forall|q: int|
            0 <= q < a.len() && !(eb + k <= q < eb + 60) ==> #[trigger] ltp_buffer(tables, a, eb, t0, frac, k)[q]
                == ltp_buffer(tables, b, eb, t0, frac, k)[q],
    decreases k,
{
    if k > 0 {
        lemma_ltp_overwrites(tables, a, b, eb, t0, frac, (k - 1) as nat);
        let pa = ltp_buffer(tables, a, eb, t0, frac, (k - 1) as nat);
        let pb = ltp_buffer(tables, b, eb, t0, frac, (k - 1) as nat);
        let c = eb + k - 1 - t0;
        if frac == 1 {
            assert(pa.subrange(c - 16, c + 16) =~= pb.subrange(c - 16, c + 16)) by {
                assert forall|q: int| 0 <= q < 32 implies #[trigger] pa.subrange(c - 16, c + 16)[q]
                    == pb.subrange(c - 16, c + 16)[q] by {
                    assert(pa[c - 16 + q] == pb[c - 16 + q]);
                }
            }
        } else if frac == -1 {
            assert(pa.subrange(c - 15, c + 17) =~= pb.subrange(c - 15, c + 17)) by {
                assert forall|q: int| 0 <= q < 32 implies #[trigger] pa.subrange(c - 15, c + 17)[q]
                    == pb.subrange(c - 15, c + 17)[q] by {
                    assert(pa[c - 15 + q] == pb[c - 15 + q]);
                }
            }
        } else {
            assert(pa[c] == pb[c]);
        }
        assert(ltp_value(tables, pa, c, frac) == ltp_value(tables, pb, c, frac));
    }
}

} // verus!
