//! The algebraic codebook search of the encoder (EN 300 395-2 clause
//! 4.3.6): the correlation matrix of the combined impulse response, the
//! two pruning thresholds, and the depth-first search over the four
//! interleaved pulse tracks with its time budget.

use crate::accumulate::{lemma_mac_step, mac_acc};
use crate::fixed::dsp_ops::{lemma_norm_l_value, norm_l_value};
use crate::fixed::dsp_ops::{
    add_shifted, load_high16, load_shifted, store_high, sub_high16, sub_shifted,
};
use crate::fixed::ops::{
    abs_s, extract_h, l_abs, l_mac_pure, l_mac0_pure, l_msu_pure, l_msu0_pure, l_mult_pure, l_mult0, mult_pure, norm_l, sat16,
    sat32, shift16, shl_pure, shr_pure,
};
use crate::fixed::{Word16, Word32};
use vstd::arithmetic::power2::{lemma2_to64, pow2};
use vstd::prelude::*;

verus! {

/// The energy of the combined response `h[64..124]`.
pub open spec fn response_energy(h: Seq<Word16>) -> int {
    mac_acc(0, h.subrange(64, 124), h.subrange(64, 124))
}

/// The left shift that scales the response for 16-bit correlations:
/// half of one less than the energy's normalisation shift.
pub open spec fn response_shift(h: Seq<Word16>) -> int {
    shift16(sat16(norm_l_value(response_energy(h)) - 1), -1)
}

/// The scaled response.
pub open spec fn scaled_response(h: Seq<Word16>) -> Seq<Word16> {
    Seq::new(60, |i: int| shift16(h[64 + i] as int, response_shift(h)) as i16)
}

/// `l_mac`: `s + 2 a b`, the product and the sum each saturated.
pub open spec fn lmac(s: int, a: int, b: int) -> int {
    sat32(s + sat32(2 * a * b))
}

/// The correlation of the scaled response with itself shifted by `2 d`
/// samples, accumulated over the pairs `0..=t` from the end of the pulse
/// grid.
pub open spec fn phi_acc(hs: Seq<Word16>, d: int, t: int) -> int
    decreases t + 1,
{
    if t < 0 {
        0
    } else {
        lmac(
            lmac(phi_acc(hs, d, t - 1), hs[2 * t] as int, hs[2 * d + 2 * t] as int),
            hs[2 * t + 1] as int,
            hs[2 * d + 2 * t + 1] as int,
        )
    }
}

/// Entry `(r, c)` of the correlation matrix of the pulse positions (rows
/// and columns 30 and 31 are zero).
pub open spec fn phi_entry(hs: Seq<Word16>, r: int, c: int) -> Word16 {
    if 0 <= r < 30 && 0 <= c < 30 {
        let m = if r > c {
            r
        } else {
            c
        };
        let d = if r > c {
            r - c
        } else {
            c - r
        };
        (phi_acc(hs, d, 29 - m) / 65536) as i16
    } else {
        0i16
    }
}

/// The correlation matrix, row by row with stride 32.
pub open spec fn phi_matrix(h: Seq<Word16>) -> Seq<Word16> {
    Seq::new(1024, |idx: int| phi_entry(scaled_response(h), idx / 32, idx % 32))
}

proof fn lemma_index(r: int, c: int)
    requires
        0 <= r,
        0 <= c < 32,
    ensures
        (r * 32 + c) / 32 == r,
        (r * 32 + c) % 32 == c,
{
    vstd::arithmetic::div_mod::lemma_fundamental_div_mod_converse(r * 32 + c, 32, r, c);
}

/// Position `idx` of the matrix holds the entry of a pair whose shift is
/// below `dd`, or equal to it with the pair index below `tt`.
pub open spec fn phi_written(idx: int, dd: int, tt: int) -> bool {
    let r = idx / 32;
    let c = idx % 32;
    let m = if r > c {
        r
    } else {
        c
    };
    let d = if r > c {
        r - c
    } else {
        c - r
    };
    r < 30 && c < 30 && (d < dd || (d == dd && 29 - m < tt))
}

/// Scale the response `h[64..124]` (see [`scaled_response`]).
fn scale_response(h: &[Word16]) -> (hs: [Word16; 60])
    requires
        h@.len() >= 124,
    ensures
        hs@ == scaled_response(h@),
        -1 <= response_shift(h@) <= 15,
{
    let ghost xs = h@.subrange(64, 124);
    let mut s: Word32 = 0;
    let mut i: usize = 0;
    while i < 60
        invariant
            i <= 60,
            h@.len() >= 124,
            xs == h@.subrange(64, 124),
            s == mac_acc(0, xs.take(i as int), xs.take(i as int)),
        decreases 60 - i,
    {
        proof {
            lemma_mac_step(0, xs, xs, i as int);
        }
        s = l_mac0_pure(s, h[64 + i], h[64 + i]);
        i = i + 1;
    }
    assert(xs.take(60) =~= xs);
    let n = norm_l(s);
    proof {
        lemma_norm_l_value(s, n);
    }
    proof {
        lemma2_to64();
    }
    let m = crate::fixed::ops::sub_pure(n, 1);
    assert(-1 <= m <= 30);
    let k = shr_pure(m, 1);
    assert(pow2(1) == 2);
    assert(k == m / 2);
    assert(-1 <= k <= 15);
    let mut hs = [0i16; 60];
    let mut i: usize = 0;
    while i < 60
        invariant
            i <= 60,
            h@.len() >= 124,
            -1 <= k <= 15,
            k == response_shift(h@),
            forall|q: int| 0 <= q < i ==> #[trigger] hs@[q] == scaled_response(h@)[q],
        decreases 60 - i,
    {
        hs[i] = shl_pure(h[64 + i], k);
        i = i + 1;
    }
    assert(hs@ =~= scaled_response(h@));
    hs
}

/// The correlation matrix of the combined response `h[64..124]` (see
/// [`phi_matrix`]).
#[verifier::spinoff_prover]
#[verifier::rlimit(60)]
pub fn correlation_matrix(h: &[Word16]) -> (phi: [Word16; 1024])
    requires
        h@.len() >= 124,
    ensures
        phi@ == phi_matrix(h@),
{
    let hs = scale_response(h);
    let ghost hv = hs@;
    let mut phi = [0i16; 1024];
    let mut d: usize = 0;
    while d < 30
        invariant
            d <= 30,
            hv == hs@,
            hv == scaled_response(h@),
            forall|idx: int|
                0 <= idx < 1024 ==> #[trigger] phi@[idx] == if phi_written(idx, d as int, 0) {
                    phi_entry(hv, idx / 32, idx % 32)
                } else {
                    0i16
                },
        decreases 30 - d,
    {
        let mut s: Word32 = 0;
        let mut t: usize = 0;
        while t < 30 - d
            invariant
                d < 30,
                t <= 30 - d,
                hv == hs@,
                s == phi_acc(hv, d as int, t - 1),
                forall|idx: int|
                    0 <= idx < 1024 ==> #[trigger] phi@[idx] == if phi_written(
                        idx,
                        d as int,
                        t as int,
                    ) {
                        phi_entry(hv, idx / 32, idx % 32)
                    } else {
                        0i16
                    },
            decreases 30 - d - t,
        {
            s = l_mac_pure(s, hs[2 * t], hs[2 * d + 2 * t]);
            s = l_mac_pure(s, hs[2 * t + 1], hs[2 * d + 2 * t + 1]);
            let v = extract_h(s);
            let i1 = 957 - d - 33 * t;
            let i2 = 957 - 32 * d - 33 * t;
            proof {
                let r = 29 - t;
                let c = 29 - t - d;
                lemma_index(r as int, c as int);
                lemma_index(c as int, r as int);
                assert(i1 == r * 32 + c);
                assert(i2 == c * 32 + r);
                assert(v == phi_entry(hv, r as int, c as int));
                assert(v == phi_entry(hv, c as int, r as int));
            }
            let ghost before = phi@;
            phi[i1] = v;
            phi[i2] = v;
            proof {
                assert forall|idx: int| 0 <= idx < 1024 implies #[trigger] phi@[idx] == if phi_written(
                    idx,
                    d as int,
                    t + 1,
                ) {
                    phi_entry(hv, idx / 32, idx % 32)
                } else {
                    0i16
                } by {
                    let r = idx / 32;
                    let c = idx % 32;
                    lemma_index(r, c);
                    if idx != i1 && idx != i2 {
                        assert(phi@[idx] == before[idx]);
                        if phi_written(idx, d as int, t + 1) && !phi_written(idx, d as int, t as int) {
                            // The pair (d, t) is exactly the two written positions.
                            let m = if r > c {
                                r
                            } else {
                                c
                            };
                            assert(29 - m == t);
                            if r > c {
                                assert(idx == (29 - t) * 32 + (29 - t - d));
                            } else {
                                assert(idx == (29 - t - d) * 32 + (29 - t));
                            }
                        }
                    }
                }
            }
            t = t + 1;
        }
        proof {
            assert forall|idx: int| 0 <= idx < 1024 implies #[trigger] phi_written(idx, d as int, (30 - d) as int)
                == phi_written(idx, d + 1, 0) by {}
        }
        d = d + 1;
    }
    proof {
        assert forall|idx: int| 0 <= idx < 1024 implies #[trigger] phi@[idx] == phi_matrix(h@)[idx] by {
            let r = idx / 32;
            let c = idx % 32;
            if !phi_written(idx, 30, 0) {
                assert(!(r < 30 && c < 30));
            }
        }
    }
    assert(phi@ =~= phi_matrix(h@));
    phi
}

/// `dn[i] + dn[i + 1]`, saturated.
pub open spec fn pair_sum(dn: Seq<Word16>, i: int) -> int {
    sat16(dn[i] + dn[i + 1])
}

/// The running (largest, smallest) pair sum, both starting at zero; a new
/// sum only lowers the smallest when it does not raise the largest.
pub open spec fn extrema_step(e: (int, int), j: int) -> (int, int) {
    if sat16(j - e.0) > 0 {
        (j, e.1)
    } else if sat16(j - e.1) < 0 {
        (e.0, j)
    } else {
        e
    }
}

/// The extrema of the pair sums at `start, start + step, ...` below `i`.
pub open spec fn extrema_scan(dn: Seq<Word16>, start: int, step: int, i: int) -> (int, int)
    decreases i - start,
{
    if step <= 0 || i < start + step {
        (0, 0)
    } else {
        extrema_step(extrema_scan(dn, start, step, i - step), pair_sum(dn, i - step))
    }
}

/// The extrema of a track's pair sums, halved.
pub open spec fn track_extrema_value(dn: Seq<Word16>, start: int, step: int, end: int) -> (int, int) {
    let e = extrema_scan(dn, start, step, end);
    (shift16(e.0, -1), shift16(e.1, -1))
}

/// Larger and smaller of the pulse-pair sums `dn[i] + dn[i + 1]` for
/// `i = start, start + step, ... < 60`, starting from zero and halved.
fn track_extrema(dn: &[Word16], start: usize, step: usize) -> (r: (Word16, Word16))
    requires
        dn@.len() >= 64,
        step == 2 || step == 8,
        start < 60,
        start % 2 == 0,
    ensures
        start == 0 && step == 2 ==> (r.0 as int, r.1 as int) == track_extrema_value(dn@, 0, 2, 60),
        start == 2 && step == 8 ==> (r.0 as int, r.1 as int) == track_extrema_value(dn@, 2, 8, 66),
        start == 4 && step == 8 ==> (r.0 as int, r.1 as int) == track_extrema_value(dn@, 4, 8, 60),
{
    let mut mn: Word16 = 0;
    let mut mx: Word16 = 0;
    let mut i: usize = start;
    while i < 60
        invariant
            start <= i < 60 + step,
            dn@.len() >= 64,
            step == 2 || step == 8,
            step == 2 ==> (i - start) % 2 == 0,
            step == 8 ==> (i - start) % 8 == 0,
            (mx as int, mn as int) == extrema_scan(dn@, start as int, step as int, i as int),
        decreases 60 + step - i,
    {
        let j = crate::fixed::ops::add_pure(dn[i], dn[i + 1]);
        if crate::fixed::ops::sub_pure(j, mx) > 0 {
            mx = j;
        } else if crate::fixed::ops::sub_pure(j, mn) < 0 {
            mn = j;
        }
        i = i + step;
    }
    proof {
        lemma2_to64();
    }
    (shr_pure(mx, 1), shr_pure(mn, 1))
}

/// `l / 2^11`, truncated to 16 bits: `store_high(l, 5)`.
pub open spec fn high5(l: int) -> int {
    (l / 2048) as i16 as int
}

/// The two pruning thresholds of the search from the track extrema.
pub open spec fn thresholds(dn: Seq<Word16>) -> (int, int) {
    let e0 = track_extrema_value(dn, 0, 2, 60);
    let e1 = track_extrema_value(dn, 2, 8, 66);
    let e2 = track_extrema_value(dn, 4, 8, 60);
    let max0 = high5(e0.0 * 2896);
    let min0 = high5(e0.1 * 2896);
    let max0b = sat16(max0 - e1.1);
    let max2b = sat16(max0b + e2.0);
    let max1b = sat16(e1.0 - min0);
    let j = sat16(max1b - e2.1);
    let max1c = if sat16(max0b - max1b) > 0 {
        max0b
    } else {
        max1b
    };
    let max2c = if sat16(j - max2b) > 0 {
        j
    } else {
        max2b
    };
    (sat16((max1c * 19200) / 32768), sat16((max2c * 19200) / 32768))
}

/// The pruning thresholds (see [`thresholds`]).
pub fn search_thresholds(dn: &[Word16]) -> (r: (Word16, Word16))
    requires
        dn@.len() >= 64,
    ensures
        (r.0 as int, r.1 as int) == thresholds(dn@),
{
    proof {
        lemma2_to64();
    }
    let (mx0, mn0) = track_extrema(dn, 0, 2);
    let mut max0 = store_high(l_mult0(mx0, 2896), 5);
    let min0 = store_high(l_mult0(mn0, 2896), 5);
    let (mut max1, min1) = track_extrema(dn, 2, 8);
    let (mut max2, min2) = track_extrema(dn, 4, 8);
    max0 = crate::fixed::ops::sub_pure(max0, min1);
    max2 = crate::fixed::ops::add_pure(max0, max2);
    max1 = crate::fixed::ops::sub_pure(max1, min0);
    let j = crate::fixed::ops::sub_pure(max1, min2);
    if crate::fixed::ops::sub_pure(max0, max1) > 0 {
        max1 = max0;
    }
    if crate::fixed::ops::sub_pure(j, max2) > 0 {
        max2 = j;
    }
    (mult_pure(max1, 19200), mult_pure(max2, 19200))
}

/// The state of the pulse search: the best candidate so far (its
/// correlation `ps`, squared `psc`, energy `best_den`, pulse positions and
/// shift), and the remaining time budget.
#[derive(Clone, Copy, Debug, PartialEq, Eq, Structural)]
pub struct SearchState {
    pub ps: Word16,
    pub psc: Word16,
    pub best_den: Word16,
    pub ip0: usize,
    pub ip1: usize,
    pub ip2: usize,
    pub ip3: usize,
    pub shift: Word16,
    pub time: Word16,
    pub done: bool,
}

/// The state before the search.
pub open spec fn search_start() -> SearchState {
    SearchState {
        ps: 0,
        psc: 0,
        best_den: 255,
        ip0: 0,
        ip1: 2,
        ip2: 4,
        ip3: 6,
        shift: 0,
        time: 350,
        done: false,
    }
}

/// The positions stay on their tracks.
pub open spec fn on_tracks(st: SearchState) -> bool {
    &&& st.ip0 % 2 == 0 && st.ip0 < 60
    &&& st.ip1 % 8 == 2 && st.ip1 < 64
    &&& st.ip2 % 8 == 4 && st.ip2 < 64
    &&& st.ip3 % 8 == 6 && st.ip3 < 64
    &&& st.shift == 0 || st.shift == 1
}

/// The fourth pulse at `3 + 4 q3`: the candidate replaces the best when
/// its squared correlation over energy is larger (cross-multiplied).
pub open spec fn try_fourth(
    st: SearchState,
    phi: Seq<Word16>,
    dn: Seq<Word16>,
    ii0: int,
    ii1: int,
    ii2: int,
    shif: int,
    ps2_32: int,
    den2_32: int,
    q3: int,
) -> SearchState {
    let ii3 = 3 + 4 * q3;
    let ps3 = sat32(ps2_32 - dn[2 * ii3 + shif] * 32768) / 65536;
    let l1 = sat32(den2_32 + phi[ii3 * 32 + ii3] * 4096);
    let l2 = sat32(l1 + phi[ii1 * 32 + ii3] * 8192);
    let l3 = sat32(l2 - 11585 * phi[ii0 * 32 + ii3]);
    let l4 = sat32(l3 - phi[ii2 * 32 + ii3] * 8192);
    let den3 = l4 / 65536;
    let ps3c = sat16((ps3 * ps3) / 32768);
    if sat32(sat32(2 * ps3c * st.best_den) - sat32(2 * st.psc * den3)) > 0 {
        SearchState {
            ps: ps3 as i16,
            psc: ps3c as i16,
            best_den: den3 as i16,
            ip0: (2 * ii0) as usize,
            ip1: (2 * ii1) as usize,
            ip2: (2 * ii2) as usize,
            ip3: (2 * ii3) as usize,
            shift: shif as i16,
            ..st
        }
    } else {
        st
    }
}

/// The first `n` fourth pulses.
pub open spec fn run_fourth(
    st: SearchState,
    phi: Seq<Word16>,
    dn: Seq<Word16>,
    ii0: int,
    ii1: int,
    ii2: int,
    shif: int,
    ps2_32: int,
    den2_32: int,
    n: int,
) -> SearchState
    decreases n,
{
    if n <= 0 {
        st
    } else {
        try_fourth(
            run_fourth(st, phi, dn, ii0, ii1, ii2, shif, ps2_32, den2_32, n - 1),
            phi,
            dn,
            ii0,
            ii1,
            ii2,
            shif,
            ps2_32,
            den2_32,
            n - 1,
        )
    }
}

/// The third pulse at `2 + 4 q2`: past the second threshold, the better
/// sign of the pulse pair decides the shift, all fourth pulses are tried,
/// and three units of time are spent.
pub open spec fn try_third(
    st: SearchState,
    phi: Seq<Word16>,
    dn: Seq<Word16>,
    ii0: int,
    ii1: int,
    ps1: int,
    ps1a: int,
    den1_32: int,
    seuil2: int,
    q2: int,
) -> SearchState {
    if st.done {
        st
    } else {
        let ii2 = 2 + 4 * q2;
        let ps2_0 = sat16(ps1 + dn[2 * ii2]);
        let ps2a = sat16(ps1a + dn[2 * ii2 + 1]);
        let l1 = sat32(den1_32 + phi[ii2 * 32 + ii2] * 4096);
        let l2 = sat32(l1 + 11585 * phi[ii0 * 32 + ii2]);
        let l3 = sat32(l2 - phi[ii1 * 32 + ii2] * 8192);
        let den2 = l3 / 65536;
        let den2_32 = if den2 == -32768 {
            -0x7fff_ffff
        } else {
            den2 * 65536
        };
        let a = sat32(sat32(ps2_0 * 32768 + ps2a * 32768));
        let mag = if a < 0 {
            sat32(-a)
        } else {
            a
        };
        if sat32(mag + sat32(-65536 * seuil2)) > 0 {
            let abs_a = sat16(if ps2a < 0 { -ps2a } else { ps2a });
            let abs_0 = sat16(if ps2_0 < 0 { -ps2_0 } else { ps2_0 });
            let shif = if sat16(abs_a - abs_0) > 0 {
                1int
            } else {
                0int
            };
            let ps2 = if shif == 1 {
                ps2a
            } else {
                ps2_0
            };
            let st2 = run_fourth(st, phi, dn, ii0, ii1, ii2, shif, ps2 * 32768, den2_32, 8);
            let time = sat16(st2.time - 3);
            SearchState { time: time as i16, done: time <= 0, ..st2 }
        } else {
            st
        }
    }
}

/// The first `n` third pulses.
pub open spec fn run_third(
    st: SearchState,
    phi: Seq<Word16>,
    dn: Seq<Word16>,
    ii0: int,
    ii1: int,
    ps1: int,
    ps1a: int,
    den1_32: int,
    seuil2: int,
    n: int,
) -> SearchState
    decreases n,
{
    if n <= 0 {
        st
    } else {
        try_third(
            run_third(st, phi, dn, ii0, ii1, ps1, ps1a, den1_32, seuil2, n - 1),
            phi,
            dn,
            ii0,
            ii1,
            ps1,
            ps1a,
            den1_32,
            seuil2,
            n - 1,
        )
    }
}

/// The second pulse at `1 + 4 q1`: past the first threshold, all third
/// pulses are tried and, unless the budget ran out there, four units of
/// time are spent.
pub open spec fn try_second(
    st: SearchState,
    phi: Seq<Word16>,
    dn: Seq<Word16>,
    ii0: int,
    ps0: int,
    ps0a: int,
    den0_32: int,
    seuil1: int,
    seuil2: int,
    q1: int,
) -> SearchState {
    if st.done {
        st
    } else {
        let ii1 = 1 + 4 * q1;
        let ps1 = sat16(ps0 - dn[2 * ii1]);
        let ps1a = sat16(ps0a - dn[2 * ii1 + 1]);
        let l1 = sat32(den0_32 + phi[ii1 * 32 + ii1] * 8192);
        let l2 = sat32(l1 - 23170 * phi[ii0 * 32 + ii1]);
        let den1 = l2 / 65536;
        let a = sat32(ps1 * 32768 + ps1a * 32768);
        let mag = if a < 0 {
            sat32(-a)
        } else {
            a
        };
        if sat32(mag + sat32(-65536 * seuil1)) > 0 {
            let st2 = run_third(st, phi, dn, ii0, ii1, ps1, ps1a, den1 * 32768, seuil2, 8);
            if st2.done {
                st2
            } else {
                let time = sat16(st2.time - 4);
                SearchState { time: time as i16, done: time <= 0, ..st2 }
            }
        } else {
            st
        }
    }
}

/// The first `n` second pulses.
pub open spec fn run_second(
    st: SearchState,
    phi: Seq<Word16>,
    dn: Seq<Word16>,
    ii0: int,
    ps0: int,
    ps0a: int,
    den0_32: int,
    seuil1: int,
    seuil2: int,
    n: int,
) -> SearchState
    decreases n,
{
    if n <= 0 {
        st
    } else {
        try_second(
            run_second(st, phi, dn, ii0, ps0, ps0a, den0_32, seuil1, seuil2, n - 1),
            phi,
            dn,
            ii0,
            ps0,
            ps0a,
            den0_32,
            seuil1,
            seuil2,
            n - 1,
        )
    }
}

/// The first pulse at `ii0` (weighted by the track gain).
pub open spec fn try_first(st: SearchState, phi: Seq<Word16>, dn: Seq<Word16>, seuil1: int, seuil2: int, ii0: int) -> SearchState {
    if st.done {
        st
    } else {
        let ps0 = high5(2896 * dn[2 * ii0]);
        let ps0a = high5(2896 * dn[2 * ii0 + 1]);
        let den0_32 = phi[ii0 * 32 + ii0] * 16384;
        run_second(st, phi, dn, ii0, ps0, ps0a, den0_32, seuil1, seuil2, 8)
    }
}

/// The first `n` first pulses.
pub open spec fn run_first(st: SearchState, phi: Seq<Word16>, dn: Seq<Word16>, seuil1: int, seuil2: int, n: int) -> SearchState
    decreases n,
{
    if n <= 0 {
        st
    } else {
        try_first(run_first(st, phi, dn, seuil1, seuil2, n - 1), phi, dn, seuil1, seuil2, n - 1)
    }
}

/// The whole search from the start state.
pub open spec fn pulse_search_result(phi: Seq<Word16>, dn: Seq<Word16>, seuil1: int, seuil2: int) -> SearchState {
    run_first(search_start(), phi, dn, seuil1, seuil2, 30)
}

/// Try the eight fourth pulses (see [`run_fourth`]).
#[verifier::spinoff_prover]
#[verifier::rlimit(40)]
fn fourth_pulses(
    st: &mut SearchState,
    phi: &[Word16; 1024],
    dn: &[Word16],
    ii0: usize,
    ii1: usize,
    ii2: usize,
    shif: usize,
    ps2_32: Word32,
    den2_32: Word32,
)
    requires
        dn@.len() >= 64,
        ii0 < 30,
        ii1 % 4 == 1 && ii1 < 32,
        ii2 % 4 == 2 && ii2 < 32,
        shif <= 1,
        on_tracks(*old(st)),
    ensures
        *final(st) == run_fourth(
            *old(st),
            phi@,
            dn@,
            ii0 as int,
            ii1 as int,
            ii2 as int,
            shif as int,
            ps2_32 as int,
            den2_32 as int,
            8,
        ),
        on_tracks(*final(st)),
        final(st).time == old(st).time,
        final(st).done == old(st).done,
{
    proof {
        lemma2_to64();
    }
    let mut q3: usize = 0;
    while q3 < 8
        invariant
            q3 <= 8,
            dn@.len() >= 64,
            ii0 < 30,
            ii1 % 4 == 1 && ii1 < 32,
            ii2 % 4 == 2 && ii2 < 32,
            shif <= 1,
            on_tracks(*st),
            st.time == old(st).time,
            st.done == old(st).done,
            *st == run_fourth(
                *old(st),
                phi@,
                dn@,
                ii0 as int,
                ii1 as int,
                ii2 as int,
                shif as int,
                ps2_32 as int,
                den2_32 as int,
                q3 as int,
            ),
            pow2(12) == 4096 && pow2(13) == 8192 && pow2(15) == 32768,
        decreases 8 - q3,
    {
        let ii3 = 3 + 4 * q3;
        let l_tmp = sub_shifted(ps2_32, dn[2 * ii3 + shif], 15);
        let ps3 = extract_h(l_tmp);
        let mut l_tmp = add_shifted(den2_32, phi[ii3 * 32 + ii3], 12);
        l_tmp = add_shifted(l_tmp, phi[ii1 * 32 + ii3], 13);
        l_tmp = l_msu0_pure(l_tmp, 11585, phi[ii0 * 32 + ii3]);
        l_tmp = sub_shifted(l_tmp, phi[ii2 * 32 + ii3], 13);
        let den3 = extract_h(l_tmp);
        let ps3c = mult_pure(ps3, ps3);
        let l_tmp = l_mult_pure(ps3c, st.best_den);
        if l_msu_pure(l_tmp, st.psc, den3) > 0 {
            st.ps = ps3;
            st.psc = ps3c;
            st.best_den = den3;
            st.ip0 = 2 * ii0;
            st.ip1 = 2 * ii1;
            st.ip2 = 2 * ii2;
            st.ip3 = 2 * ii3;
            st.shift = shif as Word16;
        }
        q3 = q3 + 1;
    }
}

/// Try the eight third pulses (see [`run_third`]).
#[verifier::spinoff_prover]
#[verifier::rlimit(60)]
fn third_pulses(
    st: &mut SearchState,
    phi: &[Word16; 1024],
    dn: &[Word16],
    ii0: usize,
    ii1: usize,
    ps1: Word16,
    ps1a: Word16,
    den1_32: Word32,
    seuil2: Word16,
)
    requires
        dn@.len() >= 64,
        ii0 < 30,
        ii1 % 4 == 1 && ii1 < 32,
        on_tracks(*old(st)),
    ensures
        *final(st) == run_third(
            *old(st),
            phi@,
            dn@,
            ii0 as int,
            ii1 as int,
            ps1 as int,
            ps1a as int,
            den1_32 as int,
            seuil2 as int,
            8,
        ),
        on_tracks(*final(st)),
{
    proof {
        lemma2_to64();
    }
    let mut q2: usize = 0;
    while q2 < 8
        invariant
            q2 <= 8,
            dn@.len() >= 64,
            ii0 < 30,
            ii1 % 4 == 1 && ii1 < 32,
            on_tracks(*st),
            *st == run_third(
                *old(st),
                phi@,
                dn@,
                ii0 as int,
                ii1 as int,
                ps1 as int,
                ps1a as int,
                den1_32 as int,
                seuil2 as int,
                q2 as int,
            ),
            pow2(12) == 4096 && pow2(13) == 8192 && pow2(15) == 32768,
        decreases 8 - q2,
    {
        if !st.done {
            let ii2 = 2 + 4 * q2;
            let ps2_0 = crate::fixed::ops::add_pure(ps1, dn[2 * ii2]);
            let ps2a = crate::fixed::ops::add_pure(ps1a, dn[2 * ii2 + 1]);
            let mut l_tmp = add_shifted(den1_32, phi[ii2 * 32 + ii2], 12);
            l_tmp = l_mac0_pure(l_tmp, 11585, phi[ii0 * 32 + ii2]);
            l_tmp = sub_shifted(l_tmp, phi[ii1 * 32 + ii2], 13);
            let den2 = extract_h(l_tmp);
            let den2_32 = load_high16(den2);
            l_tmp = load_shifted(ps2_0, 15);
            l_tmp = l_abs(add_shifted(l_tmp, ps2a, 15));
            l_tmp = sub_high16(l_tmp, seuil2);
            if l_tmp > 0 {
                let mut shif: usize = 0;
                let mut ps2 = ps2_0;
                if crate::fixed::ops::sub_pure(abs_s(ps2a), abs_s(ps2)) > 0 {
                    ps2 = ps2a;
                    shif = 1;
                }
                let ps2_32 = load_shifted(ps2, 15);
                fourth_pulses(st, phi, dn, ii0, ii1, ii2, shif, ps2_32, den2_32);
                st.time = crate::fixed::ops::sub_pure(st.time, 3);
                if st.time <= 0 {
                    st.done = true;
                }
            }
        }
        q2 = q2 + 1;
    }
}

/// Try the eight second pulses (see [`run_second`]).
#[verifier::spinoff_prover]
#[verifier::rlimit(60)]
fn second_pulses(
    st: &mut SearchState,
    phi: &[Word16; 1024],
    dn: &[Word16],
    ii0: usize,
    ps0: Word16,
    ps0a: Word16,
    den0_32: Word32,
    seuil1: Word16,
    seuil2: Word16,
)
    requires
        dn@.len() >= 64,
        ii0 < 30,
        on_tracks(*old(st)),
    ensures
        *final(st) == run_second(
            *old(st),
            phi@,
            dn@,
            ii0 as int,
            ps0 as int,
            ps0a as int,
            den0_32 as int,
            seuil1 as int,
            seuil2 as int,
            8,
        ),
        on_tracks(*final(st)),
{
    proof {
        lemma2_to64();
    }
    let mut q1: usize = 0;
    while q1 < 8
        invariant
            q1 <= 8,
            dn@.len() >= 64,
            ii0 < 30,
            on_tracks(*st),
            *st == run_second(
                *old(st),
                phi@,
                dn@,
                ii0 as int,
                ps0 as int,
                ps0a as int,
                den0_32 as int,
                seuil1 as int,
                seuil2 as int,
                q1 as int,
            ),
            pow2(13) == 8192 && pow2(15) == 32768,
        decreases 8 - q1,
    {
        if !st.done {
            let ii1 = 1 + 4 * q1;
            let ps1 = crate::fixed::ops::sub_pure(ps0, dn[2 * ii1]);
            let ps1a = crate::fixed::ops::sub_pure(ps0a, dn[2 * ii1 + 1]);
            let mut l_tmp = add_shifted(den0_32, phi[ii1 * 32 + ii1], 13);
            l_tmp = l_msu0_pure(l_tmp, 23170, phi[ii0 * 32 + ii1]);
            let den1 = extract_h(l_tmp);
            let den1_32 = load_shifted(den1, 15);
            l_tmp = load_shifted(ps1, 15);
            l_tmp = l_abs(add_shifted(l_tmp, ps1a, 15));
            l_tmp = sub_high16(l_tmp, seuil1);
            if l_tmp > 0 {
                third_pulses(st, phi, dn, ii0, ii1, ps1, ps1a, den1_32, seuil2);
                if !st.done {
                    st.time = crate::fixed::ops::sub_pure(st.time, 4);
                    if st.time <= 0 {
                        st.done = true;
                    }
                }
            }
        }
        q1 = q1 + 1;
    }
}

/// The pulse search (see [`pulse_search_result`]).
#[verifier::spinoff_prover]
#[verifier::rlimit(40)]
pub fn pulse_search(phi: &[Word16; 1024], dn: &[Word16], seuil1: Word16, seuil2: Word16) -> (st: SearchState)
    requires
        dn@.len() >= 64,
    ensures
        st == pulse_search_result(phi@, dn@, seuil1 as int, seuil2 as int),
        on_tracks(st),
{
    proof {
        lemma2_to64();
    }
    let mut st = SearchState {
        ps: 0,
        psc: 0,
        best_den: 255,
        ip0: 0,
        ip1: 2,
        ip2: 4,
        ip3: 6,
        shift: 0,
        time: 350,
        done: false,
    };
    let mut ii0: usize = 0;
    while ii0 < 30
        invariant
            ii0 <= 30,
            dn@.len() >= 64,
            on_tracks(st),
            st == run_first(search_start(), phi@, dn@, seuil1 as int, seuil2 as int, ii0 as int),
            pow2(11) == 2048 && pow2(14) == 16384,
        decreases 30 - ii0,
    {
        if !st.done {
            let ps0 = store_high(l_mult0(2896, dn[2 * ii0]), 5);
            let ps0a = store_high(l_mult0(2896, dn[2 * ii0 + 1]), 5);
            let den0_32 = load_shifted(phi[ii0 * 32 + ii0], 14);
            second_pulses(&mut st, phi, dn, ii0, ps0, ps0a, den0_32, seuil1, seuil2);
        }
        ii0 = ii0 + 1;
    }
    st
}

/// The target with the four padding positions `60..64` cleared.
pub open spec fn padded_target(dn: Seq<Word16>) -> Seq<Word16> {
    Seq::new(dn.len(), |i: int| if 60 <= i < 64 { 0i16 } else { dn[i] })
}

/// The codebook parameters (index, sign, shift) of a search result: the
/// four pulse positions packed into the index, the sign of the best
/// correlation.
pub open spec fn search_params(st: SearchState) -> (int, int, int) {
    (
        st.ip0 / 2 + (st.ip1 / 8) * 32 + (st.ip2 / 8) * 256 + (st.ip3 / 8) * 2048,
        if st.ps < 0 {
            1
        } else {
            0
        },
        st.shift as int,
    )
}

/// The codebook parameters the search chooses for the target `dn` and the
/// combined impulse response `h`.
pub open spec fn codebook_choice(dn: Seq<Word16>, h: Seq<Word16>) -> (int, int, int) {
    let d = padded_target(dn);
    let (s1, s2) = thresholds(d);
    search_params(pulse_search_result(phi_matrix(h), d, s1, s2))
}

} // verus!
