//! Voice activity detection with hysteresis over 30 ms slices of 8 kHz
//! audio, and the pairing of coded frames into 274-bit TCH/S blocks.
//!
//! The caller resamples the stream to 8 kHz, hands the samples in, takes
//! out 240-sample slices, measures each slice's level against the two
//! thresholds (`voiced`: at or above the start level; `quiet`: below the
//! stop level) and passes the verdict back with the slice. Times are
//! nanoseconds on one monotonic clock.

use crate::analysis::encode_step;
use crate::frame::{decoder_input, Encoder, SpeechFrame};
use crate::tables::CodecTables;
use vstd::prelude::*;

verus! {

/// Bits in one TCH/S block (two speech frames).
pub const TCH_S_BLOCK_BITS: usize = 274;

/// Length of one VAD slice in milliseconds (240 samples at 8 kHz).
pub const SLICE_MS: u32 = 30;

/// Why the pipeline ended a speech period.
#[derive(Clone, Copy, Debug, PartialEq, Eq, Structural)]
pub enum EndReason {
    /// Sustained silence for `silence_timeout_ms`.
    Silence,
    /// `max_call_duration_secs` reached.
    MaxDuration,
    /// No audio data for `stream_loss_grace_ms`.
    StreamLost,
    /// Operator requested a stop.
    Operator,
}

/// High-level events produced by the pipeline, consumed by the entity.
#[derive(Clone, Copy, Debug, PartialEq, Eq, Structural)]
pub enum PipelineEvent {
    /// VAD detected sustained voiced audio.
    SpeechStarted,
    /// A speech period ended (the radio call can be released).
    SpeechEnded { reason: EndReason },
}

/// The timing part of the pipeline configuration.
#[derive(Clone, Copy, Debug, PartialEq, Eq, Structural)]
pub struct PipelineTiming {
    /// Sustained voiced time required before speech starts.
    pub vad_start_ms: u32,
    /// Sustained silence that ends speech.
    pub silence_timeout_ms: u32,
    /// How long a speaking stream may go without audio.
    pub stream_loss_grace_ms: u32,
    /// Hard cap on one speech period.
    pub max_call_duration_secs: u32,
}

/// Voice activity state.
#[derive(Clone, Copy, Debug, PartialEq, Eq, Structural)]
pub struct VadState {
    /// Inside a speech period.
    pub speaking: bool,
    /// Consecutive voiced time while not speaking.
    pub voiced_ms: u32,
    /// Consecutive silent time while speaking.
    pub silence_ms: u32,
    /// When the current speech period started.
    pub speech_started_at: Option<u64>,
    /// When audio last arrived.
    pub last_audio_at: Option<u64>,
}

/// `a + b`, saturating at `u32::MAX`.
pub open spec fn sat_add(a: u32, b: u32) -> u32 {
    if a + b > u32::MAX {
        u32::MAX
    } else {
        (a + b) as u32
    }
}

/// Time from `then` to `now`, zero when `now` is earlier.
pub open spec fn elapsed(now: u64, then: u64) -> int {
    if now >= then {
        now - then
    } else {
        0
    }
}

/// The state before any audio.
pub open spec fn vad_initial() -> VadState {
    VadState {
        speaking: false,
        voiced_ms: 0,
        silence_ms: 0,
        speech_started_at: None,
        last_audio_at: None,
    }
}

/// Leaving a speech period: counters and start time are cleared.
pub open spec fn vad_ended(s: VadState) -> VadState {
    VadState {
        speaking: false,
        voiced_ms: 0,
        silence_ms: 0,
        speech_started_at: None,
        last_audio_at: s.last_audio_at,
    }
}

/// End the speech period for `reason`, if there is one.
pub open spec fn vad_end(s: VadState, reason: EndReason) -> (VadState, Option<PipelineEvent>) {
    if s.speaking {
        (vad_ended(s), Some(PipelineEvent::SpeechEnded { reason }))
    } else {
        (s, None)
    }
}

/// One 30 ms slice of VAD with hysteresis: while not speaking, voiced time
/// accumulates (any unvoiced slice resets it) and speech starts once it
/// reaches `vad_start_ms`; while speaking, quiet time accumulates (any
/// non-quiet slice resets it) and speech ends once it reaches
/// `silence_timeout_ms`.
pub open spec fn vad_step(t: PipelineTiming, s: VadState, voiced: bool, quiet: bool, now: u64) -> (
    VadState,
    Option<PipelineEvent>,
) {
    if !s.speaking {
        let v = if voiced {
            sat_add(s.voiced_ms, SLICE_MS)
        } else {
            0u32
        };
        if v >= t.vad_start_ms {
            (
                VadState {
                    speaking: true,
                    voiced_ms: 0,
                    silence_ms: 0,
                    speech_started_at: Some(now),
                    last_audio_at: s.last_audio_at,
                },
                Some(PipelineEvent::SpeechStarted),
            )
        } else {
            (
                VadState {
                    speaking: false,
                    voiced_ms: v,
                    silence_ms: s.silence_ms,
                    speech_started_at: s.speech_started_at,
                    last_audio_at: s.last_audio_at,
                },
                None,
            )
        }
    } else {
        let q = if quiet {
            sat_add(s.silence_ms, SLICE_MS)
        } else {
            0u32
        };
        if q >= t.silence_timeout_ms {
            (vad_ended(s), Some(PipelineEvent::SpeechEnded { reason: EndReason::Silence }))
        } else {
            (
                VadState {
                    speaking: true,
                    voiced_ms: s.voiced_ms,
                    silence_ms: q,
                    speech_started_at: s.speech_started_at,
                    last_audio_at: s.last_audio_at,
                },
                None,
            )
        }
    }
}

/// The stream-loss check: a speaking stream whose last audio is more than
/// `stream_loss_grace_ms` old ends its speech period.
pub open spec fn vad_stream_loss(t: PipelineTiming, s: VadState, now: u64) -> (
    VadState,
    Option<PipelineEvent>,
) {
    match s.last_audio_at {
        None => (s, None),
        Some(last) => if !s.speaking || elapsed(now, last) <= t.stream_loss_grace_ms as int
            * 1_000_000 {
            (s, None)
        } else {
            vad_end(s, EndReason::StreamLost)
        },
    }
}

/// The duration cap: a speech period that has lasted
/// `max_call_duration_secs` ends.
pub open spec fn vad_max_duration(t: PipelineTiming, s: VadState, now: u64) -> (
    VadState,
    Option<PipelineEvent>,
) {
    match s.speech_started_at {
        Some(started) => if s.speaking && elapsed(now, started) >= t.max_call_duration_secs as int
            * 1_000_000_000 {
            vad_end(s, EndReason::MaxDuration)
        } else {
            (s, None)
        },
        None => (s, None),
    }
}

/// The state after `n` slices with the same verdict.
pub open spec fn vad_repeat(
    t: PipelineTiming,
    s: VadState,
    voiced: bool,
    quiet: bool,
    now: u64,
    n: nat,
) -> VadState
    decreases n,
{
    if n == 0 {
        s
    } else {
        vad_step(t, vad_repeat(t, s, voiced, quiet, now, (n - 1) as nat), voiced, quiet, now).0
    }
}

/// Law: speech starts only after sustained voicing. From a state that is
/// not speaking and has no voiced time, `n` consecutive voiced slices leave
/// the pipeline speaking exactly when they span at least `vad_start_ms`.
pub proof fn law_start_needs_sustained_voicing(t: PipelineTiming, s: VadState, now: u64, n: nat)
    requires
        !s.speaking,
        s.voiced_ms == 0,
        t.silence_timeout_ms > 0,
        n >= 1,
        SLICE_MS * n <= u32::MAX,
    ensures
        vad_repeat(t, s, true, false, now, n).speaking <==> SLICE_MS * n >= t.vad_start_ms,
{
    lemma_voiced_run(t, s, now, n);
}

proof fn lemma_voiced_run(t: PipelineTiming, s: VadState, now: u64, n: nat)
    requires
        !s.speaking,
        s.voiced_ms == 0,
        t.silence_timeout_ms > 0,
        SLICE_MS * n <= u32::MAX,
    ensures
        (n == 0 || SLICE_MS * n < t.vad_start_ms) ==> {
            &&& !vad_repeat(t, s, true, false, now, n).speaking
            &&& vad_repeat(t, s, true, false, now, n).voiced_ms == SLICE_MS * n
        },
        (n > 0 && SLICE_MS * n >= t.vad_start_ms) ==> {
            &&& vad_repeat(t, s, true, false, now, n).speaking
            &&& vad_repeat(t, s, true, false, now, n).silence_ms == 0
        },
    decreases n,
{
    if n > 0 {
        lemma_voiced_run(t, s, now, (n - 1) as nat);
    }
}

/// Law: sustained silence ends speech. From a speaking state with no quiet
/// time, `n` consecutive quiet slices leave the pipeline speaking exactly
/// when they span less than `silence_timeout_ms`.
pub proof fn law_silence_ends_speech(t: PipelineTiming, s: VadState, now: u64, n: nat)
    requires
        s.speaking,
        s.silence_ms == 0,
        t.vad_start_ms > 0,
        n >= 1,
        SLICE_MS * n <= u32::MAX,
    ensures
        vad_repeat(t, s, false, true, now, n).speaking <==> SLICE_MS * n < t.silence_timeout_ms,
{
    lemma_quiet_run(t, s, now, n);
}

proof fn lemma_quiet_run(t: PipelineTiming, s: VadState, now: u64, n: nat)
    requires
        s.speaking,
        s.silence_ms == 0,
        t.vad_start_ms > 0,
        SLICE_MS * n <= u32::MAX,
    ensures
        (n == 0 || SLICE_MS * n < t.silence_timeout_ms) ==> {
            &&& vad_repeat(t, s, false, true, now, n).speaking
            &&& vad_repeat(t, s, false, true, now, n).silence_ms == SLICE_MS * n
        },
        (n > 0 && SLICE_MS * n >= t.silence_timeout_ms) ==> {
            &&& !vad_repeat(t, s, false, true, now, n).speaking
            &&& vad_repeat(t, s, false, true, now, n).voiced_ms == 0
        },
    decreases n,
{
    if n > 0 {
        lemma_quiet_run(t, s, now, (n - 1) as nat);
    }
}

/// Law: every transition announces exactly the change of the speaking
/// flag: `SpeechStarted` exactly when speech begins, `SpeechEnded` exactly
/// when it ends, and nothing otherwise; ending clears the voiced and silent
/// time and the start time.
pub proof fn law_events_follow_speaking(
    t: PipelineTiming,
    s: VadState,
    voiced: bool,
    quiet: bool,
    now: u64,
    reason: EndReason,
)
    ensures
        ({
            let (s2, ev) = vad_step(t, s, voiced, quiet, now);
            &&& ev == Some(PipelineEvent::SpeechStarted) <==> (!s.speaking && s2.speaking)
            &&& (ev is Some && ev != Some(PipelineEvent::SpeechStarted)) <==> (s.speaking && !s2.speaking)
            &&& ev is None <==> s.speaking == s2.speaking
        }),
        ({
            let (s2, ev) = vad_end(s, reason);
            &&& ev == Some(PipelineEvent::SpeechEnded { reason }) <==> s.speaking
            &&& ev is None <==> !s.speaking
            &&& !s2.speaking
            &&& s.speaking ==> s2 == vad_ended(s)
        }),
        ({
            let (s2, ev) = vad_stream_loss(t, s, now);
            &&& ev is Some <==> (s.speaking && !s2.speaking)
        }),
        ({
            let (s2, ev) = vad_max_duration(t, s, now);
            &&& ev is Some <==> (s.speaking && !s2.speaking)
        }),
{
}

/// Law: stopping is idempotent: once a speech period has been ended, a
/// second stop (for any reason) reports nothing and changes nothing.
pub proof fn law_stop_is_idempotent(s: VadState, first: EndReason, second: EndReason)
    ensures
        vad_end(vad_end(s, first).0, second) == (vad_end(s, first).0, None::<PipelineEvent>),
{
}

/// Saturating addition of the slice length.
fn sat_add_slice(a: u32) -> (r: u32)
    ensures
        r == sat_add(a, SLICE_MS),
{
    if a > u32::MAX - SLICE_MS {
        u32::MAX
    } else {
        a + SLICE_MS
    }
}

/// Time from `then` to `now` in nanoseconds, zero when `now` is earlier.
fn elapsed_ns(now: u64, then: u64) -> (r: u64)
    ensures
        r == elapsed(now, then),
{
    if now >= then {
        now - then
    } else {
        0
    }
}

impl VadState {
    /// The state before any audio.
    pub fn new() -> (s: Self)
        ensures
            s == vad_initial(),
    {
        VadState {
            speaking: false,
            voiced_ms: 0,
            silence_ms: 0,
            speech_started_at: None,
            last_audio_at: None,
        }
    }

    /// End the speech period for `reason`, if there is one.
    pub fn end_speech(&mut self, reason: EndReason) -> (ev: Option<PipelineEvent>)
        ensures
            (*final(self), ev) == vad_end(*old(self), reason),
    {
        if !self.speaking {
            return None;
        }
        self.speaking = false;
        self.voiced_ms = 0;
        self.silence_ms = 0;
        self.speech_started_at = None;
        Some(PipelineEvent::SpeechEnded { reason })
    }

    /// Run VAD on one slice (see [`vad_step`]).
    pub fn update(&mut self, t: &PipelineTiming, voiced: bool, quiet: bool, now: u64) -> (ev: Option<
        PipelineEvent,
    >)
        ensures
            (*final(self), ev) == vad_step(*t, *old(self), voiced, quiet, now),
    {
        if !self.speaking {
            if voiced {
                self.voiced_ms = sat_add_slice(self.voiced_ms);
            } else {
                self.voiced_ms = 0;
            }
            if self.voiced_ms >= t.vad_start_ms {
                self.speaking = true;
                self.voiced_ms = 0;
                self.silence_ms = 0;
                self.speech_started_at = Some(now);
                return Some(PipelineEvent::SpeechStarted);
            }
            return None;
        }
        if quiet {
            self.silence_ms = sat_add_slice(self.silence_ms);
        } else {
            self.silence_ms = 0;
        }
        if self.silence_ms >= t.silence_timeout_ms {
            return self.end_speech(EndReason::Silence);
        }
        None
    }

    /// The stream-loss check (see [`vad_stream_loss`]).
    pub fn check_stream_loss(&mut self, t: &PipelineTiming, now: u64) -> (ev: Option<
        PipelineEvent,
    >)
        ensures
            (*final(self), ev) == vad_stream_loss(*t, *old(self), now),
    {
        let last = match self.last_audio_at {
            Some(last) => last,
            None => {
                return None;
            },
        };
        if !self.speaking {
            return None;
        }
        let grace: u64 = t.stream_loss_grace_ms as u64 * 1_000_000;
        if elapsed_ns(now, last) <= grace {
            return None;
        }
        self.end_speech(EndReason::StreamLost)
    }

    /// The duration cap (see [`vad_max_duration`]).
    pub fn check_max_duration(&mut self, t: &PipelineTiming, now: u64) -> (ev: Option<
        PipelineEvent,
    >)
        ensures
            (*final(self), ev) == vad_max_duration(*t, *old(self), now),
    {
        if self.speaking {
            if let Some(started) = self.speech_started_at {
                let cap: u64 = t.max_call_duration_secs as u64 * 1_000_000_000;
                if elapsed_ns(now, started) >= cap {
                    return self.end_speech(EndReason::MaxDuration);
                }
            }
        }
        None
    }
}

/// A TCH/S block as one byte (0 or 1) per bit: the first frame's bits, then
/// the second's.
pub open spec fn block_bytes(first: Seq<bool>, second: Seq<bool>) -> Seq<u8> {
    (first + second).map_values(|b: bool| if b { 1u8 } else { 0u8 })
}

/// One byte per bit of a TCH/S block.
fn block_to_bytes(block: &[bool; 274]) -> (v: Vec<u8>)
    ensures
        v@ == block@.map_values(|b: bool| if b { 1u8 } else { 0u8 }),
{
    let mut v: Vec<u8> = Vec::new();
    let mut i: usize = 0;
    while i < 274
        invariant
            i <= 274,
            v@.len() == i,
            forall|k: int| 0 <= k < i ==> #[trigger] v@[k] == (if block@[k] { 1u8 } else { 0u8 }),
        decreases 274 - i,
    {
        v.push(if block[i] { 1u8 } else { 0u8 });
        i = i + 1;
    }
    assert(v@ =~= block@.map_values(|b: bool| if b { 1u8 } else { 0u8 }));
    v
}

/// VAD and TETRA encoding over a live stream: 8 kHz samples go in, 240-
/// sample slices come out for level measurement and go back in with the
/// verdict, and every second coded frame completes a TCH/S block.
pub struct Pipeline {
    timing: PipelineTiming,
    frame_buf: Vec<i16>,
    encoder: Encoder,
    pending_frame: Option<SpeechFrame>,
    vad: VadState,
}

impl Pipeline {
    /// The timing configuration.
    pub closed spec fn timing(&self) -> PipelineTiming {
        self.timing
    }

    /// 8 kHz samples waiting to be framed.
    pub closed spec fn buffered(&self) -> Seq<i16> {
        self.frame_buf@
    }

    /// The first frame of the current block, awaiting its pair.
    pub closed spec fn pending(&self) -> Option<SpeechFrame> {
        self.pending_frame
    }

    /// The voice activity state.
    pub closed spec fn vad(&self) -> VadState {
        self.vad
    }

    /// The speech encoder.
    pub closed spec fn encoder(&self) -> Encoder {
        self.encoder
    }

    /// Well-formedness: the encoder's own invariant.
    pub closed spec fn wf(&self) -> bool {
        self.encoder.codec().wf()
    }

    /// A pipeline with no audio yet and a fresh encoder.
    pub fn new(timing: PipelineTiming, tables: &CodecTables) -> (p: Self)
        ensures
            p.wf(),
            p.timing() == timing,
            p.buffered() == Seq::<i16>::empty(),
            p.pending() is None,
            p.vad() == vad_initial(),
            p.encoder().codec().codec_tables() == *tables,
            p.encoder().codec().synthesis_view() == crate::frame::reset_view(),
    {
        let encoder = Encoder::new(tables);
        Pipeline {
            timing,
            frame_buf: Vec::new(),
            encoder,
            pending_frame: None,
            vad: VadState::new(),
        }
    }

    /// Inside a speech period.
    pub fn is_speaking(&self) -> (b: bool)
        ensures
            b == self.vad().speaking,
    {
        self.vad.speaking
    }

    /// The voice activity state.
    pub fn vad_state(&self) -> (s: VadState)
        ensures
            s == self.vad(),
    {
        self.vad
    }

    /// Take in resampled 8 kHz audio that arrived at `now`.
    pub fn accept_audio(&mut self, audio: &[i16], now: u64)
        ensures
            final(self).buffered() == old(self).buffered() + audio@,
            final(self).vad() == (VadState { last_audio_at: Some(now), ..old(self).vad() }),
            final(self).timing() == old(self).timing(),
            final(self).pending() == old(self).pending(),
            final(self).encoder() == old(self).encoder(),
    {
        let mut i: usize = 0;
        let ghost start = self.frame_buf@;
        while i < audio.len()
            invariant
                i <= audio@.len(),
                self.frame_buf@ == start + audio@.subrange(0, i as int),
                self.vad == old(self).vad,
                self.timing == old(self).timing,
                self.pending_frame == old(self).pending_frame,
                self.encoder == old(self).encoder,
            decreases audio@.len() - i,
        {
            self.frame_buf.push(audio[i]);
            i = i + 1;
            proof {
                assert(audio@.subrange(0, i as int) =~= audio@.subrange(0, i - 1) + seq![audio@[i - 1]]);
            }
        }
        assert(audio@.subrange(0, audio@.len() as int) =~= audio@);
        self.vad.last_audio_at = Some(now);
    }

    /// Take the next 240-sample slice out of the buffer, if there is one.
    pub fn next_slice(&mut self) -> (slice: Option<[i16; 240]>)
        ensures
            old(self).buffered().len() >= 240 <==> slice is Some,
            slice matches Some(a) ==> {
                &&& a@ == old(self).buffered().subrange(0, 240)
                &&& final(self).buffered() == old(self).buffered().skip(240)
            },
            slice is None ==> final(self).buffered() == old(self).buffered(),
            final(self).vad() == old(self).vad(),
            final(self).timing() == old(self).timing(),
            final(self).pending() == old(self).pending(),
            final(self).encoder() == old(self).encoder(),
    {
        if self.frame_buf.len() < 240 {
            return None;
        }
        let mut a = [0i16; 240];
        let mut i: usize = 0;
        while i < 240
            invariant
                i <= 240,
                self.frame_buf@.len() >= 240,
                forall|k: int| 0 <= k < i ==> #[trigger] a@[k] == self.frame_buf@[k],
            decreases 240 - i,
        {
            a[i] = self.frame_buf[i];
            i = i + 1;
        }
        let n = self.frame_buf.len();
        let mut rest: Vec<i16> = Vec::new();
        let mut j: usize = 240;
        while j < n
            invariant
                240 <= j <= n,
                n == self.frame_buf@.len(),
                rest@ == self.frame_buf@.subrange(240, j as int),
            decreases n - j,
        {
            rest.push(self.frame_buf[j]);
            j = j + 1;
            proof {
                assert(self.frame_buf@.subrange(240, j as int) =~= self.frame_buf@.subrange(
                    240,
                    j - 1,
                ) + seq![self.frame_buf@[j - 1]]);
            }
        }
        assert(a@ =~= self.frame_buf@.subrange(0, 240));
        assert(rest@ =~= self.frame_buf@.skip(240));
        self.frame_buf = rest;
        Some(a)
    }

    /// VAD and encoding of one slice: `voiced` says the slice's level is at
    /// or above the start threshold, `quiet` that it is below the stop
    /// threshold. Returns the TCH/S block the slice's frame completes, if
    /// any, and the VAD event.
    pub fn process_slice(&mut self, slice: &[i16; 240], voiced: bool, quiet: bool, now: u64) -> (r: (
        Option<Vec<u8>>,
        Option<PipelineEvent>,
    ))
        requires
            old(self).wf(),
        ensures
            final(self).wf(),
            (final(self).vad(), r.1) == vad_step(
                old(self).timing(),
                old(self).vad(),
                voiced,
                quiet,
                now,
            ),
            final(self).timing() == old(self).timing(),
            final(self).buffered() == old(self).buffered(),
            final(self).encoder().codec().codec_tables() == old(self).encoder().codec().codec_tables(),
            final(self).encoder().codec().state_view() == encode_step(
                old(self).encoder().codec().codec_tables(),
                old(self).encoder().codec().state_view(),
                slice@,
            ).1,
            exists|frame: SpeechFrame, synth: Seq<i16>|
                {
                    &&& decoder_input(frame@, false) == seq![0i16] + encode_step(
                        old(self).encoder().codec().codec_tables(),
                        old(self).encoder().codec().state_view(),
                        slice@,
                    ).0
                    &&& crate::frame::encodes(
                        old(self).encoder().codec().codec_tables(),
                        old(self).encoder().codec().synthesis_view(),
                        final(self).encoder().codec().synthesis_view(),
                        frame@,
                        synth,
                    )
                    &&& match old(self).pending() {
                        Some(first) => {
                            &&& final(self).pending() is None
                            &&& r.0 matches Some(b) && b@ == block_bytes(first@, frame@)
                        },
                        None => {
                            &&& final(self).pending() == Some(frame)
                            &&& r.0 is None
                        },
                    }
                },
    {
        let ev = self.vad.update(&self.timing, voiced, quiet, now);
        let speech = self.encoder.encode(slice);
        let block = match self.pending_frame.take() {
            Some(first) => {
                let bits = SpeechFrame::tch_s_block(&first, &speech);
                Some(block_to_bytes(&bits))
            },
            None => {
                self.pending_frame = Some(speech);
                None
            },
        };
        proof {
            let synth = choose|synth: Seq<i16>|
                crate::frame::encodes(
                    old(self).encoder().codec().codec_tables(),
                    old(self).encoder().codec().synthesis_view(),
                    self.encoder.codec().synthesis_view(),
                    speech@,
                    synth,
                );
            assert({
                &&& decoder_input(speech@, false) == seq![0i16] + encode_step(
                    old(self).encoder().codec().codec_tables(),
                    old(self).encoder().codec().state_view(),
                    slice@,
                ).0
                &&& crate::frame::encodes(
                    old(self).encoder().codec().codec_tables(),
                    old(self).encoder().codec().synthesis_view(),
                    self.encoder.codec().synthesis_view(),
                    speech@,
                    synth,
                )
                &&& match old(self).pending() {
                    Some(first) => {
                        &&& self.pending() is None
                        &&& block matches Some(b) && b@ == block_bytes(first@, speech@)
                    },
                    None => {
                        &&& self.pending() == Some(speech)
                        &&& block is None
                    },
                }
            });
        }
        (block, ev)
    }

    /// Enforce the duration cap after a batch of slices.
    pub fn finish_process(&mut self, now: u64) -> (ev: Option<PipelineEvent>)
        ensures
            (final(self).vad(), ev) == vad_max_duration(old(self).timing(), old(self).vad(), now),
            final(self).timing() == old(self).timing(),
            final(self).buffered() == old(self).buffered(),
            final(self).pending() == old(self).pending(),
            final(self).encoder() == old(self).encoder(),
    {
        self.vad.check_max_duration(&self.timing, now)
    }

    /// Update stream-loss tracking: a speaking stream without audio for
    /// longer than `stream_loss_grace_ms` ends with `StreamLost`.
    pub fn check_stream_loss(&mut self, now: u64) -> (ev: Option<PipelineEvent>)
        ensures
            (final(self).vad(), ev) == vad_stream_loss(old(self).timing(), old(self).vad(), now),
            final(self).timing() == old(self).timing(),
            final(self).buffered() == old(self).buffered(),
            final(self).pending() == old(self).pending(),
            final(self).encoder() == old(self).encoder(),
    {
        self.vad.check_stream_loss(&self.timing, now)
    }

    /// Operator-forced stop: ends an active speech period.
    pub fn operator_stop(&mut self, now: u64) -> (ev: Option<PipelineEvent>)
        ensures
            (final(self).vad(), ev) == vad_end(old(self).vad(), EndReason::Operator),
            final(self).timing() == old(self).timing(),
            final(self).buffered() == old(self).buffered(),
            final(self).pending() == old(self).pending(),
            final(self).encoder() == old(self).encoder(),
    {
        self.vad.end_speech(EndReason::Operator)
    }

    /// Complete a pending single frame with one frame of coded silence, so
    /// speech is not cut off mid-block when a call ends.
    pub fn flush(&mut self) -> (block: Option<Vec<u8>>)
        requires
            old(self).wf(),
        ensures
            final(self).wf(),
            final(self).pending() is None,
            final(self).vad() == old(self).vad(),
            final(self).timing() == old(self).timing(),
            final(self).buffered() == old(self).buffered(),
            final(self).encoder().codec().codec_tables() == old(self).encoder().codec().codec_tables(),
            old(self).pending() is None ==> block is None && final(self).encoder() == old(self).encoder(),
            old(self).pending() is Some ==> final(self).encoder().codec().state_view() == encode_step(
                old(self).encoder().codec().codec_tables(),
                old(self).encoder().codec().state_view(),
                Seq::new(240, |i: int| 0i16),
            ).1,
            old(self).pending() matches Some(first) ==> exists|tail: SpeechFrame, synth: Seq<i16>|
                {
                    &&& decoder_input(tail@, false) == seq![0i16] + encode_step(
                        old(self).encoder().codec().codec_tables(),
                        old(self).encoder().codec().state_view(),
                        Seq::new(240, |i: int| 0i16),
                    ).0
                    &&& crate::frame::encodes(
                        old(self).encoder().codec().codec_tables(),
                        old(self).encoder().codec().synthesis_view(),
                        final(self).encoder().codec().synthesis_view(),
                        tail@,
                        synth,
                    )
                    &&& block matches Some(b) && b@ == block_bytes(first@, tail@)
                },
    {
        let pending = match self.pending_frame.take() {
            Some(p) => p,
            None => {
                return None;
            },
        };
        let silence = [0i16; 240];
        let tail = self.encoder.encode(&silence);
        let bits = SpeechFrame::tch_s_block(&pending, &tail);
        let block = Some(block_to_bytes(&bits));
        proof {
            let synth = choose|synth: Seq<i16>|
                crate::frame::encodes(
                    old(self).encoder().codec().codec_tables(),
                    old(self).encoder().codec().synthesis_view(),
                    self.encoder.codec().synthesis_view(),
                    tail@,
                    synth,
                );
            assert(silence@ =~= Seq::new(240, |i: int| 0i16));
            assert({
                &&& decoder_input(tail@, false) == seq![0i16] + encode_step(
                    old(self).encoder().codec().codec_tables(),
                    old(self).encoder().codec().state_view(),
                    Seq::new(240, |i: int| 0i16),
                ).0
                &&& crate::frame::encodes(
                    old(self).encoder().codec().codec_tables(),
                    old(self).encoder().codec().synthesis_view(),
                    self.encoder.codec().synthesis_view(),
                    tail@,
                    synth,
                )
                &&& block matches Some(b) && b@ == block_bytes(pending@, tail@)
            });
        }
        block
    }
}

} // verus!
