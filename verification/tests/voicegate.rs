//! The voice gate: VAD and block pairing, the radio call state machine,
//! and the worker's decisions.

use std::collections::VecDeque;

use tetra_acelp::tables::CodecTables;
use tetra_acelp::voicegate::entity::{
    CallControlIn, CallState, ControlDetail, ControlRequest, SlotTime, VoicegateAction,
    VoicegateEntity, FRAME_QUEUE_MAX,
};
use tetra_acelp::voicegate::pipeline::{
    EndReason, Pipeline, PipelineEvent, PipelineTiming, TCH_S_BLOCK_BITS,
};
use tetra_acelp::voicegate::worker::{
    choose_initial_label, mix_to_mono, query_separator, VoicegateCommand, VoicegateEvent,
    VoicegateWorker,
};
use tetra_acelp::announcement_control::AnnouncementRejectReason;

const TAB_LOG2: [i16; 33] = [
    0, 1455, 2866, 4236, 5568, 6863, 8124, 9352, 10549, 11716, 12855, 13967, 15054, 16117, 17156,
    18172, 19167, 20142, 21097, 22033, 22951, 23852, 24735, 25603, 26455, 27291, 28113, 28922,
    29716, 30497, 31266, 32023, 32767,
];

struct Lcg(u32);
impl Lcg {
    fn next(&mut self) -> u32 {
        self.0 = self.0.wrapping_mul(1103515245).wrapping_add(12345);
        self.0
    }
    fn range(&mut self, lo: i32, hi: i32) -> i16 {
        let span = (hi - lo + 1) as u32;
        (lo + ((self.next() >> 8) % span) as i32) as i16
    }
}

fn q15(x: f64) -> i16 {
    (x * 32768.0).round().clamp(-32768.0, 32767.0) as i16
}

fn interpolation_filter(taps: usize, frac: f64) -> Vec<i16> {
    let half = (taps / 2) as f64;
    (0..taps)
        .map(|k| {
            let t = k as f64 - half + 1.0 - frac;
            let sinc = if t.abs() < 1e-9 {
                1.0
            } else {
                (std::f64::consts::PI * t).sin() / (std::f64::consts::PI * t)
            };
            let w = 0.5 + 0.5 * (std::f64::consts::PI * t / (half + 1.0)).cos();
            q15(0.9 * sinc * w)
        })
        .collect()
}

fn table_values() -> Vec<Vec<i16>> {
    let pi = std::f64::consts::PI;
    let window: Vec<i16> = (0..256)
        .map(|n| q15(0.54 - 0.46 * (2.0 * pi * n as f64 / 255.0).cos()))
        .collect();
    let mut lag_h = Vec::new();
    let mut lag_l = Vec::new();
    for i in 1..=10 {
        let f = 2.0 * pi * 60.0 * i as f64 / 8000.0;
        let w = (-0.5 * f * f).exp();
        let v = (w * 2147483647.0) as i64;
        let hi = v >> 16;
        lag_h.push(hi as i16);
        lag_l.push(((v - (hi << 16)) >> 1) as i16);
    }
    let grid: Vec<i16> = (0..61)
        .map(|k| q15(0.99975 * (pi * k as f64 / 60.0).cos()))
        .collect();
    let mut rng = Lcg(0x5eed_1234);
    let mut codebook = |n: usize, lo: i32, hi: i32| -> Vec<i16> {
        (0..n).map(|_| rng.range(lo, hi)).collect()
    };
    let dico1 = codebook(768, -1500, 1500);
    let dico2 = codebook(1536, -1000, 1000);
    let dico3 = codebook(2048, -800, 800);
    let t_qua_ener = codebook(128, -3000, 3000);
    vec![
        window,
        lag_h,
        lag_l,
        grid,
        dico1,
        dico2,
        dico3,
        t_qua_ener,
        TAB_LOG2.to_vec(),
        interpolation_filter(8, -1.0 / 3.0),
        interpolation_filter(8, 1.0 / 3.0),
        interpolation_filter(32, -1.0 / 3.0),
        interpolation_filter(32, 1.0 / 3.0),
    ]
}

fn tables() -> CodecTables {
    CodecTables::from_values(&table_values()).expect("table shapes are right")
}


fn default_timing() -> PipelineTiming {
    PipelineTiming {
        vad_start_ms: 150,
        silence_timeout_ms: 4000,
        stream_loss_grace_ms: 15000,
        max_call_duration_secs: 600,
    }
}

fn rms_dbfs(frame: &[i16]) -> f32 {
    let sum: f64 = frame.iter().map(|s| (*s as f64) * (*s as f64)).sum();
    let rms = (sum / frame.len() as f64).sqrt();
    if rms <= 0.0 {
        f32::NEG_INFINITY
    } else {
        (20.0 * (rms / 32768.0).log10()) as f32
    }
}

/// Feed 8 kHz audio through the pipeline the way the stream worker does,
/// with the default thresholds (-40 dBFS start, -50 dBFS stop).
fn process(p: &mut Pipeline, pcm: VecDeque<i16>, now: u64) -> (Vec<Vec<u8>>, Vec<PipelineEvent>) {
    let mut blocks = Vec::new();
    let mut events = Vec::new();
    if pcm.is_empty() {
        return (blocks, events);
    }
    let audio: Vec<i16> = pcm.into_iter().collect();
    p.accept_audio(&audio, now);
    while let Some(slice) = p.next_slice() {
        let dbfs = rms_dbfs(&slice);
        let (block, ev) = p.process_slice(&slice, dbfs >= -40.0, dbfs < -50.0, now);
        if let Some(ev) = ev {
            events.push(ev);
        }
        if let Some(b) = block {
            blocks.push(b);
        }
    }
    if let Some(ev) = p.finish_process(now) {
        events.push(ev);
    }
    (blocks, events)
}

fn tone(ms: usize) -> VecDeque<i16> {
    let mut q = VecDeque::new();
    for i in 0..(8_000 * ms / 1000) {
        q.push_back(
            (20_000.0 * (2.0 * std::f64::consts::PI * 440.0 * i as f64 / 8_000.0).sin()) as i16,
        );
    }
    q
}

#[test]
fn vad_start_requires_sustained_voicing() {
    let mut p = Pipeline::new(PipelineTiming { vad_start_ms: 150, ..default_timing() }, &tables());
    // 120 ms voiced then nothing: no start.
    let (blocks, events) = process(&mut p, tone(120), 0);
    assert!(events.is_empty(), "120 ms voiced (< 150 ms) must not start speech: {events:?}");
    assert!(blocks.len() >= 1);
    // Another 60 ms voiced -> 180 ms in total -> start.
    let (_, events) = process(&mut p, tone(60), 1);
    assert_eq!(events, vec![PipelineEvent::SpeechStarted]);
    assert!(p.is_speaking());
}

#[test]
fn vad_stop_after_silence_timeout() {
    let mut p = Pipeline::new(
        PipelineTiming { vad_start_ms: 30, silence_timeout_ms: 100, ..default_timing() },
        &tables(),
    );
    let (_, events) = process(&mut p, tone(60), 0);
    assert_eq!(events, vec![PipelineEvent::SpeechStarted]);
    // 150 ms of silence (5 slices of 30 ms >= 100 ms) -> end.
    let sil: VecDeque<i16> = vec![0i16; 8_000 * 150 / 1000].into_iter().collect();
    let (_, events) = process(&mut p, sil, 1);
    assert_eq!(events, vec![PipelineEvent::SpeechEnded { reason: EndReason::Silence }]);
    assert!(!p.is_speaking());
}

#[test]
fn blocks_are_274_bits_and_encoder_state_is_consistent() {
    let mut p = Pipeline::new(default_timing(), &tables());
    let (blocks, _) = process(&mut p, tone(1000), 0);
    // 1 s = 8000 samples = 33 full frames + 80 left over -> 16 blocks.
    assert!(blocks.len() >= 15, "expected ~16 TCH/S blocks per second, got {}", blocks.len());
    for b in &blocks {
        assert_eq!(b.len(), TCH_S_BLOCK_BITS, "each TCH/S block must be 274 one-bit-per-byte");
        assert!(b.iter().all(|&x| x == 0 || x == 1));
    }
    let flushed = p.flush();
    assert!(flushed.is_some(), "odd frame count must flush a final block");
    assert_eq!(flushed.unwrap().len(), TCH_S_BLOCK_BITS);
    assert!(p.flush().is_none());
}

#[test]
fn operator_stop_ends_speech_period() {
    let mut p = Pipeline::new(PipelineTiming { vad_start_ms: 30, ..default_timing() }, &tables());
    let (_, events) = process(&mut p, tone(60), 0);
    assert_eq!(events, vec![PipelineEvent::SpeechStarted]);
    assert_eq!(
        p.operator_stop(5),
        Some(PipelineEvent::SpeechEnded { reason: EndReason::Operator })
    );
    assert!(!p.is_speaking());
    // A second operator stop is a no-op.
    assert_eq!(p.operator_stop(6), None);
}

#[test]
fn stream_loss_ends_speech_after_grace() {
    let t = PipelineTiming { vad_start_ms: 30, stream_loss_grace_ms: 1000, ..default_timing() };
    let mut p = Pipeline::new(t, &tables());
    let (_, events) = process(&mut p, tone(60), 1_000_000_000);
    assert_eq!(events, vec![PipelineEvent::SpeechStarted]);
    // Exactly the grace period is tolerated.
    assert_eq!(p.check_stream_loss(2_000_000_000), None);
    assert_eq!(
        p.check_stream_loss(2_000_000_001),
        Some(PipelineEvent::SpeechEnded { reason: EndReason::StreamLost })
    );
    assert_eq!(p.check_stream_loss(9_000_000_000), None);
}

#[test]
fn max_duration_caps_a_speech_period() {
    let t = PipelineTiming { vad_start_ms: 30, max_call_duration_secs: 30, ..default_timing() };
    let mut p = Pipeline::new(t, &tables());
    let (_, events) = process(&mut p, tone(60), 0);
    assert_eq!(events, vec![PipelineEvent::SpeechStarted]);
    let (_, events) = process(&mut p, tone(30), 29_999_999_999);
    assert!(events.is_empty());
    let (_, events) = process(&mut p, tone(30), 30_000_000_000);
    assert_eq!(events, vec![PipelineEvent::SpeechEnded { reason: EndReason::MaxDuration }]);
}

#[test]
fn vad_counts_saturate_and_reset() {
    let t = PipelineTiming { vad_start_ms: 90, silence_timeout_ms: 60, ..default_timing() };
    let mut p = Pipeline::new(t, &tables());
    let slice = [0i16; 240];
    // Two voiced slices, an unvoiced one resets the count.
    assert_eq!(p.process_slice(&slice, true, false, 0).1, None);
    assert_eq!(p.process_slice(&slice, true, false, 0).1, None);
    assert_eq!(p.process_slice(&slice, false, false, 0).1, None);
    assert_eq!(p.vad_state().voiced_ms, 0);
    assert_eq!(p.process_slice(&slice, true, false, 0).1, None);
    assert_eq!(p.process_slice(&slice, true, false, 0).1, None);
    assert_eq!(p.process_slice(&slice, true, false, 7).1, Some(PipelineEvent::SpeechStarted));
    assert_eq!(p.vad_state().speech_started_at, Some(7));
    // One quiet slice, then a loud one resets the silence count.
    assert_eq!(p.process_slice(&slice, false, true, 8).1, None);
    assert_eq!(p.process_slice(&slice, false, false, 8).1, None);
    assert_eq!(p.process_slice(&slice, false, true, 8).1, None);
    assert_eq!(
        p.process_slice(&slice, false, true, 9).1,
        Some(PipelineEvent::SpeechEnded { reason: EndReason::Silence })
    );
}

const ANN_GSSI: u32 = 500;
const ANN_ISSI: u32 = 55_000;

fn slot(h: u16, m: u8, f: u8, t: u8) -> SlotTime {
    SlotTime { h, m, f, t }
}

fn test_entity() -> VoicegateEntity {
    VoicegateEntity::new("main".to_string(), Some((ANN_GSSI, ANN_ISSI)))
}

fn tick(e: &mut VoicegateEntity, ts: SlotTime, events: Vec<VoicegateEvent>) -> Vec<VoicegateAction> {
    let mut out = Vec::new();
    e.tick_start(ts, events, Vec::new(), &mut out);
    out
}

fn ready(call_id: u16, ts: u8) -> CallControlIn {
    CallControlIn::AnnouncementReady { gssi: ANN_GSSI, call_id, ts, usage: 4 }
}

fn data_on(actions: &[VoicegateAction], ts: u8) -> usize {
    actions
        .iter()
        .filter(|a| matches!(a, VoicegateAction::CircuitData { ts: t, .. } if *t == ts))
        .count()
}

fn speak(e: &mut VoicegateEntity) {
    let _ = tick(e, slot(0, 0, 1, 1), vec![VoicegateEvent::Pipeline(PipelineEvent::SpeechStarted)]);
    let mut out = Vec::new();
    e.rx_call_control(ready(42, 2), &mut out);
}

#[test]
fn voicegate_speech_start_requests_call_and_ready_feeds_frames() {
    let mut e = test_entity();
    assert_eq!(e.state(), CallState::Idle);

    let msgs = tick(&mut e, slot(0, 0, 1, 1), vec![VoicegateEvent::Pipeline(PipelineEvent::SpeechStarted)]);
    assert_eq!(e.state(), CallState::Starting { since: slot(0, 0, 1, 1) });
    assert!(msgs.iter().any(|a| matches!(a,
        VoicegateAction::AnnouncementStart { gssi, issi } if *gssi == ANN_GSSI && *issi == ANN_ISSI)));

    let mut out = Vec::new();
    e.rx_call_control(ready(42, 2), &mut out);
    assert_eq!(e.state(), CallState::Speaking { call_id: 42, ts: 2, usage: 4 });

    let block: Vec<u8> = vec![0u8; 274];
    let msgs = tick(
        &mut e,
        slot(0, 0, 1, 2),
        vec![VoicegateEvent::Frame(block.clone()), VoicegateEvent::Frame(block.clone())],
    );
    assert_eq!(data_on(&msgs, 2), 1, "one block per timeslot");
    let msgs = tick(&mut e, slot(0, 0, 2, 2), vec![]);
    assert_eq!(data_on(&msgs, 2), 1);

    // Frame 18 is not fed.
    let msgs = tick(&mut e, slot(0, 0, 18, 2), vec![VoicegateEvent::Frame(block.clone())]);
    assert_eq!(data_on(&msgs, 2), 0, "frame 18 must not carry announcement media");
}

#[test]
fn voicegate_speech_end_stops_call_and_ended_returns_idle() {
    let mut e = test_entity();
    speak(&mut e);
    assert_eq!(e.state(), CallState::Speaking { call_id: 42, ts: 2, usage: 4 });

    let msgs = tick(
        &mut e,
        slot(0, 0, 1, 1),
        vec![VoicegateEvent::Pipeline(PipelineEvent::SpeechEnded { reason: EndReason::Silence })],
    );
    assert_eq!(e.state(), CallState::Stopping);
    assert!(msgs.iter().any(|a| matches!(a, VoicegateAction::AnnouncementStop { gssi } if *gssi == ANN_GSSI)));

    let mut out = Vec::new();
    e.rx_call_control(CallControlIn::AnnouncementEnded { gssi: ANN_GSSI, call_id: 42 }, &mut out);
    assert_eq!(e.state(), CallState::Idle);
}

#[test]
fn voicegate_rejection_goes_idle_and_late_ready_re_stops() {
    let mut e = test_entity();
    let _ = tick(&mut e, slot(0, 0, 1, 1), vec![VoicegateEvent::Pipeline(PipelineEvent::SpeechStarted)]);

    let mut out = Vec::new();
    e.rx_call_control(
        CallControlIn::AnnouncementRejected {
            gssi: ANN_GSSI,
            reason: AnnouncementRejectReason::NoLocalListener,
        },
        &mut out,
    );
    assert_eq!(e.state(), CallState::Idle);

    // A late Ready while idle must re-send a stop.
    let mut out = Vec::new();
    e.rx_call_control(ready(9, 2), &mut out);
    assert_eq!(e.state(), CallState::Idle);
    assert!(out.iter().any(|a| matches!(a, VoicegateAction::AnnouncementStop { gssi } if *gssi == ANN_GSSI)));
}

fn from_ordinal(n: i64) -> SlotTime {
    // Inverse of the timeslot count for t in 1..=4, f in 1..=18.
    let t = ((n - 1) % 4 + 1) as u8;
    let rest = (n - t as i64) / 4;
    let f = ((rest - 1) % 18 + 1) as u8;
    let m = ((rest - f as i64) / 18) as u8;
    slot(0, m, f, t)
}

#[test]
fn voicegate_start_timeout_goes_idle() {
    let mut e = test_entity();
    let _ = tick(&mut e, slot(0, 0, 1, 1), vec![VoicegateEvent::Pipeline(PipelineEvent::SpeechStarted)]);
    assert_eq!(e.state(), CallState::Starting { since: slot(0, 0, 1, 1) });

    let start = slot(0, 0, 2, 2);
    let base = slot(0, 0, 1, 1).age(start) + 5;
    assert_eq!(from_ordinal(base), start);
    for k in 0..150 {
        let ts = from_ordinal(base + k);
        let _ = tick(&mut e, ts, vec![]);
    }
    assert_eq!(e.state(), CallState::Idle);
}

#[test]
fn start_timeout_is_exactly_144_timeslots() {
    let mut e = test_entity();
    let since = slot(0, 0, 1, 1);
    let _ = tick(&mut e, since, vec![VoicegateEvent::Pipeline(PipelineEvent::SpeechStarted)]);
    let _ = tick(&mut e, from_ordinal(5 + 143), vec![]);
    assert!(matches!(e.state(), CallState::Starting { .. }));
    let _ = tick(&mut e, from_ordinal(5 + 144), vec![]);
    assert_eq!(e.state(), CallState::Idle);
}

#[test]
fn voicegate_control_stop_sends_force_stop_to_worker() {
    let mut e = test_entity();
    speak(&mut e);
    assert_eq!(e.state(), CallState::Speaking { call_id: 42, ts: 2, usage: 4 });

    let mut out = Vec::new();
    e.tick_start(slot(0, 0, 1, 1), vec![], vec![ControlRequest::VoicegateStop { handle: 1 }], &mut out);
    assert!(out.iter().any(|a| matches!(a, VoicegateAction::Worker(VoicegateCommand::ForceStop))));
    assert!(out.iter().any(|a| matches!(a,
        VoicegateAction::Respond { handle: 1, ok: true, detail: ControlDetail::StopRequested })));
}

#[test]
fn control_commands_answer_by_state() {
    let mut e = test_entity();
    let mut out = Vec::new();
    e.handle_control(ControlRequest::VoicegateStop { handle: 3 }, &mut out);
    assert!(matches!(out.last(), Some(VoicegateAction::Respond { handle: 3, ok: false, detail: ControlDetail::NoActiveAnnouncement })));
    out.clear();
    e.handle_control(ControlRequest::VoicegateStart { handle: 4 }, &mut out);
    assert!(matches!(out[0], VoicegateAction::AnnouncementStart { .. }));
    assert!(matches!(out.last(), Some(VoicegateAction::Respond { handle: 4, ok: true, detail: ControlDetail::StartRequested })));
    out.clear();
    e.handle_control(ControlRequest::VoicegateStart { handle: 5 }, &mut out);
    assert!(matches!(out.last(), Some(VoicegateAction::Respond { handle: 5, ok: true, detail: ControlDetail::AlreadyActive })));
    out.clear();
    e.handle_event(VoicegateEvent::Pipeline(PipelineEvent::SpeechEnded { reason: EndReason::Operator }), &mut out);
    assert_eq!(e.state(), CallState::Stopping);
    out.clear();
    e.handle_control(ControlRequest::VoicegateStart { handle: 6 }, &mut out);
    assert!(matches!(out.last(), Some(VoicegateAction::Respond { handle: 6, ok: false, detail: ControlDetail::StoppingTryLater })));
    out.clear();
    e.handle_control(ControlRequest::VoicegateSelectStream { handle: 7, label: "b".to_string() }, &mut out);
    assert!(matches!(&out[0], VoicegateAction::SelectStream { handle: 7, label } if label == "b"));
}

#[test]
fn frame_queue_is_bounded_and_fifo() {
    let mut e = test_entity();
    speak(&mut e);
    let mut out = Vec::new();
    for k in 0..(FRAME_QUEUE_MAX + 10) {
        e.handle_event(VoicegateEvent::Frame(vec![(k % 251) as u8]), &mut out);
    }
    // The oldest ten were dropped: the first block out is block 10.
    let msgs = tick(&mut e, slot(0, 0, 3, 2), vec![]);
    match &msgs[..] {
        [VoicegateAction::CircuitData { ts: 2, data }] => assert_eq!(data, &vec![10u8]),
        other => panic!("expected one block, got {other:?}"),
    }
    // Nothing on another timeslot.
    assert!(tick(&mut e, slot(0, 0, 3, 3), vec![]).is_empty());
}

#[test]
fn state_changes_are_published_once() {
    let mut e = test_entity();
    let msgs = tick(&mut e, slot(0, 0, 1, 1), vec![VoicegateEvent::Pipeline(PipelineEvent::SpeechStarted)]);
    let published: Vec<u8> = msgs
        .iter()
        .filter_map(|a| match a {
            VoicegateAction::PublishState { state, .. } => Some(*state),
            _ => None,
        })
        .collect();
    assert_eq!(published, vec![1]);
    let mut out = Vec::new();
    e.handle_event(VoicegateEvent::StreamStatus { stream: "backup".to_string(), connected: true }, &mut out);
    assert!(out.is_empty());
    assert_eq!(e.active_stream(), "backup");
    e.rx_call_control(ready(7, 3), &mut out);
    assert!(matches!(&out[0], VoicegateAction::PublishState { state: 2, stream, call_id: Some(7), ts: Some(3) } if stream == "backup"));
    assert_eq!(CallState::Stopping.as_u8(), 3);
}

#[test]
fn worker_initial_label_and_commands() {
    let labels = vec!["a".to_string(), "b".to_string()];
    assert_eq!(choose_initial_label(&labels, &"b".to_string()), "b");
    assert_eq!(choose_initial_label(&labels, &"zz".to_string()), "a");
    assert_eq!(choose_initial_label(&vec![], &"zz".to_string()), "");

    let t = PipelineTiming { vad_start_ms: 30, ..default_timing() };
    let mut w = VoicegateWorker::new(labels, &"b".to_string(), t, &tables());
    assert_eq!(w.active_label(), "b");
    assert_eq!(w.apply_command(VoicegateCommand::SelectStream { label: "nope".to_string() }), None);
    assert_eq!(w.active_label(), "b");
    assert_eq!(w.apply_command(VoicegateCommand::SelectStream { label: "a".to_string() }), None);
    assert_eq!(w.active_label(), "a");
    assert_eq!(w.apply_command(VoicegateCommand::ForceStop), None);
    let (_, events) = process(w.pipeline_mut(), tone(60), 0);
    assert_eq!(events, vec![PipelineEvent::SpeechStarted]);
    assert_eq!(
        w.apply_command(VoicegateCommand::ForceStop),
        Some(PipelineEvent::SpeechEnded { reason: EndReason::Operator })
    );
    assert!(!w.is_shut_down());
    assert_eq!(w.apply_command(VoicegateCommand::Shutdown), None);
    assert!(w.is_shut_down());
}

#[test]
fn mono_mix_and_query_separator() {
    let l = vec![100i16, -101, 7];
    let r = vec![200i16, -100];
    assert_eq!(mix_to_mono(&vec![l.clone(), r.clone()], 3, 2), vec![150, -100, 3]);
    assert_eq!(mix_to_mono(&vec![l.clone()], 2, 1), vec![100, -101]);
    assert_eq!(mix_to_mono(&vec![l.clone()], 9, 1), l);
    assert!(mix_to_mono(&vec![l.clone()], 3, 2).is_empty());
    assert!(mix_to_mono(&vec![l.clone(), r.clone()], 0, 2).is_empty());
    assert_eq!(mix_to_mono(&vec![vec![32767, -32768], vec![32767, -32768]], 2, 2), vec![32767, -32768]);
    assert_eq!(query_separator("http://x/s.mp3"), '?');
    assert_eq!(query_separator("http://x/s.mp3?a=1"), '&');
}

#[test]
fn new_identity_is_used_for_the_next_start_request() {
    let mut e = test_entity();
    e.set_identity(Some((600, 66_000)));
    let msgs = tick(&mut e, slot(0, 0, 1, 1), vec![VoicegateEvent::Pipeline(PipelineEvent::SpeechStarted)]);
    assert!(msgs.iter().any(|a| matches!(a,
        VoicegateAction::AnnouncementStart { gssi, issi } if *gssi == 600 && *issi == 66_000)));
}
