//! The stream worker's messages and decisions.

use crate::tables::CodecTables;
use crate::voicegate::pipeline::{vad_end, vad_stream_loss, EndReason, Pipeline, PipelineEvent, PipelineTiming};
use vstd::prelude::*;
use vstd::string::StringSliceAdditionalSpecFns;

verus! {

/// Events from the worker to the entity.
#[derive(Debug)]
pub enum VoicegateEvent {
    /// A completed 274-bit TCH/S block (one byte per bit, MSB first).
    Frame(Vec<u8>),
    /// A VAD event (speech start or end).
    Pipeline(PipelineEvent),
    /// Stream connection state change.
    StreamStatus { stream: String, connected: bool },
}

/// Commands from the entity to the worker.
#[derive(Debug, Clone)]
pub enum VoicegateCommand {
    /// Switch the active stream (the label must be configured).
    SelectStream { label: String },
    /// Operator-forced stop of the current speech period.
    ForceStop,
    /// Terminate the worker loop.
    Shutdown,
}

/// The label a worker starts with: the configured active stream if it is
/// one of the labels, else the first label, else empty.
pub open spec fn initial_label(labels: Seq<Seq<char>>, active: Seq<char>) -> Seq<char> {
    if labels.contains(active) {
        active
    } else if labels.len() > 0 {
        labels[0]
    } else {
        Seq::empty()
    }
}

/// Whether `label` is one of `labels`.
fn contains_label(labels: &Vec<String>, label: &String) -> (b: bool)
    ensures
        b == labels@.map_values(|l: String| l@).contains(label@),
{
    let ghost views = labels@.map_values(|l: String| l@);
    let mut i: usize = 0;
    while i < labels.len()
        invariant
            i <= labels@.len(),
            views == labels@.map_values(|l: String| l@),
            forall|k: int| 0 <= k < i ==> views[k] != label@,
        decreases labels@.len() - i,
    {
        if labels[i] == *label {
            assert(views[i as int] == label@);
            return true;
        }
        i = i + 1;
    }
    false
}

/// The label a worker starts with (see [`initial_label`]).
pub fn choose_initial_label(labels: &Vec<String>, active: &String) -> (l: String)
    ensures
        l@ == initial_label(labels@.map_values(|s: String| s@), active@),
{
    if contains_label(labels, active) {
        active.clone()
    } else if labels.len() > 0 {
        labels[0].clone()
    } else {
        String::new()
    }
}

/// The separator that appends a query parameter to `url`: `&` when the
/// URL already has a query, else `?`.
pub fn query_separator(url: &str) -> (c: char)
    ensures
        c == if url.spec_bytes().contains(63u8) {
            '&'
        } else {
            '?'
        },
{
    let b = url.as_bytes();
    let mut i: usize = 0;
    while i < b.len()
        invariant
            i <= b@.len(),
            b@ == url.spec_bytes(),
            forall|k: int| 0 <= k < i ==> b@[k] != 63u8,
        decreases b@.len() - i,
    {
        if b[i] == 63u8 {
            assert(b@[i as int] == 63u8);
            return '&';
        }
        i = i + 1;
    }
    '?'
}

/// The mean of two channel samples, rounded toward zero.
pub open spec fn mean_sample(l: int, r: int) -> i16 {
    let s = l + r;
    (if s >= 0 {
        s / 2
    } else {
        -((-s) / 2)
    }) as i16
}

/// A sample of a channel plane, zero past its end.
pub open spec fn plane_sample(p: Seq<i16>, i: int) -> int {
    if i < p.len() {
        p[i] as int
    } else {
        0
    }
}

/// Mono audio from decoded channel planes: nothing without frames or
/// channels; the first plane's first `frames` samples for one channel;
/// otherwise the mean of the first two planes, sample by sample (a missing
/// sample counts as zero; nothing when a plane is missing).
pub open spec fn mono_mix(planes: Seq<Seq<i16>>, frames: int, channels: int) -> Seq<i16> {
    if frames == 0 || channels == 0 {
        Seq::empty()
    } else if channels <= 1 {
        if planes.len() == 0 {
            Seq::empty()
        } else {
            planes[0].take(if frames < planes[0].len() { frames } else { planes[0].len() as int })
        }
    } else if planes.len() < 2 {
        Seq::empty()
    } else {
        Seq::new(frames as nat, |i: int| mean_sample(plane_sample(planes[0], i), plane_sample(planes[1], i)))
    }
}

fn sample_at(p: &Vec<i16>, i: usize) -> (s: i32)
    ensures
        s == plane_sample(p@, i as int),
{
    if i < p.len() {
        p[i] as i32
    } else {
        0
    }
}

/// Mix decoded channel planes (already converted to 16-bit) down to mono
/// (see [`mono_mix`]).
pub fn mix_to_mono(planes: &Vec<Vec<i16>>, frames: usize, channels: usize) -> (out: Vec<i16>)
    ensures
        out@ == mono_mix(planes@.map_values(|p: Vec<i16>| p@), frames as int, channels as int),
{
    let ghost pv = planes@.map_values(|p: Vec<i16>| p@);
    let mut out: Vec<i16> = Vec::new();
    if frames == 0 || channels == 0 {
        return out;
    }
    if channels <= 1 {
        if planes.len() == 0 {
            return out;
        }
        let p = &planes[0];
        let n = if frames < p.len() {
            frames
        } else {
            p.len()
        };
        let mut i: usize = 0;
        while i < n
            invariant
                i <= n,
                n <= p@.len(),
                out@ == p@.take(i as int),
            decreases n - i,
        {
            out.push(p[i]);
            i = i + 1;
            proof {
                assert(p@.take(i as int) =~= p@.take(i - 1).push(p@[i - 1]));
            }
        }
        assert(pv[0] == p@);
        return out;
    }
    if planes.len() < 2 {
        return out;
    }
    let l = &planes[0];
    let r = &planes[1];
    let mut i: usize = 0;
    while i < frames
        invariant
            i <= frames,
            pv == planes@.map_values(|p: Vec<i16>| p@),
            planes@.len() >= 2,
            *l == planes@[0],
            *r == planes@[1],
            out@.len() == i,
            forall|k: int|
                0 <= k < i ==> #[trigger] out@[k] == mean_sample(
                    plane_sample(pv[0], k),
                    plane_sample(pv[1], k),
                ),
        decreases frames - i,
    {
        let li = sample_at(l, i);
        let ri = sample_at(r, i);
        let m = (li + ri) / 2;
        proof {
            let s = li + ri;
            if s >= 0 {
                assert(m == s / 2);
            } else {
                assert(m == -((-s) / 2));
            }
        }
        out.push(m as i16);
        i = i + 1;
    }
    assert(out@ =~= mono_mix(pv, frames as int, channels as int));
    out
}

/// The worker's decisions around the pipeline: which stream is active,
/// operator commands, and when to stop.
pub struct VoicegateWorker {
    pipeline: Pipeline,
    active_label: String,
    configured_labels: Vec<String>,
    shutdown: bool,
}

impl VoicegateWorker {
    /// The pipeline.
    pub closed spec fn pipeline(&self) -> Pipeline {
        self.pipeline
    }

    /// The label of the stream in use.
    pub closed spec fn active(&self) -> Seq<char> {
        self.active_label@
    }

    /// The configured stream labels.
    pub closed spec fn labels(&self) -> Seq<Seq<char>> {
        self.configured_labels@.map_values(|l: String| l@)
    }

    /// Whether the worker has been told to stop.
    pub closed spec fn stopped(&self) -> bool {
        self.shutdown
    }

    /// A worker for the configured stream labels, starting on the active
    /// one (see [`initial_label`]).
    pub fn new(labels: Vec<String>, active: &String, timing: PipelineTiming, tables: &CodecTables) -> (w: Self)
        ensures
            w.pipeline().wf(),
            w.pipeline().timing() == timing,
            w.pipeline().vad() == crate::voicegate::pipeline::vad_initial(),
            w.pipeline().pending() is None,
            w.pipeline().buffered() == Seq::<i16>::empty(),
            w.labels() == labels@.map_values(|l: String| l@),
            w.active() == initial_label(labels@.map_values(|l: String| l@), active@),
            !w.stopped(),
    {
        let active_label = choose_initial_label(&labels, active);
        VoicegateWorker {
            pipeline: Pipeline::new(timing, tables),
            active_label,
            configured_labels: labels,
            shutdown: false,
        }
    }

    /// The label of the stream in use.
    pub fn active_label(&self) -> (l: &str)
        ensures
            l@ == self.active(),
    {
        self.active_label.as_str()
    }

    /// Whether the worker has been told to stop.
    pub fn is_shut_down(&self) -> (b: bool)
        ensures
            b == self.stopped(),
    {
        self.shutdown
    }

    /// The pipeline, for feeding audio.
    pub fn pipeline_mut(&mut self) -> (p: &mut Pipeline)
        ensures
            *p == old(self).pipeline(),
            final(self).pipeline() == *final(p),
            final(self).active() == old(self).active(),
            final(self).labels() == old(self).labels(),
            final(self).stopped() == old(self).stopped(),
    {
        &mut self.pipeline
    }

    /// Apply one operator command: a known label becomes the active stream
    /// (an unknown one is ignored), a forced stop ends the speech period
    /// (the event to report is returned), and shutdown stops the worker.
    pub fn apply_command(&mut self, cmd: VoicegateCommand) -> (ev: Option<PipelineEvent>)
        ensures
            final(self).labels() == old(self).labels(),
            final(self).pipeline().timing() == old(self).pipeline().timing(),
            final(self).pipeline().buffered() == old(self).pipeline().buffered(),
            final(self).pipeline().pending() == old(self).pipeline().pending(),
            final(self).pipeline().encoder() == old(self).pipeline().encoder(),
            match cmd {
                VoicegateCommand::SelectStream { label } => {
                    &&& final(self).active() == (if old(self).labels().contains(label@) {
                        label@
                    } else {
                        old(self).active()
                    })
                    &&& final(self).pipeline().vad() == old(self).pipeline().vad()
                    &&& ev is None
                    &&& final(self).stopped() == old(self).stopped()
                },
                VoicegateCommand::ForceStop => {
                    &&& (final(self).pipeline().vad(), ev) == vad_end(
                        old(self).pipeline().vad(),
                        EndReason::Operator,
                    )
                    &&& final(self).active() == old(self).active()
                    &&& final(self).stopped() == old(self).stopped()
                },
                VoicegateCommand::Shutdown => {
                    &&& final(self).stopped()
                    &&& final(self).active() == old(self).active()
                    &&& final(self).pipeline().vad() == old(self).pipeline().vad()
                    &&& ev is None
                },
            },
    {
        match cmd {
            VoicegateCommand::SelectStream { label } => {
                if contains_label(&self.configured_labels, &label) {
                    self.active_label = label;
                }
                None
            },
            VoicegateCommand::ForceStop => self.pipeline.operator_stop(0),
            VoicegateCommand::Shutdown => {
                self.shutdown = true;
                None
            },
        }
    }

    /// The channel to the entity is gone: stop.
    pub fn disconnect(&mut self)
        ensures
            final(self).stopped(),
            final(self).pipeline() == old(self).pipeline(),
            final(self).active() == old(self).active(),
            final(self).labels() == old(self).labels(),
    {
        self.shutdown = true;
    }

    /// End a speaking call whose audio source was lost (called before
    /// each reconnect).
    pub fn report_stream_loss(&mut self, now: u64) -> (ev: Option<PipelineEvent>)
        ensures
            (final(self).pipeline().vad(), ev) == vad_stream_loss(
                old(self).pipeline().timing(),
                old(self).pipeline().vad(),
                now,
            ),
            final(self).pipeline().timing() == old(self).pipeline().timing(),
            final(self).active() == old(self).active(),
            final(self).labels() == old(self).labels(),
            final(self).stopped() == old(self).stopped(),
    {
        self.pipeline.check_stream_loss(now)
    }
}

} // verus!
