//! The voice gate's radio call state machine.
//!
//! While speech is detected on the stream, the voice gate asks call control to
//! start a group call on the announcement talk group and feeds the downlink
//! with paced 274-bit TCH/S blocks until silence, stream loss, operator
//! stop or the duration cap. Every input (worker event, call control
//! primitive, operator command, timeslot tick) is a step from one state to
//! the next that appends the resulting actions, in order, to an outbox the
//! caller performs.

use crate::announcement_control::AnnouncementRejectReason;
use crate::voicegate::pipeline::PipelineEvent;
use crate::voicegate::worker::{VoicegateCommand, VoicegateEvent};
use vstd::prelude::*;

verus! {

/// Pending TCH/S blocks kept while the floor is granted (about 30 s);
/// overflow drops the oldest to keep latency low.
pub const FRAME_QUEUE_MAX: usize = 512;

/// A call start that is not confirmed within this many timeslots (2 s) is
/// given up.
pub const START_TIMEOUT: i64 = 144;

/// A TDMA time: hyperframe, multiframe, frame (18 is the control frame)
/// and timeslot (1-4).
#[derive(Clone, Copy, Debug, PartialEq, Eq, Structural)]
pub struct SlotTime {
    pub h: u16,
    pub m: u8,
    pub f: u8,
    pub t: u8,
}

/// The position of a TDMA time on the timeslot count.
pub open spec fn slot_ordinal(x: SlotTime) -> int {
    ((x.h as int * 60 + x.m as int) * 18 + x.f as int) * 4 + x.t as int
}

impl SlotTime {
    /// Timeslots from `self` to `later` (negative when `later` is earlier).
    pub fn age(&self, later: SlotTime) -> (a: i64)
        ensures
            a == slot_ordinal(later) - slot_ordinal(*self),
    {
        let x: i64 = ((self.h as i64 * 60 + self.m as i64) * 18 + self.f as i64) * 4 + self.t as i64;
        let y: i64 = ((later.h as i64 * 60 + later.m as i64) * 18 + later.f as i64) * 4
            + later.t as i64;
        y - x
    }
}

/// Radio call state of the voice gate.
#[derive(Clone, Copy, Debug, PartialEq, Eq, Structural)]
pub enum CallState {
    /// No radio call; waiting for speech on the stream.
    Idle,
    /// Start requested; waiting for the floor (or a rejection).
    Starting { since: SlotTime },
    /// Floor granted; feeding downlink voice frames.
    Speaking { call_id: u16, ts: u8, usage: u8 },
    /// Stop requested; waiting for the call to end.
    Stopping,
}

/// The state's number on the dashboard.
pub open spec fn state_number(s: CallState) -> u8 {
    match s {
        CallState::Idle => 0,
        CallState::Starting { .. } => 1,
        CallState::Speaking { .. } => 2,
        CallState::Stopping => 3,
    }
}

impl CallState {
    /// The state's number on the dashboard.
    pub fn as_u8(self) -> (n: u8)
        ensures
            n == state_number(self),
    {
        match self {
            CallState::Idle => 0,
            CallState::Starting { .. } => 1,
            CallState::Speaking { .. } => 2,
            CallState::Stopping => 3,
        }
    }
}

/// Call control primitives the voice gate receives.
#[derive(Clone, Copy, Debug, PartialEq, Eq, Structural)]
pub enum CallControlIn {
    /// The announcement call is set up and the floor is the voice gate's.
    AnnouncementReady { gssi: u32, call_id: u16, ts: u8, usage: u8 },
    /// The start request was refused.
    AnnouncementRejected { gssi: u32, reason: AnnouncementRejectReason },
    /// The announcement call has ended.
    AnnouncementEnded { gssi: u32, call_id: u16 },
    /// Any other primitive (ignored).
    Other,
}

/// Operator commands the voice gate answers.
#[derive(Clone, Debug)]
pub enum ControlRequest {
    VoicegateStart { handle: u64 },
    VoicegateStop { handle: u64 },
    VoicegateSelectStream { handle: u64, label: String },
    /// Any other command (ignored).
    Other,
}

/// What an operator response says.
#[derive(Clone, Copy, Debug, PartialEq, Eq, Structural)]
pub enum ControlDetail {
    StartRequested,
    AlreadyActive,
    StoppingTryLater,
    StopRequested,
    NoActiveAnnouncement,
}

/// What the caller must do, in order.
#[derive(Clone, Debug)]
pub enum VoicegateAction {
    /// Ask call control to start the announcement call.
    AnnouncementStart { gssi: u32, issi: u32 },
    /// Ask call control to release the announcement call.
    AnnouncementStop { gssi: u32 },
    /// Send one TCH/S block on the downlink timeslot.
    CircuitData { ts: u8, data: Vec<u8> },
    /// Send a command to the stream worker.
    Worker(VoicegateCommand),
    /// Forward a stream selection to the worker, and answer the operator
    /// with whether the worker could be reached.
    SelectStream { handle: u64, label: String },
    /// Answer an operator command.
    Respond { handle: u64, ok: bool, detail: ControlDetail },
    /// Publish a changed state to telemetry and the dashboard.
    PublishState { state: u8, stream: String, call_id: Option<u16>, ts: Option<u8> },
}

/// An action as plain values.
pub ghost enum ActionView {
    Start { gssi: u32, issi: u32 },
    Stop { gssi: u32 },
    Data { ts: u8, data: Seq<u8> },
    ForceStop,
    Select { handle: u64, label: Seq<char> },
    Respond { handle: u64, ok: bool, detail: ControlDetail },
    Publish { state: u8, stream: Seq<char>, call_id: Option<u16>, ts: Option<u8> },
    Other,
}

/// An action as plain values.
pub open spec fn action_view(a: VoicegateAction) -> ActionView {
    match a {
        VoicegateAction::AnnouncementStart { gssi, issi } => ActionView::Start { gssi, issi },
        VoicegateAction::AnnouncementStop { gssi } => ActionView::Stop { gssi },
        VoicegateAction::CircuitData { ts, data } => ActionView::Data { ts, data: data@ },
        VoicegateAction::Worker(VoicegateCommand::ForceStop) => ActionView::ForceStop,
        VoicegateAction::Worker(_) => ActionView::Other,
        VoicegateAction::SelectStream { handle, label } => ActionView::Select {
            handle,
            label: label@,
        },
        VoicegateAction::Respond { handle, ok, detail } => ActionView::Respond { handle, ok, detail },
        VoicegateAction::PublishState { state, stream, call_id, ts } => ActionView::Publish {
            state,
            stream: stream@,
            call_id,
            ts,
        },
    }
}

/// A sequence of actions as plain values.
pub open spec fn actions_view(v: Seq<VoicegateAction>) -> Seq<ActionView> {
    v.map_values(|a: VoicegateAction| action_view(a))
}

/// The voice gate as plain values.
pub ghost struct EntityModel {
    pub state: CallState,
    pub queue: Seq<Seq<u8>>,
    pub stream: Seq<char>,
    pub last_state: u8,
    pub dltime: SlotTime,
    pub gssi: u32,
    pub issi: u32,
}

/// Publish the state if its number changed since the last publication.
pub open spec fn publish(m: EntityModel) -> (EntityModel, Seq<ActionView>) {
    let n = state_number(m.state);
    if n == m.last_state {
        (m, Seq::empty())
    } else {
        (
            EntityModel { last_state: n, ..m },
            seq![
                ActionView::Publish {
                    state: n,
                    stream: m.stream,
                    call_id: match m.state {
                        CallState::Speaking { call_id, .. } => Some(call_id),
                        _ => None,
                    },
                    ts: match m.state {
                        CallState::Speaking { ts, .. } => Some(ts),
                        _ => None,
                    },
                },
            ],
        )
    }
}

/// Move to `state` and publish it.
pub open spec fn enter(m: EntityModel, state: CallState) -> (EntityModel, Seq<ActionView>) {
    publish(EntityModel { state, ..m })
}

/// Request the call start and wait for it.
pub open spec fn start_call(m: EntityModel) -> (EntityModel, Seq<ActionView>) {
    let (m2, a) = enter(m, CallState::Starting { since: m.dltime });
    (m2, seq![ActionView::Start { gssi: m.gssi, issi: m.issi }] + a)
}

/// Drop the queued blocks, request the call release and wait for it.
pub open spec fn stop_call(m: EntityModel) -> (EntityModel, Seq<ActionView>) {
    let (m2, a) = enter(EntityModel { queue: Seq::empty(), ..m }, CallState::Stopping);
    (m2, seq![ActionView::Stop { gssi: m.gssi }] + a)
}

/// A worker event.
pub open spec fn event_step(m: EntityModel, ev: VoicegateEvent) -> (EntityModel, Seq<ActionView>) {
    match ev {
        VoicegateEvent::Frame(block) => if m.state is Speaking {
            let q = if m.queue.len() >= FRAME_QUEUE_MAX {
                m.queue.drop_first()
            } else {
                m.queue
            };
            (EntityModel { queue: q.push(block@), ..m }, Seq::empty())
        } else {
            (m, Seq::empty())
        },
        VoicegateEvent::Pipeline(PipelineEvent::SpeechStarted) => if m.state is Idle {
            start_call(m)
        } else {
            (m, Seq::empty())
        },
        VoicegateEvent::Pipeline(PipelineEvent::SpeechEnded { .. }) => if m.state is Speaking
            || m.state is Starting {
            stop_call(m)
        } else {
            (m, Seq::empty())
        },
        VoicegateEvent::StreamStatus { stream, .. } => (EntityModel { stream: stream@, ..m }, Seq::empty()),
    }
}

/// A call control primitive.
pub open spec fn control_in_step(m: EntityModel, prim: CallControlIn) -> (EntityModel, Seq<ActionView>) {
    match prim {
        CallControlIn::AnnouncementReady { gssi, call_id, ts, usage } => if m.state is Starting {
            enter(EntityModel { queue: Seq::empty(), ..m }, CallState::Speaking { call_id, ts, usage })
        } else {
            (m, seq![ActionView::Stop { gssi }])
        },
        CallControlIn::AnnouncementRejected { .. } => if m.state is Starting {
            enter(m, CallState::Idle)
        } else {
            (m, Seq::empty())
        },
        CallControlIn::AnnouncementEnded { .. } => match m.state {
            CallState::Stopping => enter(m, CallState::Idle),
            CallState::Speaking { .. } => enter(EntityModel { queue: Seq::empty(), ..m }, CallState::Idle),
            _ => (m, Seq::empty()),
        },
        CallControlIn::Other => (m, Seq::empty()),
    }
}

/// Law: when call control reports the announcement call ended, the voice
/// gate is never left speaking or stopping: a speaking or stopping gate
/// goes idle (a speaking one drops its queued blocks), and an idle or
/// starting gate is left as it was.
pub proof fn law_ended_call_goes_idle(m: EntityModel, gssi: u32, call_id: u16)
    ensures
        ({
            let r = control_in_step(m, CallControlIn::AnnouncementEnded { gssi, call_id }).0;
            &&& !(r.state is Speaking)
            &&& !(r.state is Stopping)
            &&& (m.state is Speaking || m.state is Stopping) ==> r.state is Idle
            &&& m.state is Speaking ==> r.queue.len() == 0
            &&& (m.state is Idle || m.state is Starting) ==> r == m
        }),
{
}

/// An operator command.
pub open spec fn request_step(m: EntityModel, cmd: ControlRequest) -> (EntityModel, Seq<ActionView>) {
    match cmd {
        ControlRequest::VoicegateStart { handle } => match m.state {
            CallState::Idle => {
                let (m2, a) = start_call(m);
                (
                    m2,
                    a + seq![
                        ActionView::Respond {
                            handle,
                            ok: true,
                            detail: ControlDetail::StartRequested,
                        },
                    ],
                )
            },
            CallState::Starting { .. } | CallState::Speaking { .. } => (
                m,
                seq![ActionView::Respond { handle, ok: true, detail: ControlDetail::AlreadyActive }],
            ),
            CallState::Stopping => (
                m,
                seq![
                    ActionView::Respond {
                        handle,
                        ok: false,
                        detail: ControlDetail::StoppingTryLater,
                    },
                ],
            ),
        },
        ControlRequest::VoicegateStop { handle } => if m.state is Speaking || m.state is Starting {
            (
                m,
                seq![
                    ActionView::ForceStop,
                    ActionView::Respond { handle, ok: true, detail: ControlDetail::StopRequested },
                ],
            )
        } else {
            (
                m,
                seq![
                    ActionView::Respond {
                        handle,
                        ok: false,
                        detail: ControlDetail::NoActiveAnnouncement,
                    },
                ],
            )
        },
        ControlRequest::VoicegateSelectStream { handle, label } => (
            m,
            seq![ActionView::Select { handle, label: label@ }],
        ),
        ControlRequest::Other => (m, Seq::empty()),
    }
}

/// Worker events in order.
pub open spec fn events_step(m: EntityModel, evs: Seq<VoicegateEvent>) -> (EntityModel, Seq<ActionView>)
    decreases evs.len(),
{
    if evs.len() == 0 {
        (m, Seq::empty())
    } else {
        let (m1, a1) = events_step(m, evs.drop_last());
        let (m2, a2) = event_step(m1, evs.last());
        (m2, a1 + a2)
    }
}

/// Operator commands in order.
pub open spec fn requests_step(m: EntityModel, cmds: Seq<ControlRequest>) -> (
    EntityModel,
    Seq<ActionView>,
)
    decreases cmds.len(),
{
    if cmds.len() == 0 {
        (m, Seq::empty())
    } else {
        let (m1, a1) = requests_step(m, cmds.drop_last());
        let (m2, a2) = request_step(m1, cmds.last());
        (m2, a1 + a2)
    }
}

/// The start timeout: an unconfirmed start older than [`START_TIMEOUT`]
/// timeslots goes back to idle.
pub open spec fn timeout_step(m: EntityModel, now: SlotTime) -> (EntityModel, Seq<ActionView>) {
    match m.state {
        CallState::Starting { since } => if slot_ordinal(now) - slot_ordinal(since)
            >= START_TIMEOUT {
            enter(m, CallState::Idle)
        } else {
            (m, Seq::empty())
        },
        _ => (m, Seq::empty()),
    }
}

/// Downlink feeding: one queued block on the call's own timeslot, except
/// in frame 18.
pub open spec fn feed_step(m: EntityModel, now: SlotTime) -> (EntityModel, Seq<ActionView>) {
    match m.state {
        CallState::Speaking { ts, .. } => if now.t == ts && now.f != 18 && m.queue.len() > 0 {
            (
                EntityModel { queue: m.queue.drop_first(), ..m },
                seq![ActionView::Data { ts, data: m.queue[0] }],
            )
        } else {
            (m, Seq::empty())
        },
        _ => (m, Seq::empty()),
    }
}

/// One timeslot: record the time, take the worker events, check the start
/// timeout, feed the downlink, then answer the operator commands.
pub open spec fn tick_step(
    m: EntityModel,
    now: SlotTime,
    evs: Seq<VoicegateEvent>,
    cmds: Seq<ControlRequest>,
) -> (EntityModel, Seq<ActionView>) {
    let (m1, a1) = events_step(EntityModel { dltime: now, ..m }, evs);
    let (m2, a2) = timeout_step(m1, now);
    let (m3, a3) = feed_step(m2, now);
    let (m4, a4) = requests_step(m3, cmds);
    (m4, a1 + a2 + a3 + a4)
}

proof fn lemma_push_actions(v: Seq<VoicegateAction>, a: VoicegateAction)
    ensures
        actions_view(v.push(a)) == actions_view(v).push(action_view(a)),
{
    assert(actions_view(v.push(a)) =~= actions_view(v).push(action_view(a)));
}

/// The blocks of a queue as plain values.
pub open spec fn queue_view(q: Seq<Vec<u8>>) -> Seq<Seq<u8>> {
    q.map_values(|b: Vec<u8>| b@)
}

/// The announcement identity the voice gate speaks as: the talk group and the
/// calling party, both zero when none is configured.
pub open spec fn identity_of(identity: Option<(u32, u32)>) -> (u32, u32) {
    match identity {
        Some(id) => id,
        None => (0, 0),
    }
}

/// The local announcement voice gate entity.
pub struct VoicegateEntity {
    identity: Option<(u32, u32)>,
    dltime: SlotTime,
    frame_queue: Vec<Vec<u8>>,
    state: CallState,
    active_stream: String,
    last_state: u8,
}

impl VoicegateEntity {
    /// The voice gate as plain values.
    pub closed spec fn model(&self) -> EntityModel {
        EntityModel {
            state: self.state,
            queue: queue_view(self.frame_queue@),
            stream: self.active_stream@,
            last_state: self.last_state,
            dltime: self.dltime,
            gssi: identity_of(self.identity).0,
            issi: identity_of(self.identity).1,
        }
    }

    /// A voice gate waiting for speech on `active_stream`, speaking for the
    /// configured announcement identity (talk group, calling party).
    pub fn new(active_stream: String, identity: Option<(u32, u32)>) -> (e: Self)
        ensures
            e.model() == (EntityModel {
                state: CallState::Idle,
                queue: Seq::empty(),
                stream: active_stream@,
                last_state: 0,
                dltime: SlotTime { h: 0, m: 0, f: 0, t: 0 },
                gssi: identity_of(identity).0,
                issi: identity_of(identity).1,
            }),
    {
        let e = VoicegateEntity {
            identity,
            dltime: SlotTime { h: 0, m: 0, f: 0, t: 0 },
            frame_queue: Vec::new(),
            state: CallState::Idle,
            active_stream,
            last_state: 0,
        };
        assert(queue_view(e.frame_queue@) =~= Seq::<Seq<u8>>::empty());
        e
    }

    /// Take a new configuration's announcement identity.
    pub fn set_identity(&mut self, identity: Option<(u32, u32)>)
        ensures
            final(self).model() == (EntityModel {
                gssi: identity_of(identity).0,
                issi: identity_of(identity).1,
                ..old(self).model()
            }),
    {
        self.identity = identity;
    }

    /// The radio call state.
    pub fn state(&self) -> (s: CallState)
        ensures
            s == self.model().state,
    {
        self.state
    }

    /// The label of the stream in use.
    pub fn active_stream(&self) -> (s: &str)
        ensures
            s@ == self.model().stream,
    {
        self.active_stream.as_str()
    }

    fn gssi(&self) -> (g: u32)
        ensures
            g == self.model().gssi,
    {
        match self.identity {
            Some(id) => id.0,
            None => 0,
        }
    }

    fn issi(&self) -> (i: u32)
        ensures
            i == self.model().issi,
    {
        match self.identity {
            Some(id) => id.1,
            None => 0,
        }
    }

    fn publish(&mut self, out: &mut Vec<VoicegateAction>)
        ensures
            final(self).model() == publish(old(self).model()).0,
            actions_view(final(out)@) == actions_view(old(out)@) + publish(old(self).model()).1,
    {
        let n = self.state.as_u8();
        if n == self.last_state {
            assert(actions_view(out@) =~= actions_view(out@) + Seq::<ActionView>::empty());
            return;
        }
        self.last_state = n;
        let call_id = match self.state {
            CallState::Speaking { call_id, .. } => Some(call_id),
            _ => None,
        };
        let ts = match self.state {
            CallState::Speaking { ts, .. } => Some(ts),
            _ => None,
        };
        let a = VoicegateAction::PublishState {
            state: n,
            stream: self.active_stream.clone(),
            call_id,
            ts,
        };
        proof {
            lemma_push_actions(out@, a);
        }
        out.push(a);
        assert(seq![action_view(a)] =~= publish(old(self).model()).1);
    }

    fn start_call(&mut self, out: &mut Vec<VoicegateAction>)
        ensures
            final(self).model() == start_call(old(self).model()).0,
            actions_view(final(out)@) == actions_view(old(out)@) + start_call(old(self).model()).1,
    {
        let a = VoicegateAction::AnnouncementStart { gssi: self.gssi(), issi: self.issi() };
        proof {
            lemma_push_actions(out@, a);
        }
        out.push(a);
        self.state = CallState::Starting { since: self.dltime };
        let ghost mid = out@;
        self.publish(out);
        assert(actions_view(out@) =~= actions_view(old(out)@) + start_call(old(self).model()).1);
    }

    fn stop_call(&mut self, out: &mut Vec<VoicegateAction>)
        ensures
            final(self).model() == stop_call(old(self).model()).0,
            actions_view(final(out)@) == actions_view(old(out)@) + stop_call(old(self).model()).1,
    {
        self.frame_queue = Vec::new();
        assert(queue_view(self.frame_queue@) =~= Seq::<Seq<u8>>::empty());
        let a = VoicegateAction::AnnouncementStop { gssi: self.gssi() };
        proof {
            lemma_push_actions(out@, a);
        }
        out.push(a);
        self.state = CallState::Stopping;
        self.publish(out);
        assert(actions_view(out@) =~= actions_view(old(out)@) + stop_call(old(self).model()).1);
    }

    /// A worker event (see [`event_step`]).
    pub fn handle_event(&mut self, event: VoicegateEvent, out: &mut Vec<VoicegateAction>)
        ensures
            final(self).model() == event_step(old(self).model(), event).0,
            actions_view(final(out)@) == actions_view(old(out)@) + event_step(
                old(self).model(),
                event,
            ).1,
    {
        assert(actions_view(out@) =~= actions_view(out@) + Seq::<ActionView>::empty());
        match event {
            VoicegateEvent::Frame(block) => {
                if matches!(self.state, CallState::Speaking { .. }) {
                    let ghost b = block@;
                    if self.frame_queue.len() >= FRAME_QUEUE_MAX {
                        let ghost q = self.frame_queue@;
                        self.frame_queue.remove(0);
                        assert(queue_view(self.frame_queue@) =~= queue_view(q).drop_first());
                    }
                    let ghost q2 = self.frame_queue@;
                    self.frame_queue.push(block);
                    assert(queue_view(self.frame_queue@) =~= queue_view(q2).push(b));
                }
            },
            VoicegateEvent::Pipeline(PipelineEvent::SpeechStarted) => {
                if matches!(self.state, CallState::Idle) {
                    self.start_call(out);
                }
            },
            VoicegateEvent::Pipeline(PipelineEvent::SpeechEnded { .. }) => {
                if matches!(self.state, CallState::Speaking { .. } | CallState::Starting { .. }) {
                    self.stop_call(out);
                }
            },
            VoicegateEvent::StreamStatus { stream, .. } => {
                self.active_stream = stream;
            },
        }
    }
    /// A call control primitive (see [`control_in_step`]).
    pub fn rx_call_control(&mut self, prim: CallControlIn, out: &mut Vec<VoicegateAction>)
        ensures
            final(self).model() == control_in_step(old(self).model(), prim).0,
            actions_view(final(out)@) == actions_view(old(out)@) + control_in_step(
                old(self).model(),
                prim,
            ).1,
    {
        assert(actions_view(out@) =~= actions_view(out@) + Seq::<ActionView>::empty());
        match prim {
            CallControlIn::AnnouncementReady { gssi, call_id, ts, usage } => {
                if matches!(self.state, CallState::Starting { .. }) {
                    self.frame_queue = Vec::new();
                    assert(queue_view(self.frame_queue@) =~= Seq::<Seq<u8>>::empty());
                    self.state = CallState::Speaking { call_id, ts, usage };
                    self.publish(out);
                } else {
                    // The floor arrived after the voice gate gave up: release it.
                    let a = VoicegateAction::AnnouncementStop { gssi };
                    proof {
                        lemma_push_actions(out@, a);
                    }
                    out.push(a);
                    assert(actions_view(out@) =~= actions_view(old(out)@) + seq![ActionView::Stop { gssi }]);
                }
            },
            CallControlIn::AnnouncementRejected { .. } => {
                if matches!(self.state, CallState::Starting { .. }) {
                    self.state = CallState::Idle;
                    self.publish(out);
                }
            },
            CallControlIn::AnnouncementEnded { .. } => {
                match self.state {
                    CallState::Stopping => {
                        self.state = CallState::Idle;
                        self.publish(out);
                    },
                    CallState::Speaking { .. } => {
                        self.frame_queue = Vec::new();
                        assert(queue_view(self.frame_queue@) =~= Seq::<Seq<u8>>::empty());
                        self.state = CallState::Idle;
                        self.publish(out);
                    },
                    _ => {},
                }
            },
            CallControlIn::Other => {},
        }
    }

    fn respond(handle: u64, ok: bool, detail: ControlDetail, out: &mut Vec<VoicegateAction>)
        ensures
            actions_view(final(out)@) == actions_view(old(out)@).push(
                ActionView::Respond { handle, ok, detail },
            ),
    {
        let a = VoicegateAction::Respond { handle, ok, detail };
        proof {
            lemma_push_actions(out@, a);
        }
        out.push(a);
    }

    /// An operator command (see [`request_step`]).
    pub fn handle_control(&mut self, cmd: ControlRequest, out: &mut Vec<VoicegateAction>)
        ensures
            final(self).model() == request_step(old(self).model(), cmd).0,
            actions_view(final(out)@) == actions_view(old(out)@) + request_step(
                old(self).model(),
                cmd,
            ).1,
    {
        assert(actions_view(out@) =~= actions_view(out@) + Seq::<ActionView>::empty());
        match cmd {
            ControlRequest::VoicegateStart { handle } => {
                match self.state {
                    CallState::Idle => {
                        self.start_call(out);
                        Self::respond(handle, true, ControlDetail::StartRequested, out);
                    },
                    CallState::Starting { .. } | CallState::Speaking { .. } => {
                        Self::respond(handle, true, ControlDetail::AlreadyActive, out);
                    },
                    CallState::Stopping => {
                        Self::respond(handle, false, ControlDetail::StoppingTryLater, out);
                    },
                }
            },
            ControlRequest::VoicegateStop { handle } => {
                if matches!(self.state, CallState::Speaking { .. } | CallState::Starting { .. }) {
                    let a = VoicegateAction::Worker(VoicegateCommand::ForceStop);
                    proof {
                        lemma_push_actions(out@, a);
                    }
                    out.push(a);
                    Self::respond(handle, true, ControlDetail::StopRequested, out);
                } else {
                    Self::respond(handle, false, ControlDetail::NoActiveAnnouncement, out);
                }
            },
            ControlRequest::VoicegateSelectStream { handle, label } => {
                let ghost l = label@;
                let a = VoicegateAction::SelectStream { handle, label };
                proof {
                    lemma_push_actions(out@, a);
                }
                out.push(a);
            },
            ControlRequest::Other => {},
        }
        assert(actions_view(out@) =~= actions_view(old(out)@) + request_step(old(self).model(), cmd).1);
    }

    /// One timeslot (see [`tick_step`]): the worker events and operator
    /// commands are those that arrived since the previous timeslot, in
    /// order.
    pub fn tick_start(
        &mut self,
        now: SlotTime,
        events: Vec<VoicegateEvent>,
        commands: Vec<ControlRequest>,
        out: &mut Vec<VoicegateAction>,
    )
        ensures
            final(self).model() == tick_step(old(self).model(), now, events@, commands@).0,
            actions_view(final(out)@) == actions_view(old(out)@) + tick_step(
                old(self).model(),
                now,
                events@,
                commands@,
            ).1,
    {
        self.dltime = now;
        let ghost m0 = self.model();
        let ghost out0 = out@;
        let ghost evs = events@;
        let mut events = events;
        let n = events.len();
        let mut i: usize = 0;
        while i < n
            invariant
                i <= n,
                n == evs.len(),
                events@ == evs.skip(i as int),
                self.model() == events_step(m0, evs.take(i as int)).0,
                actions_view(out@) == actions_view(out0) + events_step(m0, evs.take(i as int)).1,
            decreases n - i,
        {
            let ev = events.remove(0);
            proof {
                assert(evs.take(i + 1).drop_last() =~= evs.take(i as int));
                assert(evs.skip(i as int)[0] == evs[i as int]);
                assert(evs.skip(i as int).drop_first() =~= evs.skip(i + 1));
            }
            let ghost before = actions_view(out@);
            self.handle_event(ev, out);
            i = i + 1;
            proof {
                assert(evs.take(i as int).last() == ev);
                assert(actions_view(out@) =~= actions_view(out0) + events_step(m0, evs.take(i as int)).1);
            }
        }
        assert(evs.take(n as int) =~= evs);
        let ghost m1 = self.model();
        let ghost out1 = out@;
        if let CallState::Starting { since } = self.state {
            if since.age(now) >= START_TIMEOUT {
                self.state = CallState::Idle;
                self.publish(out);
            }
        }
        assert(actions_view(out@) =~= actions_view(out1) + timeout_step(m1, now).1);
        let ghost m2 = self.model();
        let ghost out2 = out@;
        if let CallState::Speaking { ts: call_ts, .. } = self.state {
            if now.t == call_ts && now.f != 18 && self.frame_queue.len() > 0 {
                let ghost q = self.frame_queue@;
                let block = self.frame_queue.remove(0);
                assert(queue_view(self.frame_queue@) =~= queue_view(q).drop_first());
                let a = VoicegateAction::CircuitData { ts: call_ts, data: block };
                proof {
                    lemma_push_actions(out@, a);
                }
                out.push(a);
            }
        }
        assert(actions_view(out@) =~= actions_view(out2) + feed_step(m2, now).1);
        let ghost m3 = self.model();
        let ghost out3 = out@;
        let ghost cmds = commands@;
        let mut commands = commands;
        let k = commands.len();
        let mut j: usize = 0;
        while j < k
            invariant
                j <= k,
                k == cmds.len(),
                commands@ == cmds.skip(j as int),
                self.model() == requests_step(m3, cmds.take(j as int)).0,
                actions_view(out@) == actions_view(out3) + requests_step(m3, cmds.take(j as int)).1,
            decreases k - j,
        {
            let cmd = commands.remove(0);
            proof {
                assert(cmds.take(j + 1).drop_last() =~= cmds.take(j as int));
                assert(cmds.skip(j as int)[0] == cmds[j as int]);
                assert(cmds.skip(j as int).drop_first() =~= cmds.skip(j + 1));
            }
            self.handle_control(cmd, out);
            j = j + 1;
            proof {
                assert(cmds.take(j as int).last() == cmd);
                assert(actions_view(out@) =~= actions_view(out3) + requests_step(m3, cmds.take(j as int)).1);
            }
        }
        assert(cmds.take(k as int) =~= cmds);
        assert(actions_view(out@) =~= actions_view(old(out)@) + tick_step(old(self).model(), now, evs, cmds).1);
    }
}


/// The voice gate's invariant: the block queue stays within its bound, and the
/// last published state is the current one.
pub open spec fn entity_inv(m: EntityModel) -> bool {
    &&& m.queue.len() <= FRAME_QUEUE_MAX
    &&& m.last_state == state_number(m.state)
}

/// No action in `a` sends downlink data.
pub open spec fn no_data(a: Seq<ActionView>) -> bool {
    forall|k: int| 0 <= k < a.len() ==> !(#[trigger] a[k] is Data)
}

proof fn lemma_event_step(m: EntityModel, ev: VoicegateEvent)
    ensures
        entity_inv(m) ==> entity_inv(event_step(m, ev).0),
        no_data(event_step(m, ev).1),
        !(m.state is Speaking) ==> !(event_step(m, ev).0.state is Speaking),
{
}

proof fn lemma_events_step(m: EntityModel, evs: Seq<VoicegateEvent>)
    ensures
        entity_inv(m) ==> entity_inv(events_step(m, evs).0),
        no_data(events_step(m, evs).1),
        !(m.state is Speaking) ==> !(events_step(m, evs).0.state is Speaking),
    decreases evs.len(),
{
    if evs.len() > 0 {
        lemma_events_step(m, evs.drop_last());
        let m1 = events_step(m, evs.drop_last()).0;
        lemma_event_step(m1, evs.last());
        let a1 = events_step(m, evs.drop_last()).1;
        let a2 = event_step(m1, evs.last()).1;
        assert forall|k: int| 0 <= k < (a1 + a2).len() implies !(#[trigger] (a1 + a2)[k] is Data) by {
            if k < a1.len() {
                assert((a1 + a2)[k] == a1[k]);
            } else {
                assert((a1 + a2)[k] == a2[k - a1.len()]);
            }
        }
    }
}

proof fn lemma_request_step(m: EntityModel, cmd: ControlRequest)
    ensures
        entity_inv(m) ==> entity_inv(request_step(m, cmd).0),
        no_data(request_step(m, cmd).1),
        !(m.state is Speaking) ==> !(request_step(m, cmd).0.state is Speaking),
{
    match cmd {
        ControlRequest::VoicegateStart { handle } => {
            if m.state is Idle {
                let (m2, a) = start_call(m);
                let r = seq![ActionView::Respond { handle, ok: true, detail: ControlDetail::StartRequested }];
                assert forall|k: int| 0 <= k < (a + r).len() implies !(#[trigger] (a + r)[k] is Data) by {
                    if k < a.len() {
                        assert((a + r)[k] == a[k]);
                    } else {
                        assert((a + r)[k] == r[k - a.len()]);
                    }
                }
            }
        },
        _ => {},
    }
}

proof fn lemma_requests_step(m: EntityModel, cmds: Seq<ControlRequest>)
    ensures
        entity_inv(m) ==> entity_inv(requests_step(m, cmds).0),
        no_data(requests_step(m, cmds).1),
        !(m.state is Speaking) ==> !(requests_step(m, cmds).0.state is Speaking),
    decreases cmds.len(),
{
    if cmds.len() > 0 {
        lemma_requests_step(m, cmds.drop_last());
        let m1 = requests_step(m, cmds.drop_last()).0;
        lemma_request_step(m1, cmds.last());
        let a1 = requests_step(m, cmds.drop_last()).1;
        let a2 = request_step(m1, cmds.last()).1;
        assert forall|k: int| 0 <= k < (a1 + a2).len() implies !(#[trigger] (a1 + a2)[k] is Data) by {
            if k < a1.len() {
                assert((a1 + a2)[k] == a1[k]);
            } else {
                assert((a1 + a2)[k] == a2[k - a1.len()]);
            }
        }
    }
}

/// Law: the voice gate's invariant holds from creation and is kept by every
/// input: the block queue never exceeds [`FRAME_QUEUE_MAX`] blocks, and
/// the published state is always the current one.
pub proof fn law_entity_invariant(
    m: EntityModel,
    ev: VoicegateEvent,
    prim: CallControlIn,
    cmd: ControlRequest,
    now: SlotTime,
    evs: Seq<VoicegateEvent>,
    cmds: Seq<ControlRequest>,
)
    requires
        entity_inv(m),
    ensures
        entity_inv(event_step(m, ev).0),
        entity_inv(control_in_step(m, prim).0),
        entity_inv(request_step(m, cmd).0),
        entity_inv(tick_step(m, now, evs, cmds).0),
{
    lemma_event_step(m, ev);
    lemma_request_step(m, cmd);
    let m0 = EntityModel { dltime: now, ..m };
    lemma_events_step(m0, evs);
    let m1 = events_step(m0, evs).0;
    let m2 = timeout_step(m1, now).0;
    let m3 = feed_step(m2, now).0;
    lemma_requests_step(m3, cmds);
}

/// Law: a new voice gate satisfies the invariant.
pub proof fn law_entity_starts_valid(stream: Seq<char>, identity: Option<(u32, u32)>)
    ensures
        entity_inv(
            EntityModel {
                state: CallState::Idle,
                queue: Seq::empty(),
                stream,
                last_state: 0,
                dltime: SlotTime { h: 0, m: 0, f: 0, t: 0 },
                gssi: identity_of(identity).0,
                issi: identity_of(identity).1,
            },
        ),
{
}

/// Law: the floor is only ever taken on call control's word. Worker
/// events, operator commands and timeslot ticks never move the voice gate into
/// `Speaking`; only an `AnnouncementReady` while `Starting` does.
pub proof fn law_speaking_only_after_ready(
    m: EntityModel,
    ev: VoicegateEvent,
    prim: CallControlIn,
    cmd: ControlRequest,
    now: SlotTime,
    evs: Seq<VoicegateEvent>,
    cmds: Seq<ControlRequest>,
)
    requires
        !(m.state is Speaking),
    ensures
        !(event_step(m, ev).0.state is Speaking),
        !(request_step(m, cmd).0.state is Speaking),
        !(tick_step(m, now, evs, cmds).0.state is Speaking),
        control_in_step(m, prim).0.state is Speaking ==> (m.state is Starting
            && prim is AnnouncementReady),
{
    lemma_event_step(m, ev);
    lemma_request_step(m, cmd);
    let m0 = EntityModel { dltime: now, ..m };
    lemma_events_step(m0, evs);
    let m1 = events_step(m0, evs).0;
    let m2 = timeout_step(m1, now).0;
    let m3 = feed_step(m2, now).0;
    lemma_requests_step(m3, cmds);
}

/// Law: at most one TCH/S block goes to the downlink per timeslot, only on
/// the call's own timeslot and never in frame 18, and it is the oldest
/// queued block.
pub proof fn law_one_block_per_timeslot(
    m: EntityModel,
    now: SlotTime,
    evs: Seq<VoicegateEvent>,
    cmds: Seq<ControlRequest>,
)
    ensures
        ({
            let acts = tick_step(m, now, evs, cmds).1;
            &&& forall|i: int, j: int|
                0 <= i < j < acts.len() ==> !(#[trigger] acts[i] is Data && #[trigger] acts[j] is Data)
            &&& forall|i: int|
                0 <= i < acts.len() && #[trigger] acts[i] is Data ==> {
                    &&& acts[i]->Data_ts == now.t
                    &&& now.f != 18
                }
        }),
{
    let m0 = EntityModel { dltime: now, ..m };
    lemma_events_step(m0, evs);
    let (m1, a1) = events_step(m0, evs);
    let (m2, a2) = timeout_step(m1, now);
    let (m3, a3) = feed_step(m2, now);
    lemma_requests_step(m3, cmds);
    let (m4, a4) = requests_step(m3, cmds);
    let acts = a1 + a2 + a3 + a4;
    assert(tick_step(m, now, evs, cmds).1 == acts);
    assert(no_data(a2));
    assert(a3.len() <= 1);
    assert forall|i: int| 0 <= i < acts.len() && #[trigger] acts[i] is Data implies i == a1.len()
        + a2.len() && acts[i] == a3[0] by {
        if i < a1.len() {
            assert(acts[i] == a1[i]);
        } else if i < a1.len() + a2.len() {
            assert(acts[i] == a2[i - a1.len()]);
        } else if i < a1.len() + a2.len() + a3.len() {
            assert(acts[i] == a3[i - a1.len() - a2.len()]);
        } else {
            assert(acts[i] == a4[i - a1.len() - a2.len() - a3.len()]);
        }
    }
}

} // verus!
