//! Call control's side of the announcement protocol: whether a start
//! request from the voice gate is accepted, and what a stop request does.

use vstd::prelude::*;

verus! {

/// Why call control refused to start an announcement call.
#[derive(Clone, Copy, Debug, PartialEq, Eq, Structural)]
pub enum AnnouncementRejectReason {
    /// The feature is not configured or is switched off.
    Disabled,
    /// The request names another group or calling party than configured.
    WrongIdentity,
    /// No subscriber of the group is registered at this cell.
    NoLocalListener,
    /// The group already has a call, or a start pending.
    TgBusy,
    /// No traffic timeslot could be allocated.
    NoTimeslot,
}

/// The announcement section as call control sees it.
#[derive(Clone, Copy, Debug, PartialEq, Eq, Structural)]
pub struct AnnouncementIdentity {
    /// The master switch.
    pub enabled: bool,
    /// The dedicated talk group.
    pub gssi: u32,
    /// The calling party.
    pub issi: u32,
}

/// Whether a start request for group `gssi` from party `issi` is accepted,
/// checked in order: the feature is configured and on, the identity is
/// the configured one, a subscriber of the group is here, and the group
/// has no call and no start pending.
pub open spec fn start_verdict(
    config: Option<AnnouncementIdentity>,
    gssi: u32,
    issi: u32,
    has_local_listener: bool,
    call_groups: Seq<u32>,
    pending_groups: Seq<u32>,
) -> Result<(), AnnouncementRejectReason> {
    match config {
        None => Err(AnnouncementRejectReason::Disabled),
        Some(ann) => if !ann.enabled {
            Err(AnnouncementRejectReason::Disabled)
        } else if gssi != ann.gssi || issi != ann.issi {
            Err(AnnouncementRejectReason::WrongIdentity)
        } else if !has_local_listener {
            Err(AnnouncementRejectReason::NoLocalListener)
        } else if call_groups.contains(gssi) || pending_groups.contains(gssi) {
            Err(AnnouncementRejectReason::TgBusy)
        } else {
            Ok(())
        },
    }
}

/// Law: a start request is refused as busy only for its own group's
/// calls: `TgBusy` means the requested group has an active call or a
/// pending start, calls on other groups never block it, and the verdict
/// depends on the two lists only through whether they hold the requested
/// group. A configured, enabled request with the configured identity, a
/// local listener and its group in neither list is accepted.
pub proof fn law_busy_only_for_own_group(
    config: Option<AnnouncementIdentity>,
    gssi: u32,
    issi: u32,
    has_local_listener: bool,
    calls1: Seq<u32>,
    pending1: Seq<u32>,
    calls2: Seq<u32>,
    pending2: Seq<u32>,
)
    requires
        calls1.contains(gssi) == calls2.contains(gssi),
        pending1.contains(gssi) == pending2.contains(gssi),
    ensures
        start_verdict(config, gssi, issi, has_local_listener, calls1, pending1) == start_verdict(
            config,
            gssi,
            issi,
            has_local_listener,
            calls2,
            pending2,
        ),
        start_verdict(config, gssi, issi, has_local_listener, calls1, pending1) == Err::<
            (),
            AnnouncementRejectReason,
        >(AnnouncementRejectReason::TgBusy) ==> calls1.contains(gssi) || pending1.contains(gssi),
        (config matches Some(ann) && ann.enabled && ann.gssi == gssi && ann.issi == issi
            && has_local_listener && !calls1.contains(gssi) && !pending1.contains(gssi))
            ==> start_verdict(config, gssi, issi, has_local_listener, calls1, pending1) == Ok::<
            (),
            AnnouncementRejectReason,
        >(()),
        start_verdict(config, gssi, issi, has_local_listener, calls1, pending1) is Ok ==> (config matches Some(
            ann,
        ) && ann.enabled && ann.gssi == gssi && ann.issi == issi && has_local_listener
            && !calls1.contains(gssi) && !pending1.contains(gssi)),
{
}

fn contains_group(groups: &Vec<u32>, gssi: u32) -> (b: bool)
    ensures
        b == groups@.contains(gssi),
{
    let mut i: usize = 0;
    while i < groups.len()
        invariant
            i <= groups@.len(),
            forall|k: int| 0 <= k < i ==> groups@[k] != gssi,
        decreases groups@.len() - i,
    {
        if groups[i] == gssi {
            assert(groups@[i as int] == gssi);
            return true;
        }
        i = i + 1;
    }
    false
}

/// Decide a start request (see [`start_verdict`]). `call_groups` are the
/// groups of the active calls, `pending_groups` those with a start whose
/// readiness is still pending.
pub fn announcement_start_verdict(
    config: Option<AnnouncementIdentity>,
    gssi: u32,
    issi: u32,
    has_local_listener: bool,
    call_groups: &Vec<u32>,
    pending_groups: &Vec<u32>,
) -> (r: Result<(), AnnouncementRejectReason>)
    ensures
        r == start_verdict(config, gssi, issi, has_local_listener, call_groups@, pending_groups@),
{
    let ann = match config {
        None => {
            return Err(AnnouncementRejectReason::Disabled);
        },
        Some(a) => a,
    };
    if !ann.enabled {
        return Err(AnnouncementRejectReason::Disabled);
    }
    if gssi != ann.gssi || issi != ann.issi {
        return Err(AnnouncementRejectReason::WrongIdentity);
    }
    if !has_local_listener {
        return Err(AnnouncementRejectReason::NoLocalListener);
    }
    if contains_group(call_groups, gssi) || contains_group(pending_groups, gssi) {
        return Err(AnnouncementRejectReason::TgBusy);
    }
    Ok(())
}

/// The announcement call of a group, as call control knows it.
#[derive(Clone, Copy, Debug, PartialEq, Eq, Structural)]
pub struct AnnouncementCall {
    pub call_id: u16,
    /// The group's release is already under way.
    pub release_pending: bool,
    /// The floor is held (the call is transmitting).
    pub transmitting: bool,
}

/// What a stop request makes call control do.
#[derive(Clone, Copy, Debug, PartialEq, Eq, Structural)]
pub struct StopPlan {
    /// Drop any pending readiness report for the group (no call exists).
    pub cancel_group_ready: bool,
    /// Drop the pending readiness report of this call.
    pub cancel_call_ready: Option<u16>,
    /// Put the call into hangtime, announce the end of transmission and
    /// release the floor.
    pub release_floor: bool,
    /// Tell the voice gate this call has ended.
    pub report_ended: Option<u16>,
}

/// The plan for a stop request: with no call, only the group's pending
/// readiness is dropped; with a release already pending, only the call's;
/// otherwise the call's readiness is dropped, the floor released if held,
/// and the end reported.
pub open spec fn stop_plan(call: Option<AnnouncementCall>) -> StopPlan {
    match call {
        None => StopPlan {
            cancel_group_ready: true,
            cancel_call_ready: None,
            release_floor: false,
            report_ended: None,
        },
        Some(c) => if c.release_pending {
            StopPlan {
                cancel_group_ready: false,
                cancel_call_ready: Some(c.call_id),
                release_floor: false,
                report_ended: None,
            }
        } else {
            StopPlan {
                cancel_group_ready: false,
                cancel_call_ready: Some(c.call_id),
                release_floor: c.transmitting,
                report_ended: Some(c.call_id),
            }
        },
    }
}

/// Plan a stop request (see [`stop_plan`]).
pub fn announcement_stop_plan(call: Option<AnnouncementCall>) -> (p: StopPlan)
    ensures
        p == stop_plan(call),
{
    match call {
        None => StopPlan {
            cancel_group_ready: true,
            cancel_call_ready: None,
            release_floor: false,
            report_ended: None,
        },
        Some(c) => {
            if c.release_pending {
                StopPlan {
                    cancel_group_ready: false,
                    cancel_call_ready: Some(c.call_id),
                    release_floor: false,
                    report_ended: None,
                }
            } else {
                StopPlan {
                    cancel_group_ready: false,
                    cancel_call_ready: Some(c.call_id),
                    release_floor: c.transmitting,
                    report_ended: Some(c.call_id),
                }
            }
        },
    }
}

/// A traffic circuit allocated for a call.
#[derive(Clone, Copy, Debug, PartialEq, Eq, Structural)]
pub struct AllocatedCircuit {
    pub call_id: u16,
    /// The timeslot (1-4).
    pub ts: u8,
    /// The usage marker of the circuit.
    pub usage: u8,
}

/// How the group is told of the new call: the D-SETUP of EN 300 392-2
/// clause 14.5.2 with the base station itself as the calling party, and
/// the bookkeeping that goes with it.
#[derive(Clone, Copy, Debug, PartialEq, Eq, Structural)]
pub struct AnnouncementSetup {
    /// The call identifier (the circuit's).
    pub call_id: u16,
    /// The called talk group.
    pub gssi: u32,
    /// The calling party shown on terminals.
    pub calling_party_issi: u32,
    /// Downlink timeslot and usage marker.
    pub ts: u8,
    pub usage: u8,
    /// The call never times out (the voice gate caps its duration).
    pub infinite_timeout: bool,
    /// Speech service 0 on a TCH/S point-to-multipoint circuit, clear.
    pub speech_service: u8,
    pub encrypted: bool,
    /// The floor is granted to another user (the announcer).
    pub granted_to_other_user: bool,
    /// Subscribers may not request the floor.
    pub transmission_request_permission: bool,
    /// Call priority.
    pub priority: u8,
    /// The setup is repeated until the air interface reports it sent.
    pub resend: bool,
}

/// The call set up for an accepted start request, or the rejection when
/// no circuit could be allocated.
pub open spec fn setup_for(gssi: u32, issi: u32, circuit: Option<AllocatedCircuit>) -> Result<
    AnnouncementSetup,
    AnnouncementRejectReason,
> {
    match circuit {
        None => Err(AnnouncementRejectReason::NoTimeslot),
        Some(c) => Ok(
            AnnouncementSetup {
                call_id: c.call_id,
                gssi,
                calling_party_issi: issi,
                ts: c.ts,
                usage: c.usage,
                infinite_timeout: true,
                speech_service: 0,
                encrypted: false,
                granted_to_other_user: true,
                transmission_request_permission: false,
                priority: 0,
                resend: true,
            },
        ),
    }
}

/// Set up the announcement call on the allocated circuit (see
/// [`setup_for`]).
pub fn announcement_setup(gssi: u32, issi: u32, circuit: Option<AllocatedCircuit>) -> (r: Result<
    AnnouncementSetup,
    AnnouncementRejectReason,
>)
    ensures
        r == setup_for(gssi, issi, circuit),
{
    match circuit {
        None => Err(AnnouncementRejectReason::NoTimeslot),
        Some(c) => Ok(
            AnnouncementSetup {
                call_id: c.call_id,
                gssi,
                calling_party_issi: issi,
                ts: c.ts,
                usage: c.usage,
                infinite_timeout: true,
                speech_service: 0,
                encrypted: false,
                granted_to_other_user: true,
                transmission_request_permission: false,
                priority: 0,
                resend: true,
            },
        ),
    }
}

} // verus!
