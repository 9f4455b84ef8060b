//! The announcement configuration section and call control's decisions.

use tetra_acelp::announcement_config::{
    apply_announcement_patch, is_blank_utf8, AnnouncementPatch, CfgAnnouncementAuth,
    CfgAnnouncementStreamDto, ConfigError, DbfsChecks, NamedAuthKind,
};
use tetra_acelp::announcement_control::{
    announcement_setup, announcement_start_verdict, announcement_stop_plan, AllocatedCircuit,
    AnnouncementCall, AnnouncementIdentity, AnnouncementRejectReason, AnnouncementSetup, StopPlan,
};

fn stream(label: &str, url: &str) -> CfgAnnouncementStreamDto {
    CfgAnnouncementStreamDto {
        label: label.to_string(),
        url: url.to_string(),
        auth_kind: None,
        auth_name: None,
        auth_value: None,
        auth_username: None,
        auth_password: None,
    }
}

fn with_auth(mut s: CfgAnnouncementStreamDto, kind: Option<&str>, name: Option<&str>, value: Option<&str>) -> CfgAnnouncementStreamDto {
    s.auth_kind = kind.map(|k| k.to_string());
    s.auth_name = name.map(|k| k.to_string());
    s.auth_value = value.map(|k| k.to_string());
    s
}

fn patch() -> AnnouncementPatch {
    AnnouncementPatch {
        unrecognized: vec![],
        enabled: true,
        gssi: 500,
        issi: 55_000,
        streams: vec![stream("main", "https://radio.example/live.mp3")],
        active_stream: "main".to_string(),
        dbfs: DbfsChecks { start_in_range: true, stop_in_range: true, stop_below_start: true },
        vad_start_ms: 150,
        silence_timeout_ms: 4000,
        stream_loss_grace_ms: 15000,
        max_call_duration_secs: 600,
    }
}

fn err(p: AnnouncementPatch) -> ConfigError {
    match apply_announcement_patch(p) {
        Err(e) => e,
        Ok(_) => panic!("expected an error"),
    }
}

#[test]
fn valid_section_is_accepted() {
    let mut p = patch();
    p.streams.push(with_auth(stream("b", "http://x/y"), Some("bearer"), None, Some("tok")));
    p.streams.push(with_auth(stream("h", "http://x/y"), Some("header"), Some("X-K"), Some("v")));
    p.streams.push(with_auth(stream("q", "http://x/y?a=1"), Some("query"), Some("key"), Some("v2")));
    let s = apply_announcement_patch(p).expect("valid");
    assert_eq!(s.gssi, 500);
    assert_eq!(s.issi, 55_000);
    assert_eq!(s.active_stream, "main");
    assert_eq!(s.streams.len(), 4);
    assert!(s.streams[0].auth.is_none());
    assert!(matches!(&s.streams[1].auth, Some(CfgAnnouncementAuth::Bearer(v)) if v == "tok"));
    assert!(matches!(&s.streams[2].auth, Some(CfgAnnouncementAuth::Header { name, value }) if name == "X-K" && value == "v"));
    assert!(matches!(&s.streams[3].auth, Some(CfgAnnouncementAuth::Query { name, value }) if name == "key" && value == "v2"));
    assert_eq!(s.streams[3].url, "http://x/y?a=1");
}

#[test]
fn field_ranges_are_checked_in_order() {
    let mut p = patch();
    p.unrecognized = vec!["zzz".to_string(), "aaa".to_string()];
    p.gssi = 0;
    assert!(matches!(err(p), ConfigError::UnrecognizedFields(k) if k.len() == 2));

    let mut p = patch();
    p.gssi = 0x1000000;
    p.issi = 0;
    assert!(matches!(err(p), ConfigError::Gssi));
    let mut p = patch();
    p.issi = 0;
    assert!(matches!(err(p), ConfigError::Issi));
    let mut p = patch();
    p.max_call_duration_secs = 29;
    assert!(matches!(err(p), ConfigError::MaxCallDuration));
    let mut p = patch();
    p.max_call_duration_secs = 3601;
    p.dbfs.start_in_range = false;
    assert!(matches!(err(p), ConfigError::MaxCallDuration));
    let mut p = patch();
    p.dbfs.start_in_range = false;
    p.dbfs.stop_in_range = false;
    assert!(matches!(err(p), ConfigError::VadStartDbfs));
    let mut p = patch();
    p.dbfs.stop_in_range = false;
    assert!(matches!(err(p), ConfigError::VadStopDbfs));
    let mut p = patch();
    p.dbfs.stop_below_start = false;
    assert!(matches!(err(p), ConfigError::Hysteresis));
    let mut p = patch();
    p.vad_start_ms = 19;
    assert!(matches!(err(p), ConfigError::VadStartMs));
    let mut p = patch();
    p.vad_start_ms = 5001;
    assert!(matches!(err(p), ConfigError::VadStartMs));
    let mut p = patch();
    p.silence_timeout_ms = 99;
    assert!(matches!(err(p), ConfigError::SilenceTimeout));
    let mut p = patch();
    p.stream_loss_grace_ms = 60001;
    assert!(matches!(err(p), ConfigError::StreamLossGrace));
    let mut p = patch();
    p.streams.clear();
    assert!(matches!(err(p), ConfigError::NoStreams));
    let mut p = patch();
    for k in 0..8 {
        p.streams.push(stream(&format!("s{k}"), "http://x"));
    }
    assert!(matches!(err(p), ConfigError::TooManyStreams));
}

#[test]
fn streams_are_checked_one_by_one() {
    let mut p = patch();
    p.streams.push(stream(" \t\u{a0}", "ftp://x"));
    assert!(matches!(err(p), ConfigError::EmptyLabel { index: 1 }));
    let mut p = patch();
    p.streams.push(stream("main", "ftp://x"));
    assert!(matches!(err(p), ConfigError::DuplicateLabel { index: 1, label } if label == "main"));
    let mut p = patch();
    p.streams.push(stream("x", "ftp://x"));
    assert!(matches!(err(p), ConfigError::BadUrl { index: 1 }));
    let mut p = patch();
    p.streams.push(stream("x", "HTTP://x"));
    assert!(matches!(err(p), ConfigError::BadUrl { index: 1 }));
    let mut p = patch();
    p.streams.push(with_auth(stream("x", "http://x"), Some("magic"), None, None));
    assert!(matches!(err(p), ConfigError::MissingAuthValue { index: 1 }));
    let mut p = patch();
    p.streams.push(with_auth(stream("x", "http://x"), Some("magic"), None, Some("v")));
    assert!(matches!(err(p), ConfigError::BadAuthKind { index: 1, kind } if kind == "magic"));
    let mut p = patch();
    p.streams.push(with_auth(stream("x", "http://x"), Some("header"), None, Some("v")));
    assert!(matches!(err(p), ConfigError::MissingAuthName { index: 1, kind: NamedAuthKind::Header }));
    let mut p = patch();
    p.streams.push(with_auth(stream("x", "http://x"), Some("query"), None, Some("v")));
    assert!(matches!(err(p), ConfigError::MissingAuthName { index: 1, kind: NamedAuthKind::Query }));
    let mut p = patch();
    p.streams.push(with_auth(stream("x", "http://x"), None, Some("n"), None));
    assert!(matches!(err(p), ConfigError::AuthWithoutKind { index: 1 }));
    let mut p = patch();
    p.active_stream = "other".to_string();
    assert!(matches!(err(p), ConfigError::UnknownActiveStream { active } if active == "other"));
}

#[test]
fn blank_means_unicode_white_space_only() {
    assert!(is_blank_utf8(b""));
    assert!(is_blank_utf8(" \t\n\r\u{b}\u{c}".as_bytes()));
    assert!(is_blank_utf8("\u{85}\u{a0}\u{1680}\u{2000}\u{200a}\u{2028}\u{2029}\u{202f}\u{205f}\u{3000}".as_bytes()));
    assert!(!is_blank_utf8(" a ".as_bytes()));
    assert!(!is_blank_utf8("\u{200b}".as_bytes()));
    for c in ['\u{85}', '\u{a0}', '\u{1680}', '\u{2001}', '\u{3000}', 'x', '\u{200b}', '\u{feff}'] {
        let s = c.to_string();
        assert_eq!(is_blank_utf8(s.as_bytes()), s.trim().is_empty(), "{c:?}");
    }
}

fn identity() -> Option<AnnouncementIdentity> {
    Some(AnnouncementIdentity { enabled: true, gssi: 500, issi: 55_000 })
}

#[test]
fn start_requests_are_decided_in_order() {
    let none: Vec<u32> = vec![];
    assert_eq!(announcement_start_verdict(identity(), 500, 55_000, true, &none, &none), Ok(()));
    assert_eq!(
        announcement_start_verdict(None, 500, 55_000, true, &none, &none),
        Err(AnnouncementRejectReason::Disabled)
    );
    let off = Some(AnnouncementIdentity { enabled: false, gssi: 500, issi: 55_000 });
    assert_eq!(
        announcement_start_verdict(off, 1, 2, false, &none, &none),
        Err(AnnouncementRejectReason::Disabled)
    );
    assert_eq!(
        announcement_start_verdict(identity(), 501, 55_000, false, &none, &none),
        Err(AnnouncementRejectReason::WrongIdentity)
    );
    assert_eq!(
        announcement_start_verdict(identity(), 500, 1, true, &none, &none),
        Err(AnnouncementRejectReason::WrongIdentity)
    );
    assert_eq!(
        announcement_start_verdict(identity(), 500, 55_000, false, &vec![500], &none),
        Err(AnnouncementRejectReason::NoLocalListener)
    );
    assert_eq!(
        announcement_start_verdict(identity(), 500, 55_000, true, &vec![7, 500], &none),
        Err(AnnouncementRejectReason::TgBusy)
    );
    assert_eq!(
        announcement_start_verdict(identity(), 500, 55_000, true, &vec![7], &vec![500]),
        Err(AnnouncementRejectReason::TgBusy)
    );
}

#[test]
fn stop_requests_are_planned_by_call_state() {
    assert_eq!(
        announcement_stop_plan(None),
        StopPlan { cancel_group_ready: true, cancel_call_ready: None, release_floor: false, report_ended: None }
    );
    assert_eq!(
        announcement_stop_plan(Some(AnnouncementCall { call_id: 9, release_pending: true, transmitting: true })),
        StopPlan { cancel_group_ready: false, cancel_call_ready: Some(9), release_floor: false, report_ended: None }
    );
    assert_eq!(
        announcement_stop_plan(Some(AnnouncementCall { call_id: 9, release_pending: false, transmitting: true })),
        StopPlan { cancel_group_ready: false, cancel_call_ready: Some(9), release_floor: true, report_ended: Some(9) }
    );
    assert_eq!(
        announcement_stop_plan(Some(AnnouncementCall { call_id: 9, release_pending: false, transmitting: false })),
        StopPlan { cancel_group_ready: false, cancel_call_ready: Some(9), release_floor: false, report_ended: Some(9) }
    );
}

#[test]
fn announcement_setup_uses_the_allocated_circuit() {
    let circuit = AllocatedCircuit { call_id: 7, ts: 3, usage: 12 };
    let setup = announcement_setup(500, 55_000, Some(circuit)).unwrap();
    assert_eq!(
        setup,
        AnnouncementSetup {
            call_id: 7,
            gssi: 500,
            calling_party_issi: 55_000,
            ts: 3,
            usage: 12,
            infinite_timeout: true,
            speech_service: 0,
            encrypted: false,
            granted_to_other_user: true,
            transmission_request_permission: false,
            priority: 0,
            resend: true,
        }
    );
}

#[test]
fn announcement_setup_without_a_circuit_is_refused() {
    assert_eq!(
        announcement_setup(500, 55_000, None),
        Err(AnnouncementRejectReason::NoTimeslot)
    );
}

#[test]
fn basic_auth_takes_username_and_password() {
    let mut s = with_auth(stream("main", "https://x.org/a.mp3"), Some("basic"), None, None);
    s.auth_username = Some("user".to_string());
    s.auth_password = Some("secret".to_string());
    let mut p = patch();
    p.streams = vec![s];
    let cfg = apply_announcement_patch(p).unwrap();
    assert!(matches!(&cfg.streams[0].auth,
        Some(CfgAnnouncementAuth::Basic { username, password }) if username == "user" && password == "secret"));
}

#[test]
fn basic_auth_without_password_is_refused() {
    let mut s = with_auth(stream("main", "https://x.org/a.mp3"), Some("basic"), None, None);
    s.auth_username = Some("user".to_string());
    let mut p = patch();
    p.streams = vec![s];
    assert!(matches!(apply_announcement_patch(p), Err(ConfigError::MissingCredentials { index: 0 })));
}

#[test]
fn credentials_without_kind_are_refused() {
    let mut s = stream("main", "https://x.org/a.mp3");
    s.auth_password = Some("secret".to_string());
    let mut p = patch();
    p.streams = vec![s];
    assert!(matches!(apply_announcement_patch(p), Err(ConfigError::AuthWithoutKind { index: 0 })));
}
