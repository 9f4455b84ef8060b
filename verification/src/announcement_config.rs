//! The `[announcement]` configuration section: the voice gate's talk group
//! and calling party, its live streams with their authentication, and the
//! VAD timing, checked field by field in a fixed order so the first
//! problem is the one reported.
//!
//! The level thresholds are decibel values; their three checks (each in
//! range, stop below start) are made by the caller and passed in, in their
//! place in the order.

use vstd::prelude::*;
use vstd::string::StringSliceAdditionalSpecFns;
use vstd::utf8::encode_utf8;

verus! {

/// Authentication for one announcement stream.
#[derive(Clone, Debug)]
pub enum CfgAnnouncementAuth {
    /// `Authorization: Bearer <value>` header.
    Bearer(String),
    /// Arbitrary header: `name: value`.
    Header { name: String, value: String },
    /// Query parameter appended to the stream URL: `name=value`.
    Query { name: String, value: String },
    /// HTTP Basic authentication with a user name and password.
    Basic { username: String, password: String },
}

/// One configured live audio stream.
#[derive(Clone, Debug)]
pub struct CfgAnnouncementStream {
    pub label: String,
    pub url: String,
    pub auth: Option<CfgAnnouncementAuth>,
}

/// One stream as written in the configuration file.
#[derive(Clone, Debug)]
pub struct CfgAnnouncementStreamDto {
    pub label: String,
    pub url: String,
    /// Auth kind: "bearer" | "header" | "query" | "basic".
    pub auth_kind: Option<String>,
    pub auth_name: Option<String>,
    pub auth_value: Option<String>,
    /// User name for "basic".
    pub auth_username: Option<String>,
    /// Password for "basic".
    pub auth_password: Option<String>,
}

/// The caller's verdicts on the two decibel thresholds.
#[derive(Clone, Copy, Debug, PartialEq, Eq, Structural)]
pub struct DbfsChecks {
    /// The start threshold lies in -60..=0 dBFS.
    pub start_in_range: bool,
    /// The stop threshold lies in -80..=0 dBFS.
    pub stop_in_range: bool,
    /// The stop threshold is below the start threshold.
    pub stop_below_start: bool,
}

/// The section as read from the configuration file.
#[derive(Clone, Debug)]
pub struct AnnouncementPatch {
    /// Keys of the section that no field takes.
    pub unrecognized: Vec<String>,
    pub enabled: bool,
    pub gssi: u32,
    pub issi: u32,
    pub streams: Vec<CfgAnnouncementStreamDto>,
    pub active_stream: String,
    pub dbfs: DbfsChecks,
    pub vad_start_ms: u32,
    pub silence_timeout_ms: u32,
    pub stream_loss_grace_ms: u32,
    pub max_call_duration_secs: u32,
}

/// The checked section (the thresholds stay with the caller).
#[derive(Clone, Debug)]
pub struct AnnouncementSettings {
    pub enabled: bool,
    pub gssi: u32,
    pub issi: u32,
    pub streams: Vec<CfgAnnouncementStream>,
    pub active_stream: String,
    pub vad_start_ms: u32,
    pub silence_timeout_ms: u32,
    pub stream_loss_grace_ms: u32,
    pub max_call_duration_secs: u32,
}

/// Which auth kind lacks its name.
#[derive(Clone, Copy, Debug, PartialEq, Eq, Structural)]
pub enum NamedAuthKind {
    Header,
    Query,
}

/// What is wrong with the section.
#[derive(Clone, Debug)]
pub enum ConfigError {
    UnrecognizedFields(Vec<String>),
    /// `gssi` is not in 1..=0xFFFFFF.
    Gssi,
    /// `issi` is not in 1..=0xFFFFFF.
    Issi,
    /// `max_call_duration_secs` is not in 30..=3600.
    MaxCallDuration,
    /// `vad_start_dbfs` is not in -60..=0.
    VadStartDbfs,
    /// `vad_stop_dbfs` is not in -80..=0.
    VadStopDbfs,
    /// `vad_stop_dbfs` is not below `vad_start_dbfs`.
    Hysteresis,
    /// `vad_start_ms` is not in 20..=5000.
    VadStartMs,
    /// `silence_timeout_ms` is not in 100..=60000.
    SilenceTimeout,
    /// `stream_loss_grace_ms` is above 60000.
    StreamLossGrace,
    /// No stream is configured.
    NoStreams,
    /// More than eight streams are configured.
    TooManyStreams,
    /// Stream `index` has a blank label.
    EmptyLabel { index: usize },
    /// Stream `index` repeats an earlier label.
    DuplicateLabel { index: usize, label: String },
    /// Stream `index` has a URL that is neither `http://` nor `https://`.
    BadUrl { index: usize },
    /// Stream `index` sets `auth_kind` without `auth_value`.
    MissingAuthValue { index: usize },
    /// Stream `index` uses basic auth without `auth_username` or
    /// `auth_password`.
    MissingCredentials { index: usize },
    /// Stream `index` uses a header or query auth without `auth_name`.
    MissingAuthName { index: usize, kind: NamedAuthKind },
    /// Stream `index` has an unknown `auth_kind`.
    BadAuthKind { index: usize, kind: String },
    /// Stream `index` sets `auth_name`, `auth_value`, `auth_username` or
    /// `auth_password` without `auth_kind`.
    AuthWithoutKind { index: usize },
    /// `active_stream` is none of the labels.
    UnknownActiveStream { active: String },
}

/// An error as plain values.
pub ghost enum ConfigErrorView {
    UnrecognizedFields(Seq<Seq<char>>),
    Gssi,
    Issi,
    MaxCallDuration,
    VadStartDbfs,
    VadStopDbfs,
    Hysteresis,
    VadStartMs,
    SilenceTimeout,
    StreamLossGrace,
    NoStreams,
    TooManyStreams,
    EmptyLabel(int),
    DuplicateLabel(int, Seq<char>),
    BadUrl(int),
    MissingAuthValue(int),
    MissingCredentials(int),
    MissingAuthName(int, NamedAuthKind),
    BadAuthKind(int, Seq<char>),
    AuthWithoutKind(int),
    UnknownActiveStream(Seq<char>),
}

/// An error as plain values.
pub open spec fn error_view(e: ConfigError) -> ConfigErrorView {
    match e {
        ConfigError::UnrecognizedFields(keys) => ConfigErrorView::UnrecognizedFields(
            keys@.map_values(|k: String| k@),
        ),
        ConfigError::Gssi => ConfigErrorView::Gssi,
        ConfigError::Issi => ConfigErrorView::Issi,
        ConfigError::MaxCallDuration => ConfigErrorView::MaxCallDuration,
        ConfigError::VadStartDbfs => ConfigErrorView::VadStartDbfs,
        ConfigError::VadStopDbfs => ConfigErrorView::VadStopDbfs,
        ConfigError::Hysteresis => ConfigErrorView::Hysteresis,
        ConfigError::VadStartMs => ConfigErrorView::VadStartMs,
        ConfigError::SilenceTimeout => ConfigErrorView::SilenceTimeout,
        ConfigError::StreamLossGrace => ConfigErrorView::StreamLossGrace,
        ConfigError::NoStreams => ConfigErrorView::NoStreams,
        ConfigError::TooManyStreams => ConfigErrorView::TooManyStreams,
        ConfigError::EmptyLabel { index } => ConfigErrorView::EmptyLabel(index as int),
        ConfigError::DuplicateLabel { index, label } => ConfigErrorView::DuplicateLabel(
            index as int,
            label@,
        ),
        ConfigError::BadUrl { index } => ConfigErrorView::BadUrl(index as int),
        ConfigError::MissingAuthValue { index } => ConfigErrorView::MissingAuthValue(index as int),
        ConfigError::MissingCredentials { index } => ConfigErrorView::MissingCredentials(
            index as int,
        ),
        ConfigError::MissingAuthName { index, kind } => ConfigErrorView::MissingAuthName(
            index as int,
            kind,
        ),
        ConfigError::BadAuthKind { index, kind } => ConfigErrorView::BadAuthKind(
            index as int,
            kind@,
        ),
        ConfigError::AuthWithoutKind { index } => ConfigErrorView::AuthWithoutKind(index as int),
        ConfigError::UnknownActiveStream { active } => ConfigErrorView::UnknownActiveStream(
            active@,
        ),
    }
}

/// The UTF-8 bytes of a string.
pub open spec fn utf8_of(s: String) -> Seq<u8> {
    encode_utf8(s@)
}

/// The length of the UTF-8 encoding of a Unicode `White_Space` character
/// at the start of `b`, or zero when `b` does not start with one.
pub open spec fn white_space_len(b: Seq<u8>) -> int {
    if b.len() >= 1 && (b[0] == 0x20u8 || (0x09u8 <= b[0] && b[0] <= 0x0du8)) {
        1
    } else if b.len() >= 2 && b[0] == 0xc2u8 && (b[1] == 0x85u8 || b[1] == 0xa0u8) {
        2
    } else if b.len() >= 3 && ((b[0] == 0xe1u8 && b[1] == 0x9au8 && b[2] == 0x80u8) || (b[0]
        == 0xe2u8 && b[1] == 0x80u8 && ((0x80u8 <= b[2] && b[2] <= 0x8au8) || b[2] == 0xa8u8
        || b[2] == 0xa9u8 || b[2] == 0xafu8)) || (b[0] == 0xe2u8 && b[1] == 0x81u8 && b[2]
        == 0x9fu8) || (b[0] == 0xe3u8 && b[1] == 0x80u8 && b[2] == 0x80u8)) {
        3
    } else {
        0
    }
}

/// The bytes are the UTF-8 encoding of white space only (so trimming
/// leaves nothing).
pub open spec fn is_blank(b: Seq<u8>) -> bool
    decreases b.len(),
{
    if b.len() == 0 {
        true
    } else if white_space_len(b) == 0 {
        false
    } else {
        is_blank(b.skip(white_space_len(b)))
    }
}

/// `p` is a prefix of `b`.
pub open spec fn has_prefix(b: Seq<u8>, p: Seq<u8>) -> bool {
    p.len() <= b.len() && b.subrange(0, p.len() as int) == p
}

/// `https://`
pub open spec fn https_prefix() -> Seq<u8> {
    seq![104u8, 116u8, 116u8, 112u8, 115u8, 58u8, 47u8, 47u8]
}

/// `http://`
pub open spec fn http_prefix() -> Seq<u8> {
    seq![104u8, 116u8, 116u8, 112u8, 58u8, 47u8, 47u8]
}

/// `bearer`
pub open spec fn bearer_word() -> Seq<u8> {
    seq![98u8, 101u8, 97u8, 114u8, 101u8, 114u8]
}

/// `header`
pub open spec fn header_word() -> Seq<u8> {
    seq![104u8, 101u8, 97u8, 100u8, 101u8, 114u8]
}

/// `query`
pub open spec fn query_word() -> Seq<u8> {
    seq![113u8, 117u8, 101u8, 114u8, 121u8]
}

/// `basic`
pub open spec fn basic_word() -> Seq<u8> {
    seq![98u8, 97u8, 115u8, 105u8, 99u8]
}

/// What is wrong with stream `i`, all earlier streams being fine.
pub open spec fn stream_error(streams: Seq<CfgAnnouncementStreamDto>, i: int) -> Option<
    ConfigErrorView,
> {
    let s = streams[i];
    if is_blank(utf8_of(s.label)) {
        Some(ConfigErrorView::EmptyLabel(i))
    } else if exists|j: int| 0 <= j < i && #[trigger] streams[j].label@ == s.label@ {
        Some(ConfigErrorView::DuplicateLabel(i, s.label@))
    } else if !has_prefix(utf8_of(s.url), https_prefix()) && !has_prefix(
        utf8_of(s.url),
        http_prefix(),
    ) {
        Some(ConfigErrorView::BadUrl(i))
    } else {
        match s.auth_kind {
            Some(kind) => if utf8_of(kind) == basic_word() {
                if s.auth_username is None || s.auth_password is None {
                    Some(ConfigErrorView::MissingCredentials(i))
                } else {
                    None
                }
            } else if s.auth_value is None {
                Some(ConfigErrorView::MissingAuthValue(i))
            } else if utf8_of(kind) == bearer_word() {
                None
            } else if utf8_of(kind) == header_word() {
                if s.auth_name is None {
                    Some(ConfigErrorView::MissingAuthName(i, NamedAuthKind::Header))
                } else {
                    None
                }
            } else if utf8_of(kind) == query_word() {
                if s.auth_name is None {
                    Some(ConfigErrorView::MissingAuthName(i, NamedAuthKind::Query))
                } else {
                    None
                }
            } else {
                Some(ConfigErrorView::BadAuthKind(i, kind@))
            },
            None => if s.auth_name is Some || s.auth_value is Some || s.auth_username is Some
                || s.auth_password is Some {
                Some(ConfigErrorView::AuthWithoutKind(i))
            } else {
                None
            },
        }
    }
}

/// The first problem among the first `n` streams.
pub open spec fn streams_error(streams: Seq<CfgAnnouncementStreamDto>, n: int) -> Option<
    ConfigErrorView,
>
    decreases n,
{
    if n <= 0 {
        None
    } else {
        match streams_error(streams, n - 1) {
            Some(e) => Some(e),
            None => stream_error(streams, n - 1),
        }
    }
}

/// The first problem with the section, in the order the fields are checked.
pub open spec fn patch_error(p: AnnouncementPatch) -> Option<ConfigErrorView> {
    if p.unrecognized@.len() > 0 {
        Some(ConfigErrorView::UnrecognizedFields(p.unrecognized@.map_values(|k: String| k@)))
    } else if !(1 <= p.gssi <= 0xFFFFFF) {
        Some(ConfigErrorView::Gssi)
    } else if !(1 <= p.issi <= 0xFFFFFF) {
        Some(ConfigErrorView::Issi)
    } else if !(30 <= p.max_call_duration_secs <= 3600) {
        Some(ConfigErrorView::MaxCallDuration)
    } else if !p.dbfs.start_in_range {
        Some(ConfigErrorView::VadStartDbfs)
    } else if !p.dbfs.stop_in_range {
        Some(ConfigErrorView::VadStopDbfs)
    } else if !p.dbfs.stop_below_start {
        Some(ConfigErrorView::Hysteresis)
    } else if !(20 <= p.vad_start_ms <= 5000) {
        Some(ConfigErrorView::VadStartMs)
    } else if !(100 <= p.silence_timeout_ms <= 60000) {
        Some(ConfigErrorView::SilenceTimeout)
    } else if p.stream_loss_grace_ms > 60000 {
        Some(ConfigErrorView::StreamLossGrace)
    } else if p.streams@.len() == 0 {
        Some(ConfigErrorView::NoStreams)
    } else if p.streams@.len() > 8 {
        Some(ConfigErrorView::TooManyStreams)
    } else if streams_error(p.streams@, p.streams@.len() as int) is Some {
        streams_error(p.streams@, p.streams@.len() as int)
    } else if !(exists|j: int|
        0 <= j < p.streams@.len() && #[trigger] p.streams@[j].label@ == p.active_stream@) {
        Some(ConfigErrorView::UnknownActiveStream(p.active_stream@))
    } else {
        None
    }
}

/// `o` holds a string equal to `v`.
pub open spec fn holds(o: Option<String>, v: Seq<char>) -> bool {
    match o {
        Some(x) => x@ == v,
        None => false,
    }
}

/// The authentication a valid stream entry describes.
pub open spec fn auth_of(s: CfgAnnouncementStreamDto, auth: Option<CfgAnnouncementAuth>) -> bool {
    match s.auth_kind {
        None => auth is None,
        Some(kind) => match auth {
            Some(CfgAnnouncementAuth::Bearer(v)) => utf8_of(kind) == bearer_word() && holds(
                s.auth_value,
                v@,
            ),
            Some(CfgAnnouncementAuth::Header { name, value }) => utf8_of(kind) == header_word()
                && holds(s.auth_value, value@) && holds(s.auth_name, name@),
            Some(CfgAnnouncementAuth::Query { name, value }) => utf8_of(kind) == query_word()
                && holds(s.auth_value, value@) && holds(s.auth_name, name@),
            Some(CfgAnnouncementAuth::Basic { username, password }) => utf8_of(kind)
                == basic_word() && holds(s.auth_username, username@) && holds(
                s.auth_password,
                password@,
            ),
            None => false,
        },
    }
}

/// The UTF-8 bytes of a string.
fn utf8(s: &String) -> (b: &[u8])
    ensures
        b@ == utf8_of(*s),
{
    s.as_str().as_bytes()
}

/// The length of the white-space encoding at position `i` of `b`.
fn white_space_len_at(b: &[u8], i: usize) -> (k: usize)
    requires
        i <= b@.len(),
    ensures
        k == white_space_len(b@.skip(i as int)),
        k <= b@.len() - i,
{
    let n = b.len() - i;
    let ghost t = b@.skip(i as int);
    if n >= 1 && (b[i] == 0x20u8 || (0x09u8 <= b[i] && b[i] <= 0x0du8)) {
        return 1;
    }
    if n >= 2 && b[i] == 0xc2u8 && (b[i + 1] == 0x85u8 || b[i + 1] == 0xa0u8) {
        return 2;
    }
    if n >= 3 {
        let (x, y, z) = (b[i], b[i + 1], b[i + 2]);
        assert(t[0] == x && t[1] == y && t[2] == z);
        if (x == 0xe1u8 && y == 0x9au8 && z == 0x80u8) || (x == 0xe2u8 && y == 0x80u8 && ((0x80u8
            <= z && z <= 0x8au8) || z == 0xa8u8 || z == 0xa9u8 || z == 0xafu8)) || (x == 0xe2u8
            && y == 0x81u8 && z == 0x9fu8) || (x == 0xe3u8 && y == 0x80u8 && z == 0x80u8) {
            return 3;
        }
    }
    0
}

/// Whether the bytes encode white space only (see [`is_blank`]).
pub fn is_blank_utf8(b: &[u8]) -> (r: bool)
    ensures
        r == is_blank(b@),
{
    let mut i: usize = 0;
    assert(b@.skip(0) =~= b@);
    while i < b.len()
        invariant
            i <= b@.len(),
            is_blank(b@) == is_blank(b@.skip(i as int)),
        decreases b@.len() - i,
    {
        let k = white_space_len_at(b, i);
        if k == 0 {
            return false;
        }
        assert(b@.skip(i as int).skip(k as int) =~= b@.skip(i + k));
        i = i + k;
    }
    assert(b@.skip(i as int) =~= Seq::<u8>::empty());
    true
}

/// Whether `p` is a prefix of `b`.
fn starts_with_bytes(b: &[u8], p: &[u8]) -> (r: bool)
    ensures
        r == has_prefix(b@, p@),
{
    if p.len() > b.len() {
        return false;
    }
    let mut i: usize = 0;
    while i < p.len()
        invariant
            i <= p@.len() <= b@.len(),
            forall|k: int| 0 <= k < i ==> b@[k] == p@[k],
        decreases p@.len() - i,
    {
        if b[i] != p[i] {
            assert(b@.subrange(0, p@.len() as int)[i as int] != p@[i as int]);
            return false;
        }
        i = i + 1;
    }
    assert(b@.subrange(0, p@.len() as int) =~= p@);
    true
}

/// Whether two byte strings are equal.
fn bytes_eq(a: &[u8], b: &[u8]) -> (r: bool)
    ensures
        r == (a@ == b@),
{
    if a.len() != b.len() {
        return false;
    }
    let r = starts_with_bytes(a, b);
    proof {
        if r {
            assert(a@ =~= a@.subrange(0, b@.len() as int));
        } else {
            assert(a@ == b@ ==> a@.subrange(0, b@.len() as int) =~= b@);
        }
    }
    r
}

/// Check stream `index` against the streams accepted before it and build
/// its configuration.
fn check_stream(
    index: usize,
    s: CfgAnnouncementStreamDto,
    accepted: &Vec<CfgAnnouncementStream>,
    Ghost(all): Ghost<Seq<CfgAnnouncementStreamDto>>,
) -> (r: Result<CfgAnnouncementStream, ConfigError>)
    requires
        index < all.len(),
        all[index as int] == s,
        accepted@.len() == index,
        forall|j: int| 0 <= j < index ==> #[trigger] accepted@[j].label@ == all[j].label@,
    ensures
        match r {
            Ok(c) => {
                &&& stream_error(all, index as int) is None
                &&& c.label@ == s.label@
                &&& c.url@ == s.url@
                &&& auth_of(s, c.auth)
            },
            Err(e) => stream_error(all, index as int) == Some(error_view(e)),
        },
{
    if is_blank_utf8(utf8(&s.label)) {
        return Err(ConfigError::EmptyLabel { index });
    }
    let mut j: usize = 0;
    while j < accepted.len()
        invariant
            j <= accepted@.len(),
            accepted@.len() == index,
            index < all.len(),
            all[index as int] == s,
            forall|k: int| 0 <= k < index ==> #[trigger] accepted@[k].label@ == all[k].label@,
            forall|k: int| 0 <= k < j ==> #[trigger] all[k].label@ != s.label@,
            !is_blank(utf8_of(s.label)),
        decreases accepted@.len() - j,
    {
        if accepted[j].label == s.label {
            assert(all[j as int].label@ == s.label@);
            assert(stream_error(all, index as int) == Some(
                ConfigErrorView::DuplicateLabel(index as int, s.label@),
            ));
            return Err(ConfigError::DuplicateLabel { index, label: s.label });
        }
        j = j + 1;
    }
    assert(!exists|k: int| 0 <= k < index && #[trigger] all[k].label@ == s.label@);
    let https: [u8; 8] = [104u8, 116u8, 116u8, 112u8, 115u8, 58u8, 47u8, 47u8];
    let http: [u8; 7] = [104u8, 116u8, 116u8, 112u8, 58u8, 47u8, 47u8];
    assert(https@ == https_prefix());
    assert(http@ == http_prefix());
    let url = utf8(&s.url);
    if !starts_with_bytes(url, &https) && !starts_with_bytes(url, &http) {
        return Err(ConfigError::BadUrl { index });
    }
    match s.auth_kind {
        Some(kind) => {
            let basic: [u8; 5] = [98u8, 97u8, 115u8, 105u8, 99u8];
            assert(basic@ == basic_word());
            if bytes_eq(utf8(&kind), &basic) {
                return match (s.auth_username, s.auth_password) {
                    (Some(username), Some(password)) => Ok(
                        CfgAnnouncementStream {
                            label: s.label,
                            url: s.url,
                            auth: Some(CfgAnnouncementAuth::Basic { username, password }),
                        },
                    ),
                    _ => Err(ConfigError::MissingCredentials { index }),
                };
            }
            let value = match s.auth_value {
                Some(v) => v,
                None => {
                    return Err(ConfigError::MissingAuthValue { index });
                },
            };
            let bearer: [u8; 6] = [98u8, 101u8, 97u8, 114u8, 101u8, 114u8];
            let header: [u8; 6] = [104u8, 101u8, 97u8, 100u8, 101u8, 114u8];
            let query: [u8; 5] = [113u8, 117u8, 101u8, 114u8, 121u8];
            assert(bearer@ == bearer_word());
            assert(header@ == header_word());
            assert(query@ == query_word());
            let k = utf8(&kind);
            let auth = if bytes_eq(k, &bearer) {
                CfgAnnouncementAuth::Bearer(value)
            } else if bytes_eq(k, &header) {
                match s.auth_name {
                    Some(name) => CfgAnnouncementAuth::Header { name, value },
                    None => {
                        return Err(
                            ConfigError::MissingAuthName { index, kind: NamedAuthKind::Header },
                        );
                    },
                }
            } else if bytes_eq(k, &query) {
                match s.auth_name {
                    Some(name) => CfgAnnouncementAuth::Query { name, value },
                    None => {
                        return Err(
                            ConfigError::MissingAuthName { index, kind: NamedAuthKind::Query },
                        );
                    },
                }
            } else {
                return Err(ConfigError::BadAuthKind { index, kind });
            };
            Ok(CfgAnnouncementStream { label: s.label, url: s.url, auth: Some(auth) })
        },
        None => {
            if s.auth_name.is_some() || s.auth_value.is_some() || s.auth_username.is_some()
                || s.auth_password.is_some() {
                return Err(ConfigError::AuthWithoutKind { index });
            }
            Ok(CfgAnnouncementStream { label: s.label, url: s.url, auth: None })
        },
    }
}

/// Check the `[announcement]` section and build its settings; the first
/// problem, in the order of [`patch_error`], is the error.
pub fn apply_announcement_patch(p: AnnouncementPatch) -> (r: Result<AnnouncementSettings, ConfigError>)
    ensures
        match r {
            Err(e) => patch_error(p) == Some(error_view(e)),
            Ok(c) => {
                &&& patch_error(p) is None
                &&& c.enabled == p.enabled
                &&& c.gssi == p.gssi
                &&& c.issi == p.issi
                &&& c.active_stream@ == p.active_stream@
                &&& c.vad_start_ms == p.vad_start_ms
                &&& c.silence_timeout_ms == p.silence_timeout_ms
                &&& c.stream_loss_grace_ms == p.stream_loss_grace_ms
                &&& c.max_call_duration_secs == p.max_call_duration_secs
                &&& c.streams@.len() == p.streams@.len()
                &&& forall|i: int|
                    0 <= i < p.streams@.len() ==> {
                        &&& #[trigger] c.streams@[i].label@ == p.streams@[i].label@
                        &&& c.streams@[i].url@ == p.streams@[i].url@
                        &&& auth_of(p.streams@[i], c.streams@[i].auth)
                    }
            },
        },
{
    if p.unrecognized.len() > 0 {
        return Err(ConfigError::UnrecognizedFields(p.unrecognized));
    }
    if !(1 <= p.gssi && p.gssi <= 0xFFFFFF) {
        return Err(ConfigError::Gssi);
    }
    if !(1 <= p.issi && p.issi <= 0xFFFFFF) {
        return Err(ConfigError::Issi);
    }
    if !(30 <= p.max_call_duration_secs && p.max_call_duration_secs <= 3600) {
        return Err(ConfigError::MaxCallDuration);
    }
    if !p.dbfs.start_in_range {
        return Err(ConfigError::VadStartDbfs);
    }
    if !p.dbfs.stop_in_range {
        return Err(ConfigError::VadStopDbfs);
    }
    if !p.dbfs.stop_below_start {
        return Err(ConfigError::Hysteresis);
    }
    if !(20 <= p.vad_start_ms && p.vad_start_ms <= 5000) {
        return Err(ConfigError::VadStartMs);
    }
    if !(100 <= p.silence_timeout_ms && p.silence_timeout_ms <= 60000) {
        return Err(ConfigError::SilenceTimeout);
    }
    if p.stream_loss_grace_ms > 60000 {
        return Err(ConfigError::StreamLossGrace);
    }
    if p.streams.len() == 0 {
        return Err(ConfigError::NoStreams);
    }
    if p.streams.len() > 8 {
        return Err(ConfigError::TooManyStreams);
    }
    let ghost all = p.streams@;
    let n = p.streams.len();
    let mut rest = p.streams;
    let mut streams: Vec<CfgAnnouncementStream> = Vec::new();
    let mut i: usize = 0;
    while i < n
        invariant
            i <= n,
            n == all.len(),
            rest@ == all.skip(i as int),
            all == p.streams@,
            p.unrecognized@.len() == 0,
            1 <= p.gssi <= 0xFFFFFF,
            1 <= p.issi <= 0xFFFFFF,
            30 <= p.max_call_duration_secs <= 3600,
            p.dbfs.start_in_range && p.dbfs.stop_in_range && p.dbfs.stop_below_start,
            20 <= p.vad_start_ms <= 5000,
            100 <= p.silence_timeout_ms <= 60000,
            p.stream_loss_grace_ms <= 60000,
            1 <= n <= 8,
            streams@.len() == i,
            streams_error(all, i as int) is None,
            forall|k: int|
                0 <= k < i ==> {
                    &&& #[trigger] streams@[k].label@ == all[k].label@
                    &&& streams@[k].url@ == all[k].url@
                    &&& auth_of(all[k], streams@[k].auth)
                },
        decreases n - i,
    {
        let s = rest.remove(0);
        assert(all.skip(i as int)[0] == all[i as int]);
        assert(all.skip(i as int).drop_first() =~= all.skip(i + 1));
        match check_stream(i, s, &streams, Ghost(all)) {
            Ok(c) => {
                streams.push(c);
            },
            Err(e) => {
                assert(streams_error(all, i + 1) == stream_error(all, i as int));
                proof {
                    lemma_streams_error_stays(all, i + 1, n as int);
                }
                return Err(e);
            },
        }
        i = i + 1;
    }
    let mut j: usize = 0;
    let mut found = false;
    while j < streams.len()
        invariant
            j <= streams@.len(),
            streams@.len() == all.len(),
            forall|k: int| 0 <= k < all.len() ==> #[trigger] streams@[k].label@ == all[k].label@,
            found <==> exists|k: int| 0 <= k < j && #[trigger] all[k].label@ == p.active_stream@,
        decreases streams@.len() - j,
    {
        if streams[j].label == p.active_stream {
            assert(all[j as int].label@ == p.active_stream@);
            found = true;
        }
        j = j + 1;
    }
    if !found {
        return Err(ConfigError::UnknownActiveStream { active: p.active_stream });
    }
    Ok(
        AnnouncementSettings {
            enabled: p.enabled,
            gssi: p.gssi,
            issi: p.issi,
            streams,
            active_stream: p.active_stream,
            vad_start_ms: p.vad_start_ms,
            silence_timeout_ms: p.silence_timeout_ms,
            stream_loss_grace_ms: p.stream_loss_grace_ms,
            max_call_duration_secs: p.max_call_duration_secs,
        },
    )
}

/// Once a prefix of the streams has a problem, every longer prefix
/// reports that same problem.
proof fn lemma_streams_error_stays(all: Seq<CfgAnnouncementStreamDto>, i: int, n: int)
    requires
        0 <= i <= n,
        streams_error(all, i) is Some,
    ensures
        streams_error(all, n) == streams_error(all, i),
    decreases n - i,
{
    if i < n {
        lemma_streams_error_stays(all, i, n - 1);
    }
}

proof fn lemma_no_stream_error(all: Seq<CfgAnnouncementStreamDto>, n: int, i: int)
    requires
        0 <= i < n,
        streams_error(all, n) is None,
    ensures
        stream_error(all, i) is None,
    decreases n,
{
    if i < n - 1 {
        lemma_no_stream_error(all, n - 1, i);
    }
}

/// Law: an accepted section has between one and eight streams, with
/// distinct non-blank labels and `http://` or `https://` URLs, one of
/// which is the active stream; its talk group and calling party are
/// 24-bit and non-zero; it has no unrecognised keys; the caller's three
/// level checks passed; the call lasts 30 to 3600 s at most; speech starts
/// after 20 to 5000 ms of voicing, ends after 100 to 60000 ms of silence,
/// and a stalled stream is tolerated for at most 60000 ms.
pub proof fn law_accepted_section(p: AnnouncementPatch)
    requires
        patch_error(p) is None,
    ensures
        1 <= p.streams@.len() <= 8,
        forall|i: int, j: int|
            0 <= i < j < p.streams@.len() ==> #[trigger] p.streams@[i].label@
                != #[trigger] p.streams@[j].label@,
        forall|i: int| 0 <= i < p.streams@.len() ==> !is_blank(utf8_of(#[trigger] p.streams@[i].label)),
        forall|i: int|
            0 <= i < p.streams@.len() ==> has_prefix(utf8_of(#[trigger] p.streams@[i].url), https_prefix())
                || has_prefix(utf8_of(p.streams@[i].url), http_prefix()),
        exists|j: int| 0 <= j < p.streams@.len() && #[trigger] p.streams@[j].label@ == p.active_stream@,
        1 <= p.gssi <= 0xFFFFFF,
        1 <= p.issi <= 0xFFFFFF,
        p.unrecognized@.len() == 0,
        p.dbfs.start_in_range && p.dbfs.stop_in_range && p.dbfs.stop_below_start,
        30 <= p.max_call_duration_secs <= 3600,
        20 <= p.vad_start_ms <= 5000,
        100 <= p.silence_timeout_ms <= 60000,
        p.stream_loss_grace_ms <= 60000,
{
    let all = p.streams@;
    let n = all.len() as int;
    assert forall|i: int, j: int| 0 <= i < j < n implies #[trigger] all[i].label@ != #[trigger] all[j].label@ by {
        lemma_no_stream_error(all, n, j);
    }
    assert forall|i: int| 0 <= i < n implies !is_blank(utf8_of(#[trigger] all[i].label)) by {
        lemma_no_stream_error(all, n, i);
    }
    assert forall|i: int| 0 <= i < n implies has_prefix(utf8_of(#[trigger] all[i].url), https_prefix())
        || has_prefix(utf8_of(all[i].url), http_prefix()) by {
        lemma_no_stream_error(all, n, i);
    }
}

/// Law: a section with any number out of its documented range is refused,
/// whatever else it holds: talk group and calling party outside
/// `1..=0xFFFFFF`, call duration outside `30..=3600` s, voicing time
/// outside `20..=5000` ms, silence timeout outside `100..=60000` ms, a
/// stream-loss grace above 60000 ms, or no stream or more than eight.
pub proof fn law_out_of_range_refused(p: AnnouncementPatch)
    requires
        !(1 <= p.gssi <= 0xFFFFFF) || !(1 <= p.issi <= 0xFFFFFF) || !(30 <= p.max_call_duration_secs
            <= 3600) || !(20 <= p.vad_start_ms <= 5000) || !(100 <= p.silence_timeout_ms <= 60000)
            || p.stream_loss_grace_ms > 60000 || p.streams@.len() == 0 || p.streams@.len() > 8,
    ensures
        patch_error(p) is Some,
{
    if patch_error(p) is None {
        law_accepted_section(p);
    }
}

} // verus!
