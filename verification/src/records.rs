//! The master's records: database rows and what the API hands out.
use vstd::prelude::*;
use crate::model::{Hop, TargetEndpoint};
use crate::text::{chars_of, string_of, trim, trim_chars};

verus! {

/// A registered node.
pub struct Node {
    pub id: String,
    pub name: String,
    pub addr: String,
    pub status: String,
    pub last_seen: Option<i64>,
    pub created_at: i64,
    pub weight: i64,
    pub health: String,
    pub latency_ms: Option<i64>,
    pub fail_count: i64,
    pub probe_total: i64,
    pub probe_ok: i64,
    pub fail_events: i64,
    pub down_since: Option<i64>,
    pub downtime_ms: i64,
    pub cert_not_after_ms: i64,
    pub capabilities: String,
}

/// A request to register a node.
pub struct NodeCreate {
    pub id: String,
    pub name: String,
    pub addr: String,
    pub weight: i64,
}

/// A forward as stored: hops and targets as JSON text.
pub struct ForwardRow {
    pub id: i64,
    pub name: String,
    pub listen_port: i64,
    pub protocol: String,
    pub path: String,
    pub target: String,
    pub enabled: i64,
    pub created_at: i64,
    pub owner_id: i64,
    pub target_strategy: String,
    pub bytes_in: i64,
    pub bytes_out: i64,
    pub quota_in_bytes: Option<i64>,
    pub quota_out_bytes: Option<i64>,
    pub rate_in_bps: Option<i64>,
    pub rate_out_bps: Option<i64>,
    pub quota_reset: Option<String>,
    pub quota_reset_at_ms: Option<i64>,
    pub quota_exhausted_at_ms: Option<i64>,
    pub link_encryption: String,
}

/// The listener state of a forward on one entry node.
pub struct ListenerNodeStatus {
    pub node_id: String,
    pub ok: bool,
    pub error: String,
    pub updated_at: i64,
}

/// A forward as the API shows it.
pub struct Forward {
    pub id: i64,
    pub name: String,
    pub listen_port: i64,
    pub protocol: String,
    pub hops: Vec<Hop>,
    pub targets: Vec<TargetEndpoint>,
    pub target_strategy: String,
    pub enabled: bool,
    pub created_at: i64,
    pub owner_id: i64,
    pub listener_status: Vec<ListenerNodeStatus>,
    pub bytes_in: i64,
    pub bytes_out: i64,
    pub quota_in_bytes: Option<i64>,
    pub quota_out_bytes: Option<i64>,
    pub rate_in_bps: Option<i64>,
    pub rate_out_bps: Option<i64>,
    pub quota_reset: Option<String>,
    pub quota_reset_at_ms: Option<i64>,
    pub quota_exhausted_at_ms: Option<i64>,
    pub link_encryption: String,
}

/// Where a row's targets come from.
pub enum TargetSource {
    /// A JSON array, to be parsed.
    Json(String),
    /// A single legacy address (weight 1).
    Single(String),
    /// Nothing.
    Empty,
}

/// The trimmed target column: a JSON array when it starts with `[`, else a
/// single address when not blank, else nothing.
pub open spec fn target_source_of(raw: Seq<char>) -> (int, Seq<char>) {
    let t = trim(raw);
    if t.len() > 0 && t[0] == '[' {
        (0, t)
    } else if t.len() > 0 {
        (1, t)
    } else {
        (2, t)
    }
}

pub open spec fn source_view(s: TargetSource) -> (int, Seq<char>) {
    match s {
        TargetSource::Json(t) => (0, t@),
        TargetSource::Single(t) => (1, t@),
        TargetSource::Empty => (2, Seq::empty()),
    }
}

/// `v`, or `dflt` when `v` is empty.
pub open spec fn or_default(v: Seq<char>, dflt: Seq<char>) -> Seq<char> {
    if v.len() == 0 {
        dflt
    } else {
        v
    }
}

fn string_or(v: String, dflt: &str) -> (r: String)
    ensures
        r@ == or_default(v@, dflt@),
{
    if v.as_str().unicode_len() == 0 {
        String::from_str(dflt)
    } else {
        v
    }
}

impl ForwardRow {
    pub fn target_source(&self) -> (r: TargetSource)
        ensures
            target_source_of(self.target@).0 == source_view(r).0,
            source_view(r).0 != 2 ==> source_view(r).1 == target_source_of(self.target@).1,
    {
        let t = trim_chars(chars_of(self.target.as_str()).as_slice());
        if t.len() > 0 && t[0] == '[' {
            TargetSource::Json(string_of(t.as_slice()))
        } else if t.len() > 0 {
            TargetSource::Single(string_of(t.as_slice()))
        } else {
            TargetSource::Empty
        }
    }
}

impl Forward {
    /// The API view of a stored forward whose hops and targets were read as
    /// `hops` and `targets`: no strategy means `weighted`, no link
    /// encryption means `tls`, and `enabled` is the row's flag.
    pub fn from_row(r: ForwardRow, hops: Vec<Hop>, targets: Vec<TargetEndpoint>) -> (f: Forward)
        ensures
            f.id == r.id,
            f.name@ == r.name@,
            f.listen_port == r.listen_port,
            f.protocol@ == r.protocol@,
            f.hops.deep_view() == hops.deep_view(),
            f.targets.deep_view() == targets.deep_view(),
            f.target_strategy@ == or_default(r.target_strategy@, "weighted"@),
            f.enabled == (r.enabled != 0),
            f.created_at == r.created_at,
            f.owner_id == r.owner_id,
            f.listener_status@.len() == 0,
            f.bytes_in == r.bytes_in,
            f.bytes_out == r.bytes_out,
            f.quota_in_bytes == r.quota_in_bytes,
            f.quota_out_bytes == r.quota_out_bytes,
            f.rate_in_bps == r.rate_in_bps,
            f.rate_out_bps == r.rate_out_bps,
            f.quota_reset == r.quota_reset,
            f.quota_reset_at_ms == r.quota_reset_at_ms,
            f.quota_exhausted_at_ms == r.quota_exhausted_at_ms,
            f.link_encryption@ == or_default(r.link_encryption@, "tls"@),
    {
        Forward {
            id: r.id,
            name: r.name,
            listen_port: r.listen_port,
            protocol: r.protocol,
            hops,
            targets,
            target_strategy: string_or(r.target_strategy, "weighted"),
            enabled: r.enabled != 0,
            created_at: r.created_at,
            owner_id: r.owner_id,
            listener_status: Vec::new(),
            bytes_in: r.bytes_in,
            bytes_out: r.bytes_out,
            quota_in_bytes: r.quota_in_bytes,
            quota_out_bytes: r.quota_out_bytes,
            rate_in_bps: r.rate_in_bps,
            rate_out_bps: r.rate_out_bps,
            quota_reset: r.quota_reset,
            quota_reset_at_ms: r.quota_reset_at_ms,
            quota_exhausted_at_ms: r.quota_exhausted_at_ms,
            link_encryption: string_or(r.link_encryption, "tls"),
        }
    }
}

// ───────────────────────── users ─────────────────────────

/// A stored user.
pub struct UserRow {
    pub id: i64,
    pub username: String,
    pub password_hash: String,
    pub role: String,
    pub created_at: i64,
    pub updated_at: i64,
}

/// A user as the API shows it (no password hash).
pub struct UserDto {
    pub id: i64,
    pub username: String,
    pub role: String,
    pub created_at: i64,
}

impl UserDto {
    pub fn from_row(u: UserRow) -> (d: UserDto)
        ensures
            d.id == u.id,
            d.username@ == u.username@,
            d.role@ == u.role@,
            d.created_at == u.created_at,
    {
        UserDto { id: u.id, username: u.username, role: u.role, created_at: u.created_at }
    }
}

pub struct LoginRequest {
    pub username: String,
    pub password: String,
}

pub struct RegisterRequest {
    pub username: String,
    pub password: String,
    pub invite_code: String,
}

pub struct AuthResponse {
    pub token: String,
    pub user: UserDto,
}

/// A one-time token that lets a node enroll.
pub struct EnrollmentToken {
    pub token: String,
    pub node_id: String,
    pub expires_at: i64,
    pub used_at: Option<i64>,
    pub created_at: i64,
}

pub struct EnrollRequest {
    pub token: String,
}

/// What an enrolling node receives: its certificate and where to connect.
pub struct EnrollResponse {
    pub node_id: String,
    pub ca_pem: String,
    pub cert_pem: String,
    pub key_pem: String,
    pub master_grpc: String,
    pub data_addr_hint: String,
}

pub struct InviteCode {
    pub code: String,
    pub created_by: i64,
    pub used_by: Option<i64>,
    pub used_at: Option<i64>,
    pub created_at: i64,
}

} // verus!
