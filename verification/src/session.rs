//! Per-connection sessions on an entry node: byte counts while the
//! connection lives, one close, and the snapshot each heartbeat reports.
use vstd::prelude::*;

verus! {

/// Closed sessions stay in the table this long so that at least one
/// heartbeat (every 5 s) reports their final state.
pub const CLOSE_GRACE_MS: i64 = 6_000;

/// What a heartbeat reports of one session.
pub struct SessionEvent {
    pub id: String,
    pub forward_id: i64,
    pub entry_node_id: String,
    pub client_ip: String,
    pub client_port: u32,
    pub target_addr: String,
    pub hops_path: Vec<String>,
    pub protocol: String,
    pub opened_at_ms: i64,
    pub closed_at_ms: i64,
    pub bytes_in: u64,
    pub bytes_out: u64,
    pub close_reason: String,
}

/// The live state of one forwarded connection. `closed_at_ms` is 0 while it
/// is open.
pub struct SessionState {
    pub id: String,
    pub forward_id: i64,
    pub entry_node_id: String,
    pub client_ip: String,
    pub client_port: u32,
    pub target_addr: String,
    pub hops_path: Vec<String>,
    pub protocol: String,
    pub opened_at_ms: i64,
    pub bytes_in: u64,
    pub bytes_out: u64,
    pub closed_at_ms: i64,
    pub close_reason: String,
}

/// `a + n` wrapping at 2^64, as `fetch_add` does.
pub open spec fn wrap_add(a: u64, n: usize) -> u64 {
    ((a as int + n as int) % 0x1_0000_0000_0000_0000) as u64
}

pub fn wrapping_add_usize(a: u64, n: usize) -> (r: u64)
    ensures
        r == wrap_add(a, n),
{
    let m = n as u64;
    assert(m == n);
    if a <= u64::MAX - m {
        a + m
    } else {
        let r = m - (u64::MAX - a) - 1;
        assert(r == (a as int + n as int) % 0x1_0000_0000_0000_0000) by {
            assert(a as int + n as int >= 0x1_0000_0000_0000_0000);
            assert(a as int + n as int - 0x1_0000_0000_0000_0000 < 0x1_0000_0000_0000_0000);
            vstd::arithmetic::div_mod::lemma_fundamental_div_mod_converse(
                a as int + n as int,
                0x1_0000_0000_0000_0000,
                1,
                r as int,
            );
        }
        r
    }
}

/// The session after `close(reason)` at `now`: only the first close counts.
pub open spec fn closed(at: i64, reason: Seq<char>, now: i64, new_reason: Seq<char>) -> (i64, Seq<char>) {
    if at == 0 {
        (now, new_reason)
    } else {
        (at, reason)
    }
}

impl SessionState {
    pub open spec fn is_open(&self) -> bool {
        self.closed_at_ms == 0
    }

    /// `n` more bytes from the client.
    pub fn add_in(&mut self, n: usize)
        ensures
            final(self).bytes_in == wrap_add(old(self).bytes_in, n),
            final(self).bytes_out == old(self).bytes_out,
            final(self).id@ == old(self).id@,
            final(self).closed_at_ms == old(self).closed_at_ms,
            final(self).close_reason@ == old(self).close_reason@,
            info_of(*final(self)) == info_of(*old(self)),
    {
        self.bytes_in = wrapping_add_usize(self.bytes_in, n);
    }

    /// `n` more bytes to the client.
    pub fn add_out(&mut self, n: usize)
        ensures
            final(self).bytes_out == wrap_add(old(self).bytes_out, n),
            final(self).bytes_in == old(self).bytes_in,
            final(self).id@ == old(self).id@,
            final(self).closed_at_ms == old(self).closed_at_ms,
            final(self).close_reason@ == old(self).close_reason@,
            info_of(*final(self)) == info_of(*old(self)),
    {
        self.bytes_out = wrapping_add_usize(self.bytes_out, n);
    }

    /// Marks the session closed at `now_ms` for `reason`; a session that is
    /// already closed keeps its first close.
    pub fn close_at(&mut self, reason: &str, now_ms: i64)
        ensures
            (final(self).closed_at_ms, final(self).close_reason@) == closed(
                old(self).closed_at_ms,
                old(self).close_reason@,
                now_ms,
                reason@,
            ),
            final(self).bytes_in == old(self).bytes_in,
            final(self).bytes_out == old(self).bytes_out,
            final(self).id@ == old(self).id@,
            info_of(*final(self)) == info_of(*old(self)),
    {
        if self.closed_at_ms == 0 {
            self.closed_at_ms = now_ms;
            self.close_reason = String::from_str(reason);
        }
    }

    /// Marks the session closed now.
    pub fn close(&mut self, reason: &str)
        ensures
            exists|now: i64| (final(self).closed_at_ms, final(self).close_reason@) == #[trigger] closed(
                old(self).closed_at_ms,
                old(self).close_reason@,
                now,
                reason@,
            ),
            final(self).bytes_in == old(self).bytes_in,
            final(self).bytes_out == old(self).bytes_out,
            final(self).id@ == old(self).id@,
            info_of(*final(self)) == info_of(*old(self)),
    {
        let now = crate::common::now_ms();
        self.close_at(reason, now);
    }

    pub fn to_event(&self) -> (e: SessionEvent)
        ensures
            event_view(e) == summary(*self),
            e.id@ == self.id@,
            e.forward_id == self.forward_id,
            e.entry_node_id@ == self.entry_node_id@,
            e.client_ip@ == self.client_ip@,
            e.client_port == self.client_port,
            e.target_addr@ == self.target_addr@,
            e.hops_path.deep_view() == self.hops_path.deep_view(),
            e.protocol@ == self.protocol@,
            e.opened_at_ms == self.opened_at_ms,
            e.closed_at_ms == self.closed_at_ms,
            e.bytes_in == self.bytes_in,
            e.bytes_out == self.bytes_out,
            e.close_reason@ == self.close_reason@,
    {
        SessionEvent {
            id: self.id.clone(),
            forward_id: self.forward_id,
            entry_node_id: self.entry_node_id.clone(),
            client_ip: self.client_ip.clone(),
            client_port: self.client_port,
            target_addr: self.target_addr.clone(),
            hops_path: copy_strings(&self.hops_path),
            protocol: self.protocol.clone(),
            opened_at_ms: self.opened_at_ms,
            closed_at_ms: self.closed_at_ms,
            bytes_in: self.bytes_in,
            bytes_out: self.bytes_out,
            close_reason: self.close_reason.clone(),
        }
    }
}

pub fn copy_strings(v: &Vec<String>) -> (r: Vec<String>)
    ensures
        r.deep_view() == v.deep_view(),
{
    let mut r: Vec<String> = Vec::new();
    let mut i: usize = 0;
    while i < v.len()
        invariant
            i <= v.len(),
            r.deep_view() =~= v.deep_view().take(i as int),
        decreases v.len() - i,
    {
        let ghost prev = r.deep_view();
        r.push(v[i].clone());
        assert(r.deep_view() =~= prev.push(v[i as int]@));
        i += 1;
    }
    assert(v.deep_view().take(v.len() as int) =~= v.deep_view());
    r
}

/// Whether a session closed at `closed_at` is past its grace period at `now`.
pub open spec fn expired(closed_at: i64, now: i64) -> bool {
    closed_at > 0 && now - closed_at > CLOSE_GRACE_MS
}

pub open spec fn live_at(now: i64) -> spec_fn(SessionSummary) -> bool {
    |s: SessionSummary| !expired(s.1, now)
}

/// The sessions that a snapshot at `now` keeps.
pub open spec fn retained(v: Seq<SessionSummary>, now: i64) -> Seq<SessionSummary> {
    v.filter(live_at(now))
}

/// The node's table of sessions, in creation order.
pub struct SessionTable {
    sessions: Vec<SessionState>,
}

/// What a session was opened with: forward id, entry node, client address
/// and port, target, path of hops, protocol and opening time.
pub type SessionInfo = (i64, Seq<char>, Seq<char>, u32, Seq<char>, Seq<Seq<char>>, Seq<char>, i64);

/// What the table tells of a session: id, close time (0 while open), bytes
/// from and to the client, what it was opened with, and why it closed.
pub type SessionSummary = (Seq<char>, i64, u64, u64, SessionInfo, Seq<char>);

pub open spec fn info_of(s: SessionState) -> SessionInfo {
    (
        s.forward_id,
        s.entry_node_id@,
        s.client_ip@,
        s.client_port,
        s.target_addr@,
        s.hops_path.deep_view(),
        s.protocol@,
        s.opened_at_ms,
    )
}

pub open spec fn summary(s: SessionState) -> SessionSummary {
    (s.id@, s.closed_at_ms, s.bytes_in, s.bytes_out, info_of(s), s.close_reason@)
}

/// What a reported event tells, in the same shape.
pub open spec fn event_view(e: SessionEvent) -> SessionSummary {
    (
        e.id@,
        e.closed_at_ms,
        e.bytes_in,
        e.bytes_out,
        (
            e.forward_id,
            e.entry_node_id@,
            e.client_ip@,
            e.client_port,
            e.target_addr@,
            e.hops_path.deep_view(),
            e.protocol@,
            e.opened_at_ms,
        ),
        e.close_reason@,
    )
}

/// A session just opened: open, no bytes yet, no close reason.
pub open spec fn opened_view(id: Seq<char>, info: SessionInfo) -> SessionSummary {
    (id, 0, 0, 0, info, Seq::empty())
}

/// A session after `n` more bytes from the client.
pub open spec fn with_in(s: SessionSummary, n: usize) -> SessionSummary {
    (s.0, s.1, wrap_add(s.2, n), s.3, s.4, s.5)
}

/// A session after `n` more bytes to the client.
pub open spec fn with_out(s: SessionSummary, n: usize) -> SessionSummary {
    (s.0, s.1, s.2, wrap_add(s.3, n), s.4, s.5)
}

/// A session after `close(reason)` at `now`: only the first close counts.
pub open spec fn with_close(s: SessionSummary, reason: Seq<char>, now: i64) -> SessionSummary {
    (s.0, closed(s.1, s.5, now, reason).0, s.2, s.3, s.4, closed(s.1, s.5, now, reason).1)
}

/// No two sessions share an id.
pub open spec fn ids_unique(v: Seq<SessionSummary>) -> bool {
    forall|i: int, j: int| 0 <= i < j < v.len() ==> #[trigger] v[i].0 != #[trigger] v[j].0
}

proof fn lemma_filter_ids_unique(v: Seq<SessionSummary>, p: spec_fn(SessionSummary) -> bool)
    requires
        ids_unique(v),
    ensures
        ids_unique(v.filter(p)),
        forall|i: int| 0 <= i < v.filter(p).len() ==> v.contains(#[trigger] v.filter(p)[i]),
    decreases v.len(),
{
    reveal(Seq::filter);
    if v.len() > 0 {
        let d = v.drop_last();
        assert(ids_unique(d)) by {
            assert forall|i: int, j: int| 0 <= i < j < d.len() implies #[trigger] d[i].0 != #[trigger] d[j].0 by {
                assert(d[i] == v[i] && d[j] == v[j]);
            }
        }
        lemma_filter_ids_unique(d, p);
        let r = d.filter(p);
        assert forall|i: int| 0 <= i < r.len() implies v.contains(#[trigger] r[i]) by {
            assert(d.contains(r[i]));
            let k = choose|k: int| 0 <= k < d.len() && d[k] == r[i];
            assert(v[k] == r[i]);
        }
        if p(v.last()) {
            let q = r.push(v.last());
            assert(v.filter(p) == q);
            assert forall|i: int, j: int| 0 <= i < j < q.len() implies #[trigger] q[i].0 != #[trigger] q[j].0 by {
                if j == r.len() {
                    assert(q[i] == r[i]);
                    assert(d.contains(r[i]));
                    let k = choose|k: int| 0 <= k < d.len() && d[k] == r[i];
                    assert(v[k] == r[i]);
                    assert(v[k].0 != v[v.len() - 1].0);
                } else {
                    assert(q[i] == r[i] && q[j] == r[j]);
                }
            }
            assert forall|i: int| 0 <= i < q.len() implies v.contains(#[trigger] q[i]) by {
                if i == r.len() {
                    assert(v[v.len() - 1] == q[i]);
                } else {
                    assert(q[i] == r[i]);
                }
            }
        }
    }
}

impl SessionTable {
    pub closed spec fn sessions_view(&self) -> Seq<SessionSummary> {
        self.sessions@.map_values(|s: SessionState| summary(s))
    }

    /// No id occurs twice.
    pub open spec fn wf(&self) -> bool {
        ids_unique(self.sessions_view())
    }

    pub fn new() -> (t: Self)
        ensures
            t.wf(),
            t.sessions_view().len() == 0,
    {
        SessionTable { sessions: Vec::new() }
    }

    /// Adds a session opened at `now_ms` under `id` and returns its id; a
    /// session already under `id` is replaced.
    pub fn create_at(
        &mut self,
        id: String,
        forward_id: i64,
        entry_node_id: &str,
        client_ip: String,
        client_port: u32,
        target_addr: String,
        hops_path: Vec<String>,
        protocol: &str,
        now_ms: i64,
    ) -> (r: String)
        requires
            old(self).wf(),
        ensures
            r@ == id@,
            final(self).wf(),
            final(self).sessions_view() == put_session(
                old(self).sessions_view(),
                opened_view(
                    id@,
                    (
                        forward_id,
                        entry_node_id@,
                        client_ip@,
                        client_port,
                        target_addr@,
                        hops_path.deep_view(),
                        protocol@,
                        now_ms,
                    ),
                ),
            ),
    {
        let r = id.clone();
        let s = SessionState {
            id,
            forward_id,
            entry_node_id: String::from_str(entry_node_id),
            client_ip,
            client_port,
            target_addr,
            hops_path,
            protocol: String::from_str(protocol),
            opened_at_ms: now_ms,
            bytes_in: 0,
            bytes_out: 0,
            closed_at_ms: 0,
            close_reason: String::new(),
        };
        let ghost prev = self.sessions@;
        let ghost v = self.sessions_view();
        match self.position(r.as_str()) {
            Some(i) => {
                self.sessions.set(i, s);
                assert(self.sessions@.map_values(|s: SessionState| summary(s)) =~= prev.map_values(
                    |s: SessionState| summary(s),
                ).update(i as int, summary(s)));
                proof {
                    lemma_first_index_props(v, id@);
                    lemma_update_same_id(v, i as int, summary(s));
                }
            },
            None => {
                self.sessions.push(s);
                assert(self.sessions@.map_values(|s: SessionState| summary(s)) =~= prev.map_values(
                    |s: SessionState| summary(s),
                ).push(summary(s)));
                proof {
                    lemma_first_index_props(v, id@);
                    let w = v.push(summary(s));
                    assert forall|i: int, j: int| 0 <= i < j < w.len() implies #[trigger] w[i].0 != #[trigger] w[j].0 by {
                        if j == v.len() {
                            assert(w[i] == v[i]);
                        } else {
                            assert(w[i] == v[i] && w[j] == v[j]);
                        }
                    }
                }
            },
        }
        r
    }

    /// Adds a session opened now, under a fresh random id, and returns the id.
    pub fn create(
        &mut self,
        forward_id: i64,
        entry_node_id: &str,
        client_ip: String,
        client_port: u32,
        target_addr: String,
        hops_path: Vec<String>,
        protocol: &str,
    ) -> (r: String)
        requires
            old(self).wf(),
        ensures
            final(self).wf(),
            exists|now: i64|
                now >= 0 && final(self).sessions_view() == put_session(
                    old(self).sessions_view(),
                    #[trigger] opened_view(
                        r@,
                        (
                            forward_id,
                            entry_node_id@,
                            client_ip@,
                            client_port,
                            target_addr@,
                            hops_path.deep_view(),
                            protocol@,
                            now,
                        ),
                    ),
                ),
    {
        let id = new_session_id();
        let now = crate::common::now_ms();
        self.create_at(
            id,
            forward_id,
            entry_node_id,
            client_ip,
            client_port,
            target_addr,
            hops_path,
            protocol,
            now,
        )
    }

    /// How many sessions are still open.
    pub fn active_count(&self) -> (n: usize)
        ensures
            n == self.sessions_view().filter(|s: SessionSummary| s.1 == 0).len(),
    {
        let ghost v = self.sessions_view();
        let mut n: usize = 0;
        let mut i: usize = 0;
        while i < self.sessions.len()
            invariant
                v == self.sessions_view(),
                i <= self.sessions.len(),
                n == v.take(i as int).filter(|s: SessionSummary| s.1 == 0).len(),
                n <= i,
            decreases self.sessions.len() - i,
        {
            proof {
                reveal(Seq::filter);
                assert(v.take(i + 1).drop_last() == v.take(i as int));
                assert(v[i as int] == summary(self.sessions@[i as int]));
            }
            if self.sessions[i].closed_at_ms == 0 {
                n += 1;
            }
            i += 1;
        }
        assert(v.take(self.sessions.len() as int) == v);
        n
    }

    /// Reports every session and drops those closed more than
    /// `CLOSE_GRACE_MS` before `now_ms`.
    pub fn snapshot_and_gc_at(&mut self, now_ms: i64) -> (events: Vec<SessionEvent>)
        requires
            old(self).wf(),
        ensures
            final(self).wf(),
            events@.map_values(|e: SessionEvent| event_view(e)) == old(self).sessions_view(),
            final(self).sessions_view() == retained(old(self).sessions_view(), now_ms),
    {
        let ghost v = self.sessions_view();
        let mut events: Vec<SessionEvent> = Vec::new();
        let mut kept: Vec<SessionState> = Vec::new();
        let mut old_sessions: Vec<SessionState> = Vec::new();
        std::mem::swap(&mut old_sessions, &mut self.sessions);
        assert(old_sessions@.map_values(|s: SessionState| summary(s)) == v);
        let ghost src = old_sessions@;
        let mut i: usize = 0;
        let n = old_sessions.len();
        while i < n
            invariant
                n == old_sessions.len(),
                src.len() == n,
                v == src.map_values(|s: SessionState| summary(s)),
                i <= n,
                old_sessions@ == src,
                events@.map_values(|e: SessionEvent| event_view(e)) == v.take(i as int),
                kept@.map_values(|s: SessionState| summary(s)) == retained(v.take(i as int), now_ms),
            decreases n - i,
        {
            proof {
                reveal(Seq::filter);
                assert(v.take(i + 1).drop_last() == v.take(i as int));
            }
            let ev = old_sessions[i].to_event();
            let ghost pe = events@;
            events.push(ev);
            assert(events@.map_values(|e: SessionEvent| event_view(e)) =~= pe.map_values(
                |e: SessionEvent| event_view(e),
            ).push(v[i as int]));
            let closed_at = old_sessions[i].closed_at_ms;
            let gone = closed_at > 0 && (now_ms as i128) - (closed_at as i128) > (CLOSE_GRACE_MS as i128);
            assert(gone == expired(v[i as int].1, now_ms)) by {
                assert(v[i as int] == summary(src[i as int]));
            }
            if !gone {
                let s = copy_session(&old_sessions[i]);
                let ghost pk = kept@;
                kept.push(s);
                assert(kept@.map_values(|s: SessionState| summary(s)) =~= pk.map_values(
                    |s: SessionState| summary(s),
                ).push(v[i as int]));
            }
            i += 1;
        }
        assert(v.take(n as int) == v);
        self.sessions = kept;
        proof {
            lemma_filter_ids_unique(v, live_at(now_ms));
        }
        events
    }

    /// Reports every session and drops those past their grace period, now.
    pub fn snapshot_and_gc(&mut self) -> (events: Vec<SessionEvent>)
        requires
            old(self).wf(),
        ensures
            final(self).wf(),
            events@.map_values(|e: SessionEvent| event_view(e)) == old(self).sessions_view(),
            exists|now: i64| final(self).sessions_view() == #[trigger] retained(old(self).sessions_view(), now),
    {
        let now = crate::common::now_ms();
        self.snapshot_and_gc_at(now)
    }

    fn position(&self, id: &str) -> (r: Option<usize>)
        ensures
            r matches Some(i) ==> first_index(self.sessions_view(), id@) == Some(i as int) && i
                < self.sessions@.len(),
            r is None ==> first_index(self.sessions_view(), id@) is None,
    {
        let ghost v = self.sessions_view();
        let key = String::from_str(id);
        let mut i: usize = 0;
        while i < self.sessions.len()
            invariant
                v == self.sessions_view(),
                key@ == id@,
                i <= self.sessions.len(),
                forall|k: int| 0 <= k < i ==> #[trigger] v[k].0 != id@,
            decreases self.sessions.len() - i,
        {
            assert(v[i as int] == summary(self.sessions@[i as int]));
            if self.sessions[i].id == key {
                proof {
                    lemma_first_index(v, id@, i as int);
                }
                return Some(i);
            }
            i += 1;
        }
        proof {
            lemma_first_index_none(v, id@);
        }
        None
    }

    /// Adds `n` client bytes to the first session with id `id`, if any.
    pub fn add_in(&mut self, id: &str, n: usize)
        requires
            old(self).wf(),
        ensures
            final(self).wf(),
            final(self).sessions_view() == match first_index(old(self).sessions_view(), id@) {
                Some(i) => old(self).sessions_view().update(i, with_in(old(self).sessions_view()[i], n)),
                None => old(self).sessions_view(),
            },
    {
        if let Some(i) = self.position(id) {
            let mut s = copy_session(&self.sessions[i]);
            s.add_in(n);
            let ghost prev = self.sessions@;
            let ghost v = self.sessions_view();
            self.sessions.set(i, s);
            assert(self.sessions@.map_values(|s: SessionState| summary(s)) =~= prev.map_values(
                |s: SessionState| summary(s),
            ).update(i as int, summary(s)));
            proof {
                assert(v[i as int] == summary(prev[i as int]));
                lemma_update_same_id(v, i as int, summary(s));
            }
        }
    }

    /// Adds `n` bytes sent to the client to the first session with id `id`, if any.
    pub fn add_out(&mut self, id: &str, n: usize)
        requires
            old(self).wf(),
        ensures
            final(self).wf(),
            final(self).sessions_view() == match first_index(old(self).sessions_view(), id@) {
                Some(i) => old(self).sessions_view().update(i, with_out(old(self).sessions_view()[i], n)),
                None => old(self).sessions_view(),
            },
    {
        if let Some(i) = self.position(id) {
            let mut s = copy_session(&self.sessions[i]);
            s.add_out(n);
            let ghost prev = self.sessions@;
            let ghost v = self.sessions_view();
            self.sessions.set(i, s);
            assert(self.sessions@.map_values(|s: SessionState| summary(s)) =~= prev.map_values(
                |s: SessionState| summary(s),
            ).update(i as int, summary(s)));
            proof {
                assert(v[i as int] == summary(prev[i as int]));
                lemma_update_same_id(v, i as int, summary(s));
            }
        }
    }

    /// Closes the first session with id `id` at `now_ms`, if any; a closed
    /// session keeps its first close.
    pub fn close_at(&mut self, id: &str, reason: &str, now_ms: i64)
        requires
            old(self).wf(),
        ensures
            final(self).wf(),
            final(self).sessions_view() == match first_index(old(self).sessions_view(), id@) {
                Some(i) => old(self).sessions_view().update(
                    i,
                    with_close(old(self).sessions_view()[i], reason@, now_ms),
                ),
                None => old(self).sessions_view(),
            },
    {
        if let Some(i) = self.position(id) {
            let mut s = copy_session(&self.sessions[i]);
            s.close_at(reason, now_ms);
            let ghost prev = self.sessions@;
            let ghost v = self.sessions_view();
            self.sessions.set(i, s);
            assert(self.sessions@.map_values(|s: SessionState| summary(s)) =~= prev.map_values(
                |s: SessionState| summary(s),
            ).update(i as int, summary(s)));
            proof {
                assert(v[i as int] == summary(prev[i as int]));
                lemma_update_same_id(v, i as int, summary(s));
            }
        }
    }
}

/// The position of the first session with id `id`.
pub open spec fn first_index(v: Seq<SessionSummary>, id: Seq<char>) -> Option<int>
    decreases v.len(),
{
    if v.len() == 0 {
        None
    } else if v[0].0 == id {
        Some(0)
    } else {
        match first_index(v.drop_first(), id) {
            Some(k) => Some(k + 1),
            None => None,
        }
    }
}

/// `v` with `s` in place of the session under the same id, or with `s`
/// added last when no session has that id.
pub open spec fn put_session(v: Seq<SessionSummary>, s: SessionSummary) -> Seq<SessionSummary> {
    match first_index(v, s.0) {
        Some(i) => v.update(i, s),
        None => v.push(s),
    }
}

proof fn lemma_first_index_props(v: Seq<SessionSummary>, id: Seq<char>)
    ensures
        first_index(v, id) matches Some(i) ==> 0 <= i < v.len() && v[i].0 == id,
        first_index(v, id) is None ==> forall|k: int| 0 <= k < v.len() ==> #[trigger] v[k].0 != id,
    decreases v.len(),
{
    if v.len() > 0 && v[0].0 != id {
        lemma_first_index_props(v.drop_first(), id);
        if first_index(v, id) is None {
            assert forall|k: int| 0 <= k < v.len() implies #[trigger] v[k].0 != id by {
                if k > 0 {
                    assert(v[k] == v.drop_first()[k - 1]);
                }
            }
        }
    }
}

proof fn lemma_update_same_id(v: Seq<SessionSummary>, i: int, s: SessionSummary)
    requires
        ids_unique(v),
        0 <= i < v.len(),
        s.0 == v[i].0,
    ensures
        ids_unique(v.update(i, s)),
{
    let w = v.update(i, s);
    assert forall|a: int, b: int| 0 <= a < b < w.len() implies #[trigger] w[a].0 != #[trigger] w[b].0 by {
        assert(w[a].0 == v[a].0 && w[b].0 == v[b].0);
    }
}

proof fn lemma_first_index(v: Seq<SessionSummary>, id: Seq<char>, i: int)
    requires
        0 <= i < v.len(),
        v[i].0 == id,
        forall|k: int| 0 <= k < i ==> #[trigger] v[k].0 != id,
    ensures
        first_index(v, id) == Some(i),
    decreases i,
{
    if i > 0 {
        assert(v[0].0 != id);
        assert forall|k: int| 0 <= k < i - 1 implies #[trigger] v.drop_first()[k].0 != id by {
            assert(v[k + 1].0 != id);
        }
        lemma_first_index(v.drop_first(), id, i - 1);
    }
}

proof fn lemma_first_index_none(v: Seq<SessionSummary>, id: Seq<char>)
    requires
        forall|k: int| 0 <= k < v.len() ==> #[trigger] v[k].0 != id,
    ensures
        first_index(v, id) is None,
    decreases v.len(),
{
    if v.len() > 0 {
        assert(v[0].0 != id);
        assert forall|k: int| 0 <= k < v.len() - 1 implies #[trigger] v.drop_first()[k].0 != id by {
            assert(v[k + 1].0 != id);
        }
        lemma_first_index_none(v.drop_first(), id);
    }
}

/// A copy of a session.
fn copy_session(s: &SessionState) -> (r: SessionState)
    ensures
        summary(r) == summary(*s),
{
    SessionState {
        id: s.id.clone(),
        forward_id: s.forward_id,
        entry_node_id: s.entry_node_id.clone(),
        client_ip: s.client_ip.clone(),
        client_port: s.client_port,
        target_addr: s.target_addr.clone(),
        hops_path: copy_strings(&s.hops_path),
        protocol: s.protocol.clone(),
        opened_at_ms: s.opened_at_ms,
        bytes_in: s.bytes_in,
        bytes_out: s.bytes_out,
        closed_at_ms: s.closed_at_ms,
        close_reason: s.close_reason.clone(),
    }
}

/// `Uuid::new_v4().simple()`: 32 lowercase hex digits, random.
#[verifier::external_body]
fn new_session_id() -> (r: String) {
    uuid::Uuid::new_v4().simple().to_string()
}


/// Only the first close of a session counts: once closed (at a time other
/// than 0), a later close changes neither when nor why it closed.
pub proof fn lemma_close_keeps_first(at: i64, reason: Seq<char>, t1: i64, r1: Seq<char>, t2: i64, r2: Seq<char>)
    requires
        at != 0 || t1 != 0,
    ensures
        closed(closed(at, reason, t1, r1).0, closed(at, reason, t1, r1).1, t2, r2) == closed(at, reason, t1, r1),
{
}

/// A snapshot never drops a session that is still open, nor one closed
/// within the grace period.
pub proof fn lemma_gc_keeps_live(v: Seq<SessionSummary>, now: i64, i: int)
    requires
        0 <= i < v.len(),
        !expired(v[i].1, now),
    ensures
        retained(v, now).contains(v[i]),
{
    v.lemma_filter_contains(live_at(now), i);
}

} // verus!
