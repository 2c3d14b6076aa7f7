//! The master's side of the node control channel: who a node is, which
//! forwards it may report on, what it reported (listener states, traffic,
//! sessions), which rules it is sent, and how probes move a node's health.
use vstd::prelude::*;
use crate::assoc::{
    absent, find, keys_unique, last_at, lemma_find_absent, lemma_find_at_last, lemma_find_push,
    lemma_find_update_last,
};
use crate::lb::pool_ids;
use crate::model::{copy_hops, copy_targets, Hop, TargetEndpoint};
use crate::records::{or_default, ForwardRow};
use crate::rules::HopView;
use crate::text::{chars_of, parse_i64, parse_signed, parse_unsigned, parse_unsigned_chars, strip_prefix, strip_prefix_chars, string_of};

verus! {

// ───────────────────────── identity ─────────────────────────

/// The node id in a certificate common name `iris-node-<id>` (or the older
/// `zhuanfa-node-<id>`).
pub open spec fn node_id_of_cn(cn: Seq<char>) -> Option<Seq<char>> {
    match strip_prefix(cn, "iris-node-"@) {
        Some(id) => Some(id),
        None => strip_prefix(cn, "zhuanfa-node-"@),
    }
}

pub fn node_id_from_cn(cn: &str) -> (r: Option<String>)
    ensures
        r matches Some(id) ==> node_id_of_cn(cn@) == Some(id@),
        r is None ==> node_id_of_cn(cn@) is None,
{
    let cs = chars_of(cn);
    match strip_prefix_chars(cs.as_slice(), "iris-node-") {
        Some(id) => Some(string_of(id.as_slice())),
        None => match strip_prefix_chars(cs.as_slice(), "zhuanfa-node-") {
            Some(id) => Some(string_of(id.as_slice())),
            None => None,
        },
    }
}

/// The common names of the subject of the certificate that x509-parser's
/// `parse_x509_certificate` reads from `der`, in order, each as the text its
/// `as_str` reads (`None` where that fails); `None` when the bytes do not parse.
pub uninterp spec fn x509_common_names(der: Seq<u8>) -> Option<Seq<Option<Seq<char>>>>;

/// `parse_x509_certificate`, then every entry of the subject's
/// `iter_common_name` through `as_str`.
#[verifier::external_body]
fn peer_cert_cns(der: &[u8]) -> (r: Option<Vec<Option<String>>>)
    ensures
        r matches Some(v) ==> x509_common_names(der@) == Some(v.deep_view()),
        r is None ==> x509_common_names(der@) is None,
{
    let (_, cert) = match x509_parser::parse_x509_certificate(der) {
        Ok(v) => v,
        Err(_) => return None,
    };
    let mut out = Vec::new();
    for a in cert.subject().iter_common_name() {
        out.push(match a.as_str() {
            Ok(s) => Some(s.to_string()),
            Err(_) => None,
        });
    }
    Some(out)
}

/// The first of `names` that reads as text.
pub open spec fn first_text(names: Seq<Option<Seq<char>>>) -> Option<Seq<char>>
    decreases names.len(),
{
    if names.len() == 0 {
        None
    } else if names[0] is Some {
        names[0]
    } else {
        first_text(names.drop_first())
    }
}

/// The first of `names` that reads as text.
pub fn first_cn(names: &Vec<Option<String>>) -> (r: Option<String>)
    ensures
        r matches Some(s) ==> first_text(names.deep_view()) == Some(s@),
        r is None ==> first_text(names.deep_view()) is None,
{
    let ghost v = names.deep_view();
    let mut i: usize = 0;
    assert(v.skip(0) == v);
    while i < names.len()
        invariant
            v == names.deep_view(),
            i <= names.len(),
            first_text(v) == first_text(v.skip(i as int)),
        decreases names.len() - i,
    {
        assert(v.skip(i as int)[0] == v[i as int]);
        match &names[i] {
            Some(s) => {
                assert(v[i as int] == Some(s@));
                return Some(s.clone());
            },
            None => {
                assert(v.skip(i as int).drop_first() == v.skip(i + 1));
            },
        }
        i += 1;
    }
    assert(v.skip(i as int).len() == 0);
    None
}

/// The first common name (that reads as text) of a certificate's subject.
pub open spec fn x509_first_cn(der: Seq<u8>) -> Option<Seq<char>> {
    match x509_common_names(der) {
        Some(names) => first_text(names),
        None => None,
    }
}

/// The node a peer certificate (DER bytes) names by its common name.
pub open spec fn peer_node_id(der: Seq<u8>) -> Option<Seq<char>> {
    match x509_first_cn(der) {
        Some(cn) => node_id_of_cn(cn),
        None => None,
    }
}

/// The node id that the first certificate a peer presents names
/// (`iris-node-<id>`, or the legacy `zhuanfa-node-<id>`); `None` when the
/// certificate does not parse or names no node.
pub fn node_id_of_peer_cert(der: &[u8]) -> (r: Option<String>)
    ensures
        r matches Some(id) ==> peer_node_id(der@) == Some(id@),
        r is None ==> peer_node_id(der@) is None,
{
    match peer_cert_cns(der) {
        Some(names) => match first_cn(&names) {
            Some(cn) => node_id_from_cn(cn.as_str()),
            None => None,
        },
        None => None,
    }
}

/// A node may speak for `claimed` only if it is not empty and is the node
/// its certificate names.
pub fn identity_matches(claimed: &str, cert_node: &str) -> (r: bool)
    ensures
        r == (claimed@.len() > 0 && claimed@ == cert_node@),
{
    let a = String::from_str(claimed);
    let b = String::from_str(cert_node);
    claimed.unicode_len() > 0 && a == b
}

/// Why a node's request is refused before anything else is read.
#[derive(PartialEq, Eq, Structural, Debug, Clone, Copy)]
pub enum PeerDenied {
    /// The peer certificate is missing or names no node.
    MissingCert,
    /// The node id in the request is empty or not the certificate's node.
    Mismatch,
}

/// The node a heartbeat, config sync or renewal speaks for: the node its
/// first peer certificate (`der`) names, which must be the non-empty
/// `claimed` id of the request.
pub fn peer_identity(der: &[u8], claimed: &str) -> (r: Result<String, PeerDenied>)
    ensures
        peer_node_id(der@) is None ==> r == Err::<String, PeerDenied>(PeerDenied::MissingCert),
        peer_node_id(der@) matches Some(id) ==> if claimed@.len() > 0 && claimed@ == id {
            r matches Ok(s) && s@ == id
        } else {
            r == Err::<String, PeerDenied>(PeerDenied::Mismatch)
        },
{
    match node_id_of_peer_cert(der) {
        None => Err(PeerDenied::MissingCert),
        Some(id) => if identity_matches(claimed, id.as_str()) {
            Ok(id)
        } else {
            Err(PeerDenied::Mismatch)
        },
    }
}

// ───────────────────────── the allow-list ─────────────────────────

/// Whether `node` is an entry node (in the first hop) of a path.
pub open spec fn is_entry(hops: Seq<HopView>, node: Seq<char>) -> bool {
    hops.len() > 0 && pool_ids(hops[0].1).contains(node)
}

fn entry_of(hops: &Vec<Hop>, node: &String) -> (r: bool)
    ensures
        r == is_entry(hops.deep_view(), node@),
{
    if hops.len() == 0 {
        return false;
    }
    let ns = &hops[0].nodes;
    let ghost s = ns.deep_view();
    assert(s == hops.deep_view()[0].1);
    let mut i: usize = 0;
    while i < ns.len()
        invariant
            s == ns.deep_view(),
            hops.len() > 0,
            s == hops.deep_view()[0].1,
            i <= ns.len(),
            forall|k: int| 0 <= k < i ==> #[trigger] pool_ids(s)[k] != node@,
        decreases ns.len() - i,
    {
        if ns[i].id == *node {
            assert(pool_ids(s)[i as int] == node@);
            assert(pool_ids(s).contains(node@));
            return true;
        }
        i += 1;
    }
    false
}

/// A forward's id and its path.
pub struct ForwardPath {
    pub id: i64,
    pub hops: Vec<Hop>,
}

/// The forwards that `node` is an entry node of: only their listener
/// states, sessions and traffic are accepted from it.
pub fn entry_forward_ids(forwards: &Vec<ForwardPath>, node: &str) -> (r: Vec<i64>)
    ensures
        forall|f: i64| r@.contains(f) <==> exists|k: int|
            0 <= k < forwards@.len() && (#[trigger] forwards@[k]).id == f && is_entry(
                forwards@[k].hops.deep_view(),
                node@,
            ),
{
    let key = String::from_str(node);
    let mut r: Vec<i64> = Vec::new();
    let mut i: usize = 0;
    while i < forwards.len()
        invariant
            key@ == node@,
            i <= forwards.len(),
            forall|f: i64| r@.contains(f) <==> exists|k: int|
                0 <= k < i && (#[trigger] forwards@[k]).id == f && is_entry(
                    forwards@[k].hops.deep_view(),
                    node@,
                ),
        decreases forwards.len() - i,
    {
        let ghost prev = r@;
        if entry_of(&forwards[i].hops, &key) {
            r.push(forwards[i].id);
            assert forall|f: i64| r@.contains(f) <==> exists|k: int|
                0 <= k < i + 1 && (#[trigger] forwards@[k]).id == f && is_entry(
                    forwards@[k].hops.deep_view(),
                    node@,
                ) by {
                if r@.contains(f) {
                    let t = choose|t: int| 0 <= t < r@.len() && r@[t] == f;
                    if t < prev.len() {
                        assert(prev.contains(f));
                    }
                }
                if prev.contains(f) {
                    let t = choose|t: int| 0 <= t < prev.len() && prev[t] == f;
                    assert(r@[t] == f);
                }
                assert(r@[prev.len() as int] == forwards@[i as int].id);
            }
        }
        i += 1;
    }
    r
}

/// How long a cached allow-list may stand in when the database fails.
pub const ALLOWLIST_CACHE_TTL_MS: u64 = 60_000;

/// The allow-list to enforce when the database query failed: the cached
/// one while it is younger than the TTL, else nothing (reports refused).
pub fn allowlist_fallback(cached: Option<(Vec<i64>, u64)>) -> (r: Vec<i64>)
    ensures
        match cached {
            Some((set, age)) => if age < ALLOWLIST_CACHE_TTL_MS {
                r@ == set@
            } else {
                r@.len() == 0
            },
            None => r@.len() == 0,
        },
{
    match cached {
        Some((set, age)) => if age < ALLOWLIST_CACHE_TTL_MS {
            set
        } else {
            Vec::new()
        },
        None => Vec::new(),
    }
}

fn contains_id(v: &Vec<i64>, x: i64) -> (r: bool)
    ensures
        r == v@.contains(x),
{
    let mut i: usize = 0;
    while i < v.len()
        invariant
            i <= v.len(),
            forall|t: int| 0 <= t < i ==> v@[t] != x,
        decreases v.len() - i,
    {
        if v[i] == x {
            return true;
        }
        i += 1;
    }
    false
}

// ───────────────────────── listener states ─────────────────────────

/// What a node reports of one listener.
pub struct ListenerReport {
    pub forward_id: i64,
    pub ok: bool,
    pub error: String,
    pub port: u32,
    pub protocol: String,
}

/// The stored state of a forward's listener on a node.
pub struct ListenerStateEntry {
    pub ok: bool,
    pub error: String,
    pub port: u32,
    pub protocol: String,
    pub updated_at: i64,
}

pub type ListenerView = (bool, Seq<char>, u32, Seq<char>, i64);

pub open spec fn entry_view(e: ListenerStateEntry) -> ListenerView {
    (e.ok, e.error@, e.port, e.protocol@, e.updated_at)
}

/// The last allowed report for forward `f` in `reports`, as stored at `now`.
pub open spec fn last_report(
    reports: Seq<ListenerReport>,
    allowed: Seq<i64>,
    f: i64,
    now: i64,
) -> Option<ListenerView>
    decreases reports.len(),
{
    if reports.len() == 0 {
        None
    } else {
        let r = reports.last();
        if r.forward_id == f && allowed.contains(f) {
            Some((r.ok, r.error@, r.port, r.protocol@, now))
        } else {
            last_report(reports.drop_last(), allowed, f, now)
        }
    }
}

/// Listener states by `(node, forward)`.
pub struct ListenerStates {
    entries: Vec<((String, i64), ListenerStateEntry)>,
}

pub open spec fn states_view(s: Seq<((String, i64), ListenerStateEntry)>) -> Seq<
    ((Seq<char>, i64), ListenerView),
> {
    s.map_values(|e: ((String, i64), ListenerStateEntry)| ((e.0.0@, e.0.1), entry_view(e.1)))
}

impl ListenerStates {
    pub closed spec fn view_of(&self) -> Seq<((Seq<char>, i64), ListenerView)> {
        states_view(self.entries@)
    }

    /// The state of forward `f` on node `n`, if reported.
    pub open spec fn state(&self, n: Seq<char>, f: i64) -> Option<ListenerView> {
        find(self.view_of(), (n, f))
    }

    pub fn new() -> (s: Self)
        ensures
            forall|n: Seq<char>, f: i64| #[trigger] s.state(n, f) is None,
    {
        let s = ListenerStates { entries: Vec::new() };
        assert forall|n: Seq<char>, f: i64| #[trigger] s.state(n, f) is None by {
            assert(states_view(s.entries@).len() == 0);
        }
        s
    }

    /// Takes a node's heartbeat report: its states become exactly its
    /// reports on allowed forwards (the latest for each), stamped `now`;
    /// other nodes' states stay.
    pub fn apply_report(&mut self, node: &str, reports: &Vec<ListenerReport>, allowed: &Vec<i64>, now: i64)
        ensures
            forall|n: Seq<char>, f: i64| #[trigger] final(self).state(n, f) == if n == node@ {
                last_report(reports@, allowed@, f, now)
            } else {
                old(self).state(n, f)
            },
    {
        let ghost s0 = self.view_of();
        let key = String::from_str(node);
        // the other nodes' states
        let mut kept: Vec<((String, i64), ListenerStateEntry)> = Vec::new();
        let mut i: usize = 0;
        while i < self.entries.len()
            invariant
                s0 == states_view(self.entries@),
                key@ == node@,
                i <= self.entries.len(),
                forall|n: Seq<char>, f: i64| #[trigger] find(states_view(kept@), (n, f)) == if n == node@ {
                    None
                } else {
                    find(s0.take(i as int), (n, f))
                },
            decreases self.entries.len() - i,
        {
            let ghost prev = states_view(kept@);
            assert(s0.take(i + 1).drop_last() == s0.take(i as int));
            assert(s0.take(i + 1).last() == s0[i as int]);
            if !(self.entries[i].0.0 == key) {
                let e = &self.entries[i];
                let c = (
                    (e.0.0.clone(), e.0.1),
                    ListenerStateEntry {
                        ok: e.1.ok,
                        error: e.1.error.clone(),
                        port: e.1.port,
                        protocol: e.1.protocol.clone(),
                        updated_at: e.1.updated_at,
                    },
                );
                kept.push(c);
                assert(states_view(kept@) =~= prev.push(s0[i as int]));
                assert forall|n: Seq<char>, f: i64| #[trigger] find(states_view(kept@), (n, f)) == if n
                    == node@ {
                    None
                } else {
                    find(s0.take(i + 1), (n, f))
                } by {
                    lemma_find_push(prev, s0[i as int].0, s0[i as int].1, (n, f));
                }
            }
            i += 1;
        }
        assert(s0.take(self.entries.len() as int) == s0);
        // this node's reports on allowed forwards
        let mut j: usize = 0;
        while j < reports.len()
            invariant
                key@ == node@,
                j <= reports.len(),
                forall|n: Seq<char>, f: i64| #[trigger] find(states_view(kept@), (n, f)) == if n == node@ {
                    last_report(reports@.take(j as int), allowed@, f, now)
                } else {
                    find(s0, (n, f))
                },
            decreases reports.len() - j,
        {
            let rp = &reports[j];
            assert(reports@.take(j + 1).drop_last() == reports@.take(j as int));
            assert(reports@.take(j + 1).last() == reports@[j as int]);
            if contains_id(allowed, rp.forward_id) {
                let ghost prev = states_view(kept@);
                let c = (
                    (key.clone(), rp.forward_id),
                    ListenerStateEntry {
                        ok: rp.ok,
                        error: rp.error.clone(),
                        port: rp.port,
                        protocol: rp.protocol.clone(),
                        updated_at: now,
                    },
                );
                kept.push(c);
                let ghost v = (rp.ok, rp.error@, rp.port, rp.protocol@, now);
                assert(states_view(kept@) =~= prev.push(((node@, rp.forward_id), v)));
                assert forall|n: Seq<char>, f: i64| #[trigger] find(states_view(kept@), (n, f)) == if n
                    == node@ {
                    last_report(reports@.take(j + 1), allowed@, f, now)
                } else {
                    find(s0, (n, f))
                } by {
                    lemma_find_push(prev, (node@, rp.forward_id), v, (n, f));
                }
            }
            j += 1;
        }
        assert(reports@.take(reports.len() as int) == reports@);
        self.entries = kept;
    }

    fn position(&self, node: &String, fid: i64) -> (r: Option<usize>)
        ensures
            r matches Some(i) ==> last_at(self.view_of(), (node@, fid), i as int),
            r is None ==> absent(self.view_of(), (node@, fid)),
    {
        let ghost s = self.view_of();
        let mut t = self.entries.len();
        while t > 0
            invariant
                s == states_view(self.entries@),
                t <= self.entries.len(),
                forall|q: int| t <= q < self.entries.len() ==> #[trigger] s[q].0 != (node@, fid),
            decreases t,
        {
            t -= 1;
            if self.entries[t].0.0 == *node && self.entries[t].0.1 == fid {
                return Some(t);
            }
        }
        None
    }

    /// The nodes among `entry` that reported a state of forward `fid`, in order.
    pub open spec fn reported_nodes(&self, fid: i64, entry: Seq<Seq<char>>) -> Seq<Seq<char>>
        decreases entry.len(),
    {
        if entry.len() == 0 {
            Seq::empty()
        } else {
            let prev = self.reported_nodes(fid, entry.drop_last());
            if self.state(entry.last(), fid) is Some {
                prev.push(entry.last())
            } else {
                prev
            }
        }
    }

    /// The reported listener states of forward `fid` on each of its entry
    /// nodes `entry`, in that order (nodes without a report are left out).
    pub fn statuses(&self, fid: i64, entry: &Vec<String>) -> (r: Vec<crate::records::ListenerNodeStatus>)
        ensures
            r@.map_values(|x: crate::records::ListenerNodeStatus| x.node_id@) == self.reported_nodes(
                fid,
                entry.deep_view(),
            ),
            forall|k: int| 0 <= k < r@.len() ==> #[trigger] status_matches(
                self.state(r@[k].node_id@, fid),
                r@[k],
            ),
    {
        let ghost ev = entry.deep_view();
        let mut r: Vec<crate::records::ListenerNodeStatus> = Vec::new();
        let mut i: usize = 0;
        assert(r@.map_values(|x: crate::records::ListenerNodeStatus| x.node_id@) =~= Seq::<Seq<char>>::empty());
        while i < entry.len()
            invariant
                ev == entry.deep_view(),
                i <= entry.len(),
                r@.map_values(|x: crate::records::ListenerNodeStatus| x.node_id@) == self.reported_nodes(
                    fid,
                    ev.take(i as int),
                ),
                forall|k: int| 0 <= k < r@.len() ==> #[trigger] status_matches(
                    self.state(r@[k].node_id@, fid),
                    r@[k],
                ),
            decreases entry.len() - i,
        {
            let ghost s = self.view_of();
            let ghost prev = r@;
            assert(ev.take(i + 1).drop_last() == ev.take(i as int));
            assert(ev.take(i + 1).last() == entry@[i as int]@);
            match self.position(&entry[i], fid) {
                Some(q) => {
                    proof {
                        lemma_find_at_last(s, (entry@[i as int]@, fid), q as int);
                    }
                    let e = &self.entries[q].1;
                    r.push(
                        crate::records::ListenerNodeStatus {
                            node_id: entry[i].clone(),
                            ok: e.ok,
                            error: e.error.clone(),
                            updated_at: e.updated_at,
                        },
                    );
                    assert(r@.map_values(|x: crate::records::ListenerNodeStatus| x.node_id@) =~= prev.map_values(
                        |x: crate::records::ListenerNodeStatus| x.node_id@,
                    ).push(ev[i as int]));
                },
                None => {
                    proof {
                        lemma_find_absent::<(Seq<char>, i64), ListenerView>(s, (entry@[i as int]@, fid));
                    }
                },
            }
            i += 1;
        }
        assert(ev.take(entry.len() as int) == ev);
        r
    }
}

/// A status that shows state `st`.
pub open spec fn status_matches(st: Option<ListenerView>, s: crate::records::ListenerNodeStatus) -> bool {
    st matches Some(v) && v.0 == s.ok && v.1 == s.error@ && v.4 == s.updated_at
}

// ───────────────────────── traffic ─────────────────────────

/// A node's cumulative byte counts for one forward.
pub struct TrafficStat {
    pub forward_id: i64,
    pub bytes_in: u64,
    pub bytes_out: u64,
}

/// Bytes since the last report: the difference, or the whole count when it
/// went down (the node restarted and counts from zero again).
pub open spec fn delta(cur: u64, last: u64) -> u64 {
    if cur >= last {
        (cur - last) as u64
    } else {
        cur
    }
}

/// The last reported counts per `(node, forward)`.
pub struct TrafficLast {
    last: Vec<((String, i64), (u64, u64))>,
}

pub open spec fn last_view(s: Seq<((String, i64), (u64, u64))>) -> Seq<((Seq<char>, i64), (u64, u64))> {
    s.map_values(|e: ((String, i64), (u64, u64))| ((e.0.0@, e.0.1), e.1))
}

/// The counts last seen for `(node, f)`: zero when none.
pub open spec fn seen(s: Seq<((Seq<char>, i64), (u64, u64))>, node: Seq<char>, f: i64) -> (u64, u64) {
    match find(s, (node, f)) {
        Some(v) => v,
        None => (0, 0),
    }
}

/// The counts last seen after the allowed stats among `stats` of `node`.
pub open spec fn seen_after(
    s: Seq<((Seq<char>, i64), (u64, u64))>,
    node: Seq<char>,
    stats: Seq<TrafficStat>,
    allowed: Seq<i64>,
    n: Seq<char>,
    f: i64,
) -> (u64, u64)
    decreases stats.len(),
{
    if stats.len() == 0 {
        seen(s, n, f)
    } else if n == node && stats.last().forward_id == f && allowed.contains(f) {
        (stats.last().bytes_in, stats.last().bytes_out)
    } else {
        seen_after(s, node, stats.drop_last(), allowed, n, f)
    }
}

/// The deltas `(forward, in, out)` a report yields, in order, zero deltas
/// left out.
pub open spec fn deltas_of(
    s: Seq<((Seq<char>, i64), (u64, u64))>,
    node: Seq<char>,
    stats: Seq<TrafficStat>,
    allowed: Seq<i64>,
) -> Seq<(i64, u64, u64)>
    decreases stats.len(),
{
    if stats.len() == 0 {
        Seq::empty()
    } else {
        let prev = deltas_of(s, node, stats.drop_last(), allowed);
        let st = stats.last();
        if allowed.contains(st.forward_id) {
            let before = seen_after(s, node, stats.drop_last(), allowed, node, st.forward_id);
            let din = delta(st.bytes_in, before.0);
            let dout = delta(st.bytes_out, before.1);
            if din > 0 || dout > 0 {
                prev.push((st.forward_id, din, dout))
            } else {
                prev
            }
        } else {
            prev
        }
    }
}

impl TrafficLast {
    pub closed spec fn view_of(&self) -> Seq<((Seq<char>, i64), (u64, u64))> {
        last_view(self.last@)
    }

    pub closed spec fn wf(&self) -> bool {
        keys_unique(last_view(self.last@))
    }

    pub fn new() -> (t: Self)
        ensures
            t.wf(),
            t.view_of().len() == 0,
    {
        TrafficLast { last: Vec::new() }
    }

    fn record(&mut self, node: &String, fid: i64, v: (u64, u64))
        requires
            old(self).wf(),
        ensures
            final(self).wf(),
            forall|n: Seq<char>, f: i64| #[trigger] seen(final(self).view_of(), n, f) == if n == node@
                && f == fid {
                v
            } else {
                seen(old(self).view_of(), n, f)
            },
    {
        let ghost s = self.view_of();
        let ghost k = (node@, fid);
        let mut i = self.last.len();
        while i > 0
            invariant
                s == last_view(self.last@),
                s == old(self).view_of(),
                k == (node@, fid),
                keys_unique(s),
                i <= self.last.len(),
                forall|t: int| i <= t < self.last.len() ==> #[trigger] s[t].0 != k,
            decreases i,
        {
            i -= 1;
            assert(s[i as int] == ((self.last@[i as int].0.0@, self.last@[i as int].0.1), self.last@[i as int].1));
            if self.last[i].0.0 == *node && self.last[i].0.1 == fid {
                proof {
                    assert(last_at(s, k, i as int));
                }
                self.last.set(i, ((node.clone(), fid), v));
                proof {
                    assert(last_view(self.last@) =~= s.update(i as int, (k, v)));
                    assert forall|a: int, b: int| 0 <= a < b < last_view(self.last@).len() implies
                        #[trigger] last_view(self.last@)[a].0 != #[trigger] last_view(self.last@)[b].0 by {
                        assert(s[a].0 != s[b].0);
                    }
                    assert forall|n: Seq<char>, f: i64| #[trigger] seen(last_view(self.last@), n, f) == if n
                        == node@ && f == fid {
                        v
                    } else {
                        seen(s, n, f)
                    } by {
                        lemma_find_update_last(s, k, i as int, v, (n, f));
                    }
                }
                return;
            }
        }
        self.last.push(((node.clone(), fid), v));
        proof {
            assert(absent(s, k));
            assert(last_view(self.last@) =~= s.push((k, v)));
            assert forall|a: int, b: int| 0 <= a < b < last_view(self.last@).len() implies
                #[trigger] last_view(self.last@)[a].0 != #[trigger] last_view(self.last@)[b].0 by {
                if b < s.len() {
                    assert(s[a].0 != s[b].0);
                }
            }
            assert forall|n: Seq<char>, f: i64| #[trigger] seen(last_view(self.last@), n, f) == if n
                == node@ && f == fid {
                v
            } else {
                seen(s, n, f)
            } by {
                lemma_find_push(s, k, v, (n, f));
            }
        }
    }

    fn lookup(&self, node: &String, fid: i64) -> (r: (u64, u64))
        ensures
            r == seen(self.view_of(), node@, fid),
    {
        let ghost s = self.view_of();
        let mut i = self.last.len();
        while i > 0
            invariant
                s == last_view(self.last@),
                i <= self.last.len(),
                forall|t: int| i <= t < self.last.len() ==> #[trigger] s[t].0 != (node@, fid),
            decreases i,
        {
            i -= 1;
            assert(s[i as int] == ((self.last@[i as int].0.0@, self.last@[i as int].0.1), self.last@[i as int].1));
            if self.last[i].0.0 == *node && self.last[i].0.1 == fid {
                proof {
                    assert(last_at(s, (node@, fid), i as int));
                    lemma_find_at_last(s, (node@, fid), i as int);
                }
                return self.last[i].1;
            }
        }
        proof {
            lemma_find_absent::<(Seq<char>, i64), (u64, u64)>(s, (node@, fid));
        }
        (0, 0)
    }

    /// Takes a node's traffic report: returns the deltas of its allowed
    /// forwards and remembers the reported counts.
    pub fn apply(&mut self, node: &str, stats: &Vec<TrafficStat>, allowed: &Vec<i64>) -> (r: Vec<(i64, u64, u64)>)
        requires
            old(self).wf(),
        ensures
            final(self).wf(),
            r@ == deltas_of(old(self).view_of(), node@, stats@, allowed@),
            forall|n: Seq<char>, f: i64| #[trigger] seen(final(self).view_of(), n, f) == seen_after(
                old(self).view_of(),
                node@,
                stats@,
                allowed@,
                n,
                f,
            ),
    {
        let ghost s0 = self.view_of();
        let key = String::from_str(node);
        let mut out: Vec<(i64, u64, u64)> = Vec::new();
        let mut i: usize = 0;
        while i < stats.len()
            invariant
                self.wf(),
                key@ == node@,
                i <= stats.len(),
                out@ == deltas_of(s0, node@, stats@.take(i as int), allowed@),
                forall|n: Seq<char>, f: i64| #[trigger] seen(self.view_of(), n, f) == seen_after(
                    s0,
                    node@,
                    stats@.take(i as int),
                    allowed@,
                    n,
                    f,
                ),
            decreases stats.len() - i,
        {
            let st = &stats[i];
            assert(stats@.take(i + 1).drop_last() == stats@.take(i as int));
            assert(stats@.take(i + 1).last() == stats@[i as int]);
            if contains_id(allowed, st.forward_id) {
                let (li, lo) = self.lookup(&key, st.forward_id);
                let din = if st.bytes_in >= li {
                    st.bytes_in - li
                } else {
                    st.bytes_in
                };
                let dout = if st.bytes_out >= lo {
                    st.bytes_out - lo
                } else {
                    st.bytes_out
                };
                self.record(&key, st.forward_id, (st.bytes_in, st.bytes_out));
                if din > 0 || dout > 0 {
                    out.push((st.forward_id, din, dout));
                }
            }
            i += 1;
        }
        assert(stats@.take(stats.len() as int) == stats@);
        out
    }
}

// ───────────────────────── session records ─────────────────────────

/// A session as the master stores it. The entry node is the reporting
/// node (checked against its certificate); a 0 close time means open and an
/// empty reason means none.
pub struct SessionRecord {
    pub id: String,
    pub forward_id: i64,
    pub entry_node_id: String,
    pub client_ip: String,
    pub client_port: i64,
    pub target_addr: String,
    pub hops_path: Vec<String>,
    pub protocol: String,
    pub opened_at_ms: i64,
    pub closed_at_ms: Option<i64>,
    pub bytes_in: i64,
    pub bytes_out: i64,
    pub close_reason: Option<String>,
}

/// The record of a reported session, `None` when the node is not an entry
/// of its forward.
pub fn session_record(
    ev: &crate::session::SessionEvent,
    node: &str,
    allowed: &Vec<i64>,
) -> (r: Option<SessionRecord>)
    ensures
        r is Some <==> allowed@.contains(ev.forward_id),
        r matches Some(rec) ==> {
            &&& rec.id@ == ev.id@
            &&& rec.forward_id == ev.forward_id
            &&& rec.entry_node_id@ == node@
            &&& rec.client_ip@ == ev.client_ip@
            &&& rec.client_port == ev.client_port as i64
            &&& rec.target_addr@ == ev.target_addr@
            &&& rec.hops_path.deep_view() == ev.hops_path.deep_view()
            &&& rec.protocol@ == ev.protocol@
            &&& rec.opened_at_ms == ev.opened_at_ms
            &&& rec.closed_at_ms == if ev.closed_at_ms > 0 {
                Some(ev.closed_at_ms)
            } else {
                None
            }
            &&& rec.bytes_in == ev.bytes_in as i64
            &&& rec.bytes_out == ev.bytes_out as i64
            &&& (rec.close_reason matches Some(s) ==> s@ == ev.close_reason@ && s@.len() > 0)
            &&& (rec.close_reason is None <==> ev.close_reason@.len() == 0)
        },
{
    if !contains_id(allowed, ev.forward_id) {
        return None;
    }
    let reason = if ev.close_reason.as_str().unicode_len() == 0 {
        None
    } else {
        Some(ev.close_reason.clone())
    };
    Some(
        SessionRecord {
            id: ev.id.clone(),
            forward_id: ev.forward_id,
            entry_node_id: String::from_str(node),
            client_ip: ev.client_ip.clone(),
            client_port: ev.client_port as i64,
            target_addr: ev.target_addr.clone(),
            hops_path: crate::session::copy_strings(&ev.hops_path),
            protocol: ev.protocol.clone(),
            opened_at_ms: ev.opened_at_ms,
            closed_at_ms: if ev.closed_at_ms > 0 {
                Some(ev.closed_at_ms)
            } else {
                None
            },
            bytes_in: ev.bytes_in as i64,
            bytes_out: ev.bytes_out as i64,
            close_reason: reason,
        },
    )
}

// ───────────────────────── what nodes are sent ─────────────────────────

/// A forward rule as an entry node receives it.
pub struct ForwardRule {
    pub id: i64,
    pub listen_port: u32,
    pub protocol: String,
    pub hops: Vec<Hop>,
    pub target: String,
    pub enabled: bool,
    pub targets: Vec<TargetEndpoint>,
    pub target_strategy: String,
    pub rate_in_bps: u64,
    pub rate_out_bps: u64,
}

/// A rate column as a node reads it: none or negative is 0 (unlimited).
pub open spec fn rate_of(v: Option<i64>) -> u64 {
    match v {
        Some(x) => if x > 0 {
            x as u64
        } else {
            0
        },
        None => 0,
    }
}

/// A stored rate reaches the node as it was set: a positive rate `x` is
/// sent as `x`, and only a missing or non-positive rate is sent as 0
/// (unlimited).
pub proof fn law_rate_kept(v: Option<i64>)
    ensures
        v is Some && v->0 > 0 ==> rate_of(v) as int == v->0 as int,
        !(v matches Some(x) && x > 0) ==> rate_of(v) == 0,
        rate_of(v) > 0 <==> (v matches Some(x) && x > 0),
{
}

fn rate(v: Option<i64>) -> (r: u64)
    ensures
        r == rate_of(v),
        v is Some && v->0 > 0 ==> r as int == v->0 as int,
        !(v matches Some(x) && x > 0) ==> r == 0,
{
    match v {
        Some(x) => if x > 0 {
            x as u64
        } else {
            0
        },
        None => 0,
    }
}

/// The rule that entry node `node` gets for stored forward `row`, whose
/// path and targets were read as `hops` and `targets`; `None` when the
/// path is empty or `node` is not an entry node.
pub fn rule_for(row: &ForwardRow, hops: &Vec<Hop>, targets: &Vec<TargetEndpoint>, node: &str) -> (r: Option<
    ForwardRule,
>)
    ensures
        r is Some <==> is_entry(hops.deep_view(), node@),
        r matches Some(rule) ==> {
            &&& rule.id == row.id
            &&& rule.listen_port == row.listen_port as u32
            &&& rule.protocol@ == row.protocol@
            &&& rule.hops.deep_view() == hops.deep_view()
            &&& rule.target@ == (if targets@.len() > 0 {
                targets.deep_view()[0].0
            } else {
                Seq::empty()
            })
            &&& rule.enabled
            &&& rule.targets.deep_view() == targets.deep_view()
            &&& rule.target_strategy@ == or_default(row.target_strategy@, "weighted"@)
            &&& rule.rate_in_bps == rate_of(row.rate_in_bps)
            &&& rule.rate_out_bps == rate_of(row.rate_out_bps)
            &&& (row.rate_in_bps is Some && row.rate_in_bps->0 > 0 ==> rule.rate_in_bps as int == row.rate_in_bps->0 as int)
            &&& (row.rate_out_bps is Some && row.rate_out_bps->0 > 0 ==> rule.rate_out_bps as int == row.rate_out_bps->0 as int)
            &&& (!(row.rate_in_bps matches Some(x) && x > 0) ==> rule.rate_in_bps == 0)
            &&& (!(row.rate_out_bps matches Some(x) && x > 0) ==> rule.rate_out_bps == 0)
        },
{
    let key = String::from_str(node);
    if !entry_of(hops, &key) {
        return None;
    }
    let legacy = if targets.len() > 0 {
        targets[0].addr.clone()
    } else {
        String::new()
    };
    let strategy = if row.target_strategy.as_str().unicode_len() == 0 {
        String::from_str("weighted")
    } else {
        row.target_strategy.clone()
    };
    Some(
        ForwardRule {
            id: row.id,
            listen_port: row.listen_port as u32,
            protocol: row.protocol.clone(),
            hops: copy_hops(hops),
            target: legacy,
            enabled: true,
            targets: copy_targets(targets),
            target_strategy: strategy,
            rate_in_bps: rate(row.rate_in_bps),
            rate_out_bps: rate(row.rate_out_bps),
        },
    )
}

/// Another node as a node is told of it.
pub struct NodeAddr {
    pub id: String,
    pub addr: String,
    pub health: String,
    pub latency_ms: u32,
}

pub fn node_addr(id: String, addr: String, health: String, latency: Option<i64>) -> (n: NodeAddr)
    ensures
        n.id@ == id@,
        n.addr@ == addr@,
        n.health@ == health@,
        n.latency_ms == match latency {
            Some(l) => l as u32,
            None => 0u32,
        },
{
    let l: u32 = match latency {
        Some(l) => l as u32,
        None => 0,
    };
    NodeAddr { id, addr, health, latency_ms: l }
}

// ───────────────────────── probing ─────────────────────────

/// A node's health as the master records it: `unknown` until its first
/// probe answer or outage.
#[derive(PartialEq, Eq, Structural, Debug, Clone, Copy)]
pub enum Health {
    Unknown,
    Healthy,
    Unhealthy,
}

impl Health {
    /// The health a stored text names: `healthy`, `unhealthy`, else unknown.
    pub fn from_text(s: &str) -> (r: Health)
        ensures
            r == if s@ == "healthy"@ {
                Health::Healthy
            } else if s@ == "unhealthy"@ {
                Health::Unhealthy
            } else {
                Health::Unknown
            },
    {
        let c = chars_of(s);
        if crate::text::is_lit(c.as_slice(), "healthy") {
            Health::Healthy
        } else if crate::text::is_lit(c.as_slice(), "unhealthy") {
            Health::Unhealthy
        } else {
            Health::Unknown
        }
    }

    /// The text stored for a health.
    pub fn text(&self) -> (r: String)
        ensures
            r@ == match *self {
                Health::Unknown => "unknown"@,
                Health::Healthy => "healthy"@,
                Health::Unhealthy => "unhealthy"@,
            },
    {
        match self {
            Health::Unknown => String::from_str("unknown"),
            Health::Healthy => String::from_str("healthy"),
            Health::Unhealthy => String::from_str("unhealthy"),
        }
    }
}

/// What the master keeps of a node's health.
pub struct NodeHealth {
    pub health: Health,
    pub latency_ms: Option<i64>,
    pub fail_count: i64,
    pub probe_total: i64,
    pub probe_ok: i64,
    pub fail_events: i64,
    pub down_since: Option<i64>,
    pub downtime_ms: i64,
}

/// The failures in a row that mark a node unhealthy, from the
/// `IRIS_FAIL_THRESHOLD` setting (`None` when unset): its value as an `i64`,
/// or 2 when unset or not a number.
pub fn fail_threshold_setting(var: Option<&str>) -> (r: i64)
    ensures
        r == match var {
            Some(v) => match parse_signed(v@, i64::MAX as nat) {
                Some(n) => n,
                None => 2,
            },
            None => 2,
        },
{
    match var {
        Some(v) => match parse_i64(v) {
            Some(n) => n,
            None => 2,
        },
        None => 2,
    }
}

/// Seconds between health probes, from the `IRIS_PROBE_INTERVAL` setting
/// (`None` when unset): its value as a `u64`, or 15 when unset or not a number.
pub fn probe_interval_setting(var: Option<&str>) -> (r: u64)
    ensures
        r == match var {
            Some(v) => match parse_unsigned(v@, u64::MAX as nat) {
                Some(n) => n,
                None => 15,
            },
            None => 15,
        },
{
    match var {
        Some(v) => match parse_unsigned_chars(chars_of(v).as_slice(), u64::MAX) {
            Some(n) => n,
            None => 15,
        },
        None => 15,
    }
}

/// The health after one probe at `now`: a success makes the node healthy
/// with the measured latency and adds the outage it ends to the downtime;
/// a failure counts up, and the `fail_threshold`-th failure in a row marks
/// a node that is not yet unhealthy (healthy or unknown) unhealthy, once per
/// outage; a failure below the threshold leaves the health as it was.
pub open spec fn probed(h: NodeHealth, ok: bool, rtt: i64, now: i64, fail_threshold: i64) -> NodeHealth {
    if ok {
        let add = if h.health == Health::Unhealthy {
            match h.down_since {
                Some(ds) => if now - ds > 0 {
                    now - ds
                } else {
                    0
                },
                None => 0,
            }
        } else {
            0
        };
        NodeHealth {
            health: Health::Healthy,
            latency_ms: Some(rtt),
            fail_count: 0,
            probe_total: (h.probe_total + 1) as i64,
            probe_ok: (h.probe_ok + 1) as i64,
            fail_events: h.fail_events,
            down_since: None,
            downtime_ms: (h.downtime_ms + add) as i64,
        }
    } else {
        let n = h.fail_count + 1;
        if n >= fail_threshold && h.health != Health::Unhealthy {
            NodeHealth {
                health: Health::Unhealthy,
                latency_ms: None,
                fail_count: n as i64,
                probe_total: (h.probe_total + 1) as i64,
                probe_ok: h.probe_ok,
                fail_events: (h.fail_events + 1) as i64,
                down_since: Some(now),
                downtime_ms: h.downtime_ms,
            }
        } else {
            NodeHealth {
                health: h.health,
                latency_ms: None,
                fail_count: n as i64,
                probe_total: (h.probe_total + 1) as i64,
                probe_ok: h.probe_ok,
                fail_events: h.fail_events,
                down_since: h.down_since,
                downtime_ms: h.downtime_ms,
            }
        }
    }
}

/// The counters stay within `i64` for one more probe at `now`.
pub open spec fn probe_fits(h: NodeHealth, now: i64) -> bool {
    &&& h.fail_count < i64::MAX
    &&& h.probe_total < i64::MAX
    &&& h.probe_ok < i64::MAX
    &&& h.fail_events < i64::MAX
    &&& (h.down_since matches Some(ds) ==> i64::MIN <= now - ds <= i64::MAX && h.downtime_ms + (now
        - ds) <= i64::MAX)
}

pub fn probe_update(h: &NodeHealth, ok: bool, rtt: i64, now: i64, fail_threshold: i64) -> (r: NodeHealth)
    requires
        probe_fits(*h, now),
    ensures
        r == probed(*h, ok, rtt, now, fail_threshold),
{
    if ok {
        let add: i64 = if h.health == Health::Unhealthy {
            match h.down_since {
                Some(ds) => if now - ds > 0 {
                    now - ds
                } else {
                    0
                },
                None => 0,
            }
        } else {
            0
        };
        NodeHealth {
            health: Health::Healthy,
            latency_ms: Some(rtt),
            fail_count: 0,
            probe_total: h.probe_total + 1,
            probe_ok: h.probe_ok + 1,
            fail_events: h.fail_events,
            down_since: None,
            downtime_ms: h.downtime_ms + add,
        }
    } else {
        let n = h.fail_count + 1;
        if n >= fail_threshold && h.health != Health::Unhealthy {
            NodeHealth {
                health: Health::Unhealthy,
                latency_ms: None,
                fail_count: n,
                probe_total: h.probe_total + 1,
                probe_ok: h.probe_ok,
                fail_events: h.fail_events + 1,
                down_since: Some(now),
                downtime_ms: h.downtime_ms,
            }
        } else {
            NodeHealth {
                health: h.health,
                latency_ms: None,
                fail_count: n,
                probe_total: h.probe_total + 1,
                probe_ok: h.probe_ok,
                fail_events: h.fail_events,
                down_since: h.down_since,
                downtime_ms: h.downtime_ms,
            }
        }
    }
}


/// Health laws of probing: a success makes a node healthy with a fresh
/// latency and a clean failure count; a failure drops the latency; the
/// failure that reaches the threshold marks a node that is not unhealthy
/// unhealthy and counts one outage; a failure below it keeps the health
/// (an unknown node stays unknown); further failures of the same outage
/// count none.
pub proof fn lemma_probe_laws(h: NodeHealth, rtt: i64, now: i64, threshold: i64)
    requires
        h.fail_events < i64::MAX,
    ensures
        probed(h, true, rtt, now, threshold).health == Health::Healthy,
        probed(h, true, rtt, now, threshold).latency_ms == Some(rtt),
        probed(h, true, rtt, now, threshold).fail_count == 0,
        probed(h, false, rtt, now, threshold).latency_ms is None,
        h.health != Health::Unhealthy && h.fail_count + 1 >= threshold ==> probed(h, false, rtt, now, threshold).health == Health::Unhealthy
            && probed(h, false, rtt, now, threshold).fail_events == h.fail_events + 1
            && probed(h, false, rtt, now, threshold).down_since == Some(now),
        h.fail_count + 1 < threshold ==> probed(h, false, rtt, now, threshold).health == h.health,
        h.health == Health::Unhealthy ==> probed(h, false, rtt, now, threshold).health == Health::Unhealthy
            && probed(h, false, rtt, now, threshold).fail_events == h.fail_events
            && probed(h, false, rtt, now, threshold).down_since == h.down_since,
{
}

} // verus!
