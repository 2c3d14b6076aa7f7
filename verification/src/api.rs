//! Rules of the master's HTTP API that do not touch the database: sign-up
//! input, one-time stream tickets, link tests, and text for the metrics page.
use vstd::prelude::*;
use crate::assoc::{absent, find, keys_unique, last_at, lemma_find_absent, lemma_find_at_last};
use crate::lb::NodeSpec;
use crate::model::{copy_targets, Hop, TargetEndpoint};
use crate::net::IpAddress;
use crate::node::utf8;
use crate::rules::HopView;
use crate::text::{chars_of, is_lit, push_all, string_of, trim, trim_chars};

verus! {

// ───────────────────────── sign-up ─────────────────────────

/// The UTF-8 length of a text.
pub fn utf8_len(s: &[char]) -> (n: u128)
    ensures
        n == utf8(s@).len(),
{
    let mut n: u128 = 0;
    let mut i: usize = 0;
    while i < s.len()
        invariant
            i <= s.len(),
            n == utf8(s@.take(i as int)).len(),
            n <= 4 * i,
        decreases s.len() - i,
    {
        let v = s[i] as u32;
        let w: u128 = if v < 0x80 {
            1
        } else if v < 0x800 {
            2
        } else if v < 0x10000 {
            3
        } else {
            4
        };
        proof {
            assert(s@.take(i + 1).drop_last() == s@.take(i as int));
            assert(s@.take(i + 1).last() == s@[i as int]);
        }
        n = n + w;
        i += 1;
    }
    assert(s@.take(s.len() as int) == s@);
    n
}

/// A sign-up needs a user name of at least 3 bytes (spaces around not
/// counted) and a password of at least 6 bytes.
pub fn register_input_ok(username: &str, password: &str) -> (r: bool)
    ensures
        r == (utf8(trim(username@)).len() >= 3 && utf8(password@).len() >= 6),
{
    let u = trim_chars(chars_of(username).as_slice());
    let p = chars_of(password);
    utf8_len(u.as_slice()) >= 3 && utf8_len(p.as_slice()) >= 6
}

// ───────────────────────── stream tickets ─────────────────────────

/// How long a stream ticket lives.
pub const TICKET_TTL_MS: i64 = 60_000;

/// What a ticket grants: one stream of one forward, until `exp_ms`.
pub struct SseTicketEntry {
    pub forward_id: i64,
    pub exp_ms: i64,
}

pub struct SseTicketQuery {
    pub ticket: String,
}

pub struct SseTicketResp {
    pub ticket: String,
    pub expires_in: u64,
}

/// Why a ticket is refused.
pub enum TicketError {
    /// Unknown or already used.
    Invalid,
    Expired,
    /// Issued for another forward.
    WrongForward,
}

pub open spec fn tickets_view(v: Seq<(String, SseTicketEntry)>) -> Seq<(Seq<char>, (i64, i64))> {
    v.map_values(|e: (String, SseTicketEntry)| (e.0@, (e.1.forward_id, e.1.exp_ms)))
}

/// Outstanding one-time tickets.
pub struct SseTickets {
    entries: Vec<(String, SseTicketEntry)>,
}

impl SseTickets {
    pub closed spec fn view_of(&self) -> Seq<(Seq<char>, (i64, i64))> {
        tickets_view(self.entries@)
    }

    /// The grant of ticket `t`, if outstanding.
    pub open spec fn grant(&self, t: Seq<char>) -> Option<(i64, i64)> {
        find(self.view_of(), t)
    }

    pub closed spec fn wf(&self) -> bool {
        keys_unique(self.view_of())
    }

    pub fn new() -> (s: Self)
        ensures
            s.wf(),
            forall|t: Seq<char>| #[trigger] s.grant(t) is None,
    {
        let s = SseTickets { entries: Vec::new() };
        assert forall|t: Seq<char>| #[trigger] s.grant(t) is None by {
            assert(tickets_view(s.entries@).len() == 0);
        }
        s
    }

    fn position(&self, t: &String) -> (r: Option<usize>)
        ensures
            r matches Some(i) ==> last_at(self.view_of(), t@, i as int),
            r is None ==> absent(self.view_of(), t@),
    {
        let ghost s = self.view_of();
        let mut i = self.entries.len();
        while i > 0
            invariant
                s == tickets_view(self.entries@),
                i <= self.entries.len(),
                forall|q: int| i <= q < self.entries.len() ==> #[trigger] s[q].0 != t@,
            decreases i,
        {
            i -= 1;
            if self.entries[i].0 == *t {
                return Some(i);
            }
        }
        None
    }

    /// Issues ticket `ticket` (fresh and random, from the caller) for
    /// `forward_id` at `now_ms`, valid for a minute; expired tickets are
    /// dropped on the way.
    pub fn issue_at(&mut self, ticket: String, forward_id: i64, now_ms: i64) -> (r: SseTicketResp)
        requires
            old(self).wf(),
            now_ms <= i64::MAX - TICKET_TTL_MS,
        ensures
            final(self).wf(),
            r.ticket@ == ticket@,
            r.expires_in == 60,
            final(self).grant(ticket@) == Some((forward_id, (now_ms + TICKET_TTL_MS) as i64)),
            forall|t: Seq<char>| t != ticket@ ==> #[trigger] final(self).grant(t) == match old(self).grant(t) {
                Some(g) => if g.1 > now_ms {
                    Some(g)
                } else {
                    None
                },
                None => None,
            },
    {
        let ghost s0 = self.view_of();
        let ghost p = live_other(now_ms, ticket@);
        let mut kept: Vec<(String, SseTicketEntry)> = Vec::new();
        let mut i: usize = 0;
        while i < self.entries.len()
            invariant
                s0 == tickets_view(self.entries@),
                p == live_other(now_ms, ticket@),
                i <= self.entries.len(),
                tickets_view(kept@) == crate::assoc::retain(s0.take(i as int), p),
            decreases self.entries.len() - i,
        {
            assert(s0.take(i + 1).drop_last() == s0.take(i as int));
            assert(s0.take(i + 1).last() == s0[i as int]);
            if self.entries[i].1.exp_ms > now_ms && !(self.entries[i].0 == ticket) {
                let ghost prev = tickets_view(kept@);
                let e = (
                    self.entries[i].0.clone(),
                    SseTicketEntry { forward_id: self.entries[i].1.forward_id, exp_ms: self.entries[i].1.exp_ms },
                );
                kept.push(e);
                assert(tickets_view(kept@) =~= prev.push(s0[i as int]));
            }
            i += 1;
        }
        assert(s0.take(self.entries.len() as int) == s0);
        let ghost k0 = tickets_view(kept@);
        proof {
            crate::assoc::lemma_retain_props(s0, p);
            assert forall|q: int| 0 <= q < k0.len() implies #[trigger] k0[q].0 != ticket@ by {
                assert(k0.contains(k0[q]));
            }
        }
        let exp = now_ms + TICKET_TTL_MS;
        let ghost v = (forward_id, exp);
        let r = SseTicketResp { ticket: ticket.clone(), expires_in: 60 };
        kept.push((ticket, SseTicketEntry { forward_id, exp_ms: exp }));
        proof {
            assert(tickets_view(kept@) =~= k0.push((r.ticket@, v)));
            assert forall|a: int, b: int| 0 <= a < b < tickets_view(kept@).len() implies #[trigger] tickets_view(kept@)[a].0
                != #[trigger] tickets_view(kept@)[b].0 by {
                if b < k0.len() {
                    assert(k0[a].0 != k0[b].0);
                }
            }
            assert forall|t: Seq<char>| #[trigger] find(tickets_view(kept@), t) == if t == r.ticket@ {
                Some(v)
            } else {
                match find(s0, t) {
                    Some(g) => if g.1 > now_ms {
                        Some(g)
                    } else {
                        None
                    },
                    None => None,
                }
            } by {
                crate::assoc::lemma_find_push(k0, r.ticket@, v, t);
                crate::assoc::lemma_find_retain(s0, p, t);
            }
        }
        self.entries = kept;
        r
    }

    /// Uses ticket `ticket` for a stream of `forward_id` at `now_ms`. The
    /// ticket is gone afterwards whatever the outcome: it serves once.
    pub fn consume_at(&mut self, ticket: &str, forward_id: i64, now_ms: i64) -> (r: Result<(), TicketError>)
        requires
            old(self).wf(),
        ensures
            final(self).wf(),
            final(self).grant(ticket@) is None,
            forall|t: Seq<char>| t != ticket@ ==> #[trigger] final(self).grant(t) == old(self).grant(t),
            match old(self).grant(ticket@) {
                None => r matches Err(TicketError::Invalid),
                Some(g) => if g.1 < now_ms {
                    r matches Err(TicketError::Expired)
                } else if g.0 != forward_id {
                    r matches Err(TicketError::WrongForward)
                } else {
                    r is Ok
                },
            },
    {
        let ghost s0 = self.view_of();
        let key = String::from_str(ticket);
        let found = self.position(&key);
        let ghost p = not_named(ticket@);
        let grant = match found {
            Some(i) => {
                proof {
                    lemma_find_at_last(s0, ticket@, i as int);
                }
                Some((self.entries[i].1.forward_id, self.entries[i].1.exp_ms))
            },
            None => {
                proof {
                    lemma_find_absent::<Seq<char>, (i64, i64)>(s0, ticket@);
                }
                None
            },
        };
        let mut kept: Vec<(String, SseTicketEntry)> = Vec::new();
        let mut i: usize = 0;
        while i < self.entries.len()
            invariant
                s0 == tickets_view(self.entries@),
                p == not_named(ticket@),
                key@ == ticket@,
                i <= self.entries.len(),
                tickets_view(kept@) == crate::assoc::retain(s0.take(i as int), p),
            decreases self.entries.len() - i,
        {
            assert(s0.take(i + 1).drop_last() == s0.take(i as int));
            assert(s0.take(i + 1).last() == s0[i as int]);
            if !(self.entries[i].0 == key) {
                let ghost prev = tickets_view(kept@);
                let e = (
                    self.entries[i].0.clone(),
                    SseTicketEntry { forward_id: self.entries[i].1.forward_id, exp_ms: self.entries[i].1.exp_ms },
                );
                kept.push(e);
                assert(tickets_view(kept@) =~= prev.push(s0[i as int]));
            }
            i += 1;
        }
        assert(s0.take(self.entries.len() as int) == s0);
        proof {
            crate::assoc::lemma_retain_props(s0, p);
            assert forall|t: Seq<char>| #[trigger] find(crate::assoc::retain(s0, p), t) == if t == ticket@ {
                None
            } else {
                find(s0, t)
            } by {
                crate::assoc::lemma_find_retain(s0, p, t);
            }
        }
        self.entries = kept;
        match grant {
            None => Err(TicketError::Invalid),
            Some((fid, exp)) => if exp < now_ms {
                Err(TicketError::Expired)
            } else if fid != forward_id {
                Err(TicketError::WrongForward)
            } else {
                Ok(())
            },
        }
    }
}

/// Entries that are still valid at `now` and not named `t`.
pub open spec fn live_other(now: i64, t: Seq<char>) -> spec_fn((Seq<char>, (i64, i64))) -> bool {
    |e: (Seq<char>, (i64, i64))| e.1.1 > now && e.0 != t
}

/// Entries not named `t`.
pub open spec fn not_named(t: Seq<char>) -> spec_fn((Seq<char>, (i64, i64))) -> bool {
    |e: (Seq<char>, (i64, i64))| e.0 != t
}

// ───────────────────────── link tests ─────────────────────────

/// A request to test the links of a path before saving it.
pub struct TestRequest {
    pub hops: Vec<Hop>,
    pub targets: Option<Vec<TargetEndpoint>>,
    pub target: Option<String>,
}

/// One tested link: from a node to the next node or to a target address.
pub struct EdgeProbe {
    pub from_node: String,
    pub to_node: Option<String>,
    pub to_addr: String,
    pub ok: bool,
    pub latency_ms: u64,
    pub error: String,
}

pub struct TestResponse {
    pub results: Vec<EdgeProbe>,
}

pub enum TestError {
    EmptyHops,
    NoTargets,
    BlankTarget,
}

impl TestError {
    pub fn message(&self) -> (r: String)
        ensures
            match self {
                TestError::EmptyHops => r@ == "hops 不能为空，且每跳至少一个节点"@,
                TestError::NoTargets => r@ == "targets 不能为空"@,
                TestError::BlankTarget => r@ == "目标地址不能为空"@,
            },
    {
        match self {
            TestError::EmptyHops => String::from_str("hops 不能为空，且每跳至少一个节点"),
            TestError::NoTargets => String::from_str("targets 不能为空"),
            TestError::BlankTarget => String::from_str("目标地址不能为空"),
        }
    }
}

/// The targets of a test request: `targets` when given, else the trimmed
/// `target` (weight 1) when not blank.
pub open spec fn test_targets_of(targets: Option<Seq<NodeSpec>>, target: Option<Seq<char>>) -> Seq<NodeSpec> {
    match targets {
        Some(t) => t,
        None => match target {
            Some(t) => if trim(t).len() > 0 {
                seq![(trim(t), 1u32)]
            } else {
                Seq::empty()
            },
            None => Seq::empty(),
        },
    }
}

pub open spec fn opt_targets(o: Option<Vec<TargetEndpoint>>) -> Option<Seq<NodeSpec>> {
    match o {
        Some(v) => Some(v.deep_view()),
        None => None,
    }
}

pub open spec fn opt_text(o: Option<String>) -> Option<Seq<char>> {
    match o {
        Some(v) => Some(v@),
        None => None,
    }
}

/// Checks a test request: hops, each with a node, and targets, none blank.
/// Returns the targets to resolve.
pub fn test_targets(req: &TestRequest) -> (r: Result<Vec<TargetEndpoint>, TestError>)
    ensures
        (req.hops@.len() == 0 || exists|i: int| 0 <= i < req.hops@.len() && (#[trigger] req.hops@[i]).nodes@.len() == 0)
            ==> r matches Err(TestError::EmptyHops),
        !(req.hops@.len() == 0 || exists|i: int| 0 <= i < req.hops@.len() && (#[trigger] req.hops@[i]).nodes@.len() == 0)
            ==> {
            let ts = test_targets_of(opt_targets(req.targets), opt_text(req.target));
            if ts.len() == 0 {
                r matches Err(TestError::NoTargets)
            } else if exists|i: int| 0 <= i < ts.len() && trim((#[trigger] ts[i]).0).len() == 0 {
                r matches Err(TestError::BlankTarget)
            } else {
                (r matches Ok(v) && v.deep_view() == ts)
            }
        },
{
    if req.hops.len() == 0 {
        return Err(TestError::EmptyHops);
    }
    let mut i: usize = 0;
    while i < req.hops.len()
        invariant
            i <= req.hops.len(),
            forall|k: int| 0 <= k < i ==> (#[trigger] req.hops@[k]).nodes@.len() > 0,
        decreases req.hops.len() - i,
    {
        if req.hops[i].nodes.len() == 0 {
            return Err(TestError::EmptyHops);
        }
        i += 1;
    }
    let ts: Vec<TargetEndpoint> = match &req.targets {
        Some(t) => copy_targets(t),
        None => {
            let mut v: Vec<TargetEndpoint> = Vec::new();
            match &req.target {
                Some(t) => {
                    let tt = trim_chars(chars_of(t.as_str()).as_slice());
                    if tt.len() > 0 {
                        v.push(TargetEndpoint { addr: string_of(tt.as_slice()), weight: 1 });
                        assert(v.deep_view() =~= seq![(trim(t@), 1u32)]);
                    } else {
                        assert(v.deep_view() =~= Seq::<NodeSpec>::empty());
                    }
                },
                None => {
                    assert(v.deep_view() =~= Seq::<NodeSpec>::empty());
                },
            }
            v
        },
    };
    let ghost tv = ts.deep_view();
    assert(tv == test_targets_of(opt_targets(req.targets), opt_text(req.target)));
    if ts.len() == 0 {
        return Err(TestError::NoTargets);
    }
    let mut k: usize = 0;
    while k < ts.len()
        invariant
            tv == ts.deep_view(),
            tv == test_targets_of(opt_targets(req.targets), opt_text(req.target)),
            req.hops@.len() > 0,
            forall|q: int| 0 <= q < req.hops@.len() ==> (#[trigger] req.hops@[q]).nodes@.len() > 0,
            k <= ts.len(),
            forall|q: int| 0 <= q < k ==> trim((#[trigger] tv[q]).0).len() > 0,
        decreases ts.len() - k,
    {
        let t = trim_chars(chars_of(ts[k].addr.as_str()).as_slice());
        if t.len() == 0 {
            assert(trim(tv[k as int].0).len() == 0);
            return Err(TestError::BlankTarget);
        }
        k += 1;
    }
    Ok(ts)
}

/// A link to test: from node, to node (none for a target), to address.
pub type Edge = (Seq<char>, Option<Seq<char>>, Seq<char>);

pub open spec fn addr_in(nodes: Seq<(Seq<char>, Seq<char>)>, id: Seq<char>) -> Option<Seq<char>> {
    find(nodes, id)
}

/// The links between hop `i` and hop `i + 1`: every node of the first to
/// every node of the second that has an address.
pub open spec fn hop_edges(from: Seq<NodeSpec>, to: Seq<NodeSpec>, nodes: Seq<(Seq<char>, Seq<char>)>) -> Seq<Edge>
    decreases from.len(),
{
    if from.len() == 0 {
        Seq::empty()
    } else {
        hop_edges(from.drop_last(), to, nodes) + to_edges(from.last().0, to, nodes)
    }
}

pub open spec fn to_edges(from: Seq<char>, to: Seq<NodeSpec>, nodes: Seq<(Seq<char>, Seq<char>)>) -> Seq<Edge>
    decreases to.len(),
{
    if to.len() == 0 {
        Seq::empty()
    } else {
        let prev = to_edges(from, to.drop_last(), nodes);
        match addr_in(nodes, to.last().0) {
            Some(a) => prev.push((from, Some(to.last().0), a)),
            None => prev,
        }
    }
}

/// The links from every node of the last hop to every target.
pub open spec fn target_edges(from: Seq<NodeSpec>, targets: Seq<NodeSpec>) -> Seq<Edge>
    decreases from.len(),
{
    if from.len() == 0 {
        Seq::empty()
    } else {
        target_edges(from.drop_last(), targets) + targets.map_values(|t: NodeSpec| (from.last().0, None::<Seq<char>>, t.0))
    }
}

/// All the links a test probes, hop by hop, then to the targets.
pub open spec fn edges_of(hops: Seq<HopView>, targets: Seq<NodeSpec>, nodes: Seq<(Seq<char>, Seq<char>)>) -> Seq<Edge> {
    inner_edges(hops, nodes, (hops.len() - 1) as nat) + if hops.len() > 0 {
        target_edges(hops.last().1, targets)
    } else {
        Seq::empty()
    }
}

/// The links between consecutive hops among the first `n + 1` hops.
pub open spec fn inner_edges(hops: Seq<HopView>, nodes: Seq<(Seq<char>, Seq<char>)>, n: nat) -> Seq<Edge>
    decreases n,
{
    if n == 0 || hops.len() < 2 || n > hops.len() - 1 {
        Seq::empty()
    } else {
        inner_edges(hops, nodes, (n - 1) as nat) + hop_edges(hops[n - 1].1, hops[n as int].1, nodes)
    }
}

pub open spec fn edge_view(e: (String, Option<String>, String)) -> Edge {
    (e.0@, match e.1 {
        Some(s) => Some(s@),
        None => None,
    }, e.2@)
}

fn addr_lookup(nodes: &Vec<(String, String)>, id: &String) -> (r: Option<String>)
    ensures
        r matches Some(a) ==> addr_in(nodes.deep_view(), id@) == Some(a@),
        r is None ==> addr_in(nodes.deep_view(), id@) is None,
{
    let ghost s = nodes.deep_view();
    let mut i = nodes.len();
    assert(s.take(i as int) == s);
    while i > 0
        invariant
            s == nodes.deep_view(),
            i <= nodes.len(),
            find(s, id@) == find(s.take(i as int), id@),
        decreases i,
    {
        i -= 1;
        assert(s.take(i + 1).drop_last() == s.take(i as int));
        assert(s.take(i + 1).last() == s[i as int]);
        if nodes[i].0 == *id {
            return Some(nodes[i].1.clone());
        }
    }
    None
}

fn push_to_edges(out: &mut Vec<(String, Option<String>, String)>, from: &String, to: &Vec<crate::model::HopNode>, nodes: &Vec<(String, String)>)
    ensures
        final(out)@.map_values(|e: (String, Option<String>, String)| edge_view(e)) == old(out)@.map_values(
            |e: (String, Option<String>, String)| edge_view(e),
        ) + to_edges(from@, to.deep_view(), nodes.deep_view()),
{
    let ghost base = old(out)@.map_values(|e: (String, Option<String>, String)| edge_view(e));
    let ghost tv = to.deep_view();
    let mut j: usize = 0;
    while j < to.len()
        invariant
            tv == to.deep_view(),
            j <= to.len(),
            out@.map_values(|e: (String, Option<String>, String)| edge_view(e)) == base + to_edges(from@, tv.take(j as int), nodes.deep_view()),
        decreases to.len() - j,
    {
        assert(tv.take(j + 1).drop_last() == tv.take(j as int));
        assert(tv.take(j + 1).last() == tv[j as int]);
        match addr_lookup(nodes, &to[j].id) {
            Some(a) => {
                let ghost prev = out@.map_values(|e: (String, Option<String>, String)| edge_view(e));
                out.push((from.clone(), Some(to[j].id.clone()), a));
                assert(out@.map_values(|e: (String, Option<String>, String)| edge_view(e)) =~= prev.push(
                    (from@, Some(tv[j as int].0), addr_in(nodes.deep_view(), tv[j as int].0).unwrap()),
                ));
            },
            None => {},
        }
        j += 1;
    }
    assert(tv.take(to.len() as int) == tv);
}

/// The links a test of path `hops` probes, in order: each node of a hop
/// to each node of the next that has an address, then each node of the
/// last hop to each target.
pub fn edge_plan(hops: &Vec<Hop>, targets: &Vec<TargetEndpoint>, nodes: &Vec<(String, String)>) -> (r: Vec<
    (String, Option<String>, String),
>)
    ensures
        r@.map_values(|e: (String, Option<String>, String)| edge_view(e)) == edges_of(
            hops.deep_view(),
            targets.deep_view(),
            nodes.deep_view(),
        ),
{
    let ghost hv = hops.deep_view();
    let ghost nv = nodes.deep_view();
    let mut out: Vec<(String, Option<String>, String)> = Vec::new();
    let mut i: usize = 1;
    assert(out@.map_values(|e: (String, Option<String>, String)| edge_view(e)) =~= inner_edges(hv, nv, 0));
    while i < hops.len()
        invariant
            hv == hops.deep_view(),
            nv == nodes.deep_view(),
            1 <= i,
            i <= hops.len() || hops.len() == 0,
            out@.map_values(|e: (String, Option<String>, String)| edge_view(e)) == inner_edges(hv, nv, (i - 1) as nat),
        decreases hops.len() - i,
    {
        let from_hop = &hops[i - 1];
        let ghost before = out@.map_values(|e: (String, Option<String>, String)| edge_view(e));
        let ghost fv = from_hop.nodes.deep_view();
        let mut k: usize = 0;
        while k < from_hop.nodes.len()
            invariant
                hv == hops.deep_view(),
                nv == nodes.deep_view(),
                1 <= i < hops.len(),
                fv == hv[i - 1].1,
                fv == from_hop.nodes.deep_view(),
                k <= fv.len(),
                out@.map_values(|e: (String, Option<String>, String)| edge_view(e)) == before + hop_edges(fv.take(k as int), hv[i as int].1, nv),
            decreases fv.len() - k,
        {
            assert(fv.take(k + 1).drop_last() == fv.take(k as int));
            assert(fv.take(k + 1).last() == fv[k as int]);
            push_to_edges(&mut out, &from_hop.nodes[k].id, &hops[i].nodes, nodes);
            proof {
                assert(before + hop_edges(fv.take(k + 1), hv[i as int].1, nv) =~= (before + hop_edges(fv.take(k as int), hv[i as int].1, nv)) + to_edges(fv[k as int].0, hv[i as int].1, nv));
            }
            k += 1;
        }
        assert(fv.take(fv.len() as int) == fv);
        i += 1;
    }
    let ghost inner = out@.map_values(|e: (String, Option<String>, String)| edge_view(e));
    assert(inner == inner_edges(hv, nv, (hv.len() - 1) as nat)) by {
        if hv.len() == 0 {
            assert(inner =~= inner_edges(hv, nv, 0));
        }
    }
    if hops.len() > 0 {
        let last = &hops[hops.len() - 1];
        let ghost lv = last.nodes.deep_view();
        let ghost tv = targets.deep_view();
        let mut k: usize = 0;
        while k < last.nodes.len()
            invariant
                tv == targets.deep_view(),
                lv == last.nodes.deep_view(),
                k <= lv.len(),
                out@.map_values(|e: (String, Option<String>, String)| edge_view(e)) == inner + target_edges(lv.take(k as int), tv),
            decreases lv.len() - k,
        {
            assert(lv.take(k + 1).drop_last() == lv.take(k as int));
            assert(lv.take(k + 1).last() == lv[k as int]);
            let ghost before = out@.map_values(|e: (String, Option<String>, String)| edge_view(e));
            let mut t: usize = 0;
            while t < targets.len()
                invariant
                    tv == targets.deep_view(),
                    k < lv.len(),
                    lv == last.nodes.deep_view(),
                    t <= tv.len(),
                    out@.map_values(|e: (String, Option<String>, String)| edge_view(e)) == before + tv.take(t as int).map_values(
                        |x: NodeSpec| (lv[k as int].0, None::<Seq<char>>, x.0),
                    ),
                decreases tv.len() - t,
            {
                let ghost prev = out@.map_values(|e: (String, Option<String>, String)| edge_view(e));
                out.push((last.nodes[k].id.clone(), None, targets[t].addr.clone()));
                assert(out@.map_values(|e: (String, Option<String>, String)| edge_view(e)) =~= prev.push((lv[k as int].0, None::<Seq<char>>, tv[t as int].0)));
                assert(tv.take(t + 1).map_values(|x: NodeSpec| (lv[k as int].0, None::<Seq<char>>, x.0)) =~= tv.take(t as int).map_values(
                    |x: NodeSpec| (lv[k as int].0, None::<Seq<char>>, x.0),
                ).push((lv[k as int].0, None::<Seq<char>>, tv[t as int].0)));
                t += 1;
            }
            assert(tv.take(tv.len() as int) == tv);
            assert(out@.map_values(|e: (String, Option<String>, String)| edge_view(e)) =~= inner + target_edges(lv.take(k + 1), tv));
            k += 1;
        }
        assert(lv.take(lv.len() as int) == lv);
        assert(hv.last().1 == lv);
    } else {
        assert(out@.map_values(|e: (String, Option<String>, String)| edge_view(e)) =~= edges_of(hv, targets.deep_view(), nv));
    }
    out
}

// ───────────────────────── address policy ─────────────────────────

/// An IPv4 address (by octets) that a link test may not target: loopback,
/// private, link-local, multicast, unspecified, broadcast, or "this network".
pub open spec fn v4_disallowed(o: Seq<u8>) -> bool {
    ||| o[0] == 127
    ||| o[0] == 10
    ||| (o[0] == 172 && 16 <= o[1] <= 31)
    ||| (o[0] == 192 && o[1] == 168)
    ||| (o[0] == 169 && o[1] == 254)
    ||| (224 <= o[0] <= 239)
    ||| (o[0] == 255 && o[1] == 255 && o[2] == 255 && o[3] == 255)
    ||| o[0] == 0
}

/// Whether an IPv6 address is the IPv4-mapped `::ffff:a.b.c.d`.
pub open spec fn v4_mapped(o: Seq<u8>) -> bool {
    &&& forall|i: int| 0 <= i < 10 ==> #[trigger] o[i] == 0u8
    &&& o[10] == 0xffu8
    &&& o[11] == 0xffu8
}

/// An IPv6 address a link test may not target: loopback, multicast,
/// unspecified, unique local (fc00::/7) or link-local (fe80::/10); an
/// IPv4-mapped one goes by the IPv4 rules.
pub open spec fn v6_disallowed(o: Seq<u8>) -> bool {
    if v4_mapped(o) {
        v4_disallowed(o.subrange(12, 16))
    } else {
        ||| (forall|i: int| 0 <= i < 15 ==> #[trigger] o[i] == 0u8) && (o[15] == 1 || o[15] == 0)
        ||| o[0] == 0xff
        ||| (o[0] & 0xfe) == 0xfc
        ||| (o[0] == 0xfe && (o[1] & 0xc0) == 0x80)
    }
}

pub open spec fn ip_disallowed(ip: IpAddress) -> bool {
    match ip {
        IpAddress::V4(a) => v4_disallowed(a@),
        IpAddress::V6(a) => v6_disallowed(a@),
    }
}

fn v4_disallowed_exec(o: &[u8; 4]) -> (r: bool)
    ensures
        r == v4_disallowed(o@),
{
    o[0] == 127 || o[0] == 10 || (o[0] == 172 && 16 <= o[1] && o[1] <= 31) || (o[0] == 192 && o[1] == 168)
        || (o[0] == 169 && o[1] == 254) || (224 <= o[0] && o[0] <= 239) || (o[0] == 255 && o[1] == 255
        && o[2] == 255 && o[3] == 255) || o[0] == 0
}

/// Whether a link test may not target `ip` (it would scan the master's or
/// the nodes' own networks).
pub fn is_disallowed_ip(ip: &IpAddress) -> (r: bool)
    ensures
        r == ip_disallowed(*ip),
{
    match ip {
        IpAddress::V4(a) => v4_disallowed_exec(a),
        IpAddress::V6(o) => {
            let mut zero10 = true;
            let mut i: usize = 0;
            while i < 10
                invariant
                    i <= 10,
                    zero10 == forall|k: int| 0 <= k < i ==> o@[k] == 0u8,
                decreases 10 - i,
            {
                if o[i] != 0 {
                    zero10 = false;
                }
                i += 1;
            }
            if zero10 && o[10] == 0xff && o[11] == 0xff {
                let v4 = [o[12], o[13], o[14], o[15]];
                assert(v4@ =~= o@.subrange(12, 16));
                return v4_disallowed_exec(&v4);
            }
            assert(!v4_mapped(o@));
            let mut zero15 = true;
            let mut j: usize = 0;
            while j < 15
                invariant
                    j <= 15,
                    zero15 == forall|k: int| 0 <= k < j ==> o@[k] == 0u8,
                decreases 15 - j,
            {
                if o[j] != 0 {
                    zero15 = false;
                }
                j += 1;
            }
            (zero15 && (o[15] == 1 || o[15] == 0)) || o[0] == 0xff || (o[0] & 0xfe) == 0xfc || (o[0] == 0xfe
                && (o[1] & 0xc0) == 0x80)
        },
    }
}

/// Why a link test's target is refused.
pub enum TargetRefused {
    /// The name resolves to no address.
    Unresolved,
    /// The address at this position of the resolved list may not be targeted.
    Disallowed(usize),
}

/// The verdict on a target that resolved to `resolved`: refused when it
/// resolves to nothing, or, unless private targets are allowed, when one
/// of its addresses (the first such) may not be targeted.
pub fn target_verdict(resolved: &Vec<IpAddress>, allow_private: bool) -> (r: Result<(), TargetRefused>)
    ensures
        resolved@.len() == 0 ==> r matches Err(TargetRefused::Unresolved),
        resolved@.len() > 0 && allow_private ==> r is Ok,
        resolved@.len() > 0 && !allow_private ==> match r {
            Ok(()) => forall|k: int| 0 <= k < resolved@.len() ==> !ip_disallowed(#[trigger] resolved@[k]),
            Err(TargetRefused::Disallowed(i)) => i < resolved@.len() && ip_disallowed(resolved@[i as int])
                && forall|k: int| 0 <= k < i ==> !ip_disallowed(#[trigger] resolved@[k]),
            Err(TargetRefused::Unresolved) => false,
        },
{
    if resolved.len() == 0 {
        return Err(TargetRefused::Unresolved);
    }
    if allow_private {
        return Ok(());
    }
    let mut i: usize = 0;
    while i < resolved.len()
        invariant
            !allow_private,
            resolved@.len() > 0,
            i <= resolved.len(),
            forall|k: int| 0 <= k < i ==> !ip_disallowed(#[trigger] resolved@[k]),
        decreases resolved.len() - i,
    {
        if is_disallowed_ip(&resolved[i]) {
            return Err(TargetRefused::Disallowed(i));
        }
        i += 1;
    }
    Ok(())
}

// ───────────────────────── text ─────────────────────────

/// A label value escaped for the metrics text: `\` `"` and newline.
pub open spec fn esc_of(s: Seq<char>) -> Seq<char>
    decreases s.len(),
{
    if s.len() == 0 {
        Seq::empty()
    } else {
        esc_of(s.drop_last()) + if s.last() == '\\' {
            seq!['\\', '\\']
        } else if s.last() == '"' {
            seq!['\\', '"']
        } else if s.last() == '\n' {
            seq!['\\', 'n']
        } else {
            seq![s.last()]
        }
    }
}

pub fn esc(s: &str) -> (r: String)
    ensures
        r@ == esc_of(s@),
{
    let cs = chars_of(s);
    let mut out: Vec<char> = Vec::new();
    let mut i: usize = 0;
    while i < cs.len()
        invariant
            cs@ == s@,
            i <= cs.len(),
            out@ == esc_of(cs@.take(i as int)),
        decreases cs.len() - i,
    {
        let c = cs[i];
        assert(cs@.take(i + 1).drop_last() == cs@.take(i as int));
        assert(cs@.take(i + 1).last() == c);
        if c == '\\' {
            out.push('\\');
            out.push('\\');
        } else if c == '"' {
            out.push('\\');
            out.push('"');
        } else if c == '\n' {
            out.push('\\');
            out.push('n');
        } else {
            out.push(c);
        }
        assert(out@ =~= esc_of(cs@.take(i + 1)));
        i += 1;
    }
    assert(cs@.take(cs.len() as int) == cs@);
    string_of(out.as_slice())
}

/// The data address a node should listen on: the port of its registered
/// address (the text after the last `:`) on all interfaces, or 7444.
pub open spec fn data_addr_hint_of(addr: Option<Seq<char>>) -> Seq<char> {
    match addr {
        Some(a) => "0.0.0.0:"@ + last_piece(a),
        None => "0.0.0.0:7444"@,
    }
}

/// The text after the last `:` (all of it when there is none).
pub open spec fn last_piece(a: Seq<char>) -> Seq<char>
    decreases a.len(),
{
    if a.len() == 0 {
        a
    } else if a.last() == ':' {
        Seq::empty()
    } else {
        last_piece(a.drop_last()).push(a.last())
    }
}

pub fn data_addr_hint(addr: Option<&str>) -> (r: String)
    ensures
        r@ == data_addr_hint_of(crate::calendar::opt_chars(addr)),
{
    proof {
        reveal_strlit("0.0.0.0:");
        reveal_strlit("0.0.0.0:7444");
    }
    match addr {
        Some(a) => {
            let cs = chars_of(a);
            let mut piece: Vec<char> = Vec::new();
            let mut i: usize = 0;
            while i < cs.len()
                invariant
                    cs@ == a@,
                    i <= cs.len(),
                    piece@ == last_piece(cs@.take(i as int)),
                decreases cs.len() - i,
            {
                assert(cs@.take(i + 1).drop_last() == cs@.take(i as int));
                assert(cs@.take(i + 1).last() == cs@[i as int]);
                if cs[i] == ':' {
                    piece = Vec::new();
                    assert(piece@ =~= Seq::<char>::empty());
                } else {
                    piece.push(cs[i]);
                }
                i += 1;
            }
            assert(cs@.take(cs.len() as int) == cs@);
            let mut out = chars_of("0.0.0.0:");
            push_all(&mut out, piece.as_slice());
            string_of(out.as_slice())
        },
        None => String::from_str("0.0.0.0:7444"),
    }
}

/// How long an enrollment token lives.
pub const ENROLL_TTL_MS: i64 = 86_400_000;

pub fn enrollment_expiry(now_ms: i64) -> (r: i64)
    requires
        now_ms <= i64::MAX - ENROLL_TTL_MS,
    ensures
        r == now_ms + ENROLL_TTL_MS,
{
    now_ms + ENROLL_TTL_MS
}

// ───────────────────────── requests ─────────────────────────

/// Why an invite code cannot be used.
pub enum InviteError {
    Unknown,
    Used,
}

impl InviteError {
    pub fn message(&self) -> (r: String)
        ensures
            match self {
                InviteError::Unknown => r@ == "邀请码无效"@,
                InviteError::Used => r@ == "邀请码已被使用"@,
            },
    {
        match self {
            InviteError::Unknown => String::from_str("邀请码无效"),
            InviteError::Used => String::from_str("邀请码已被使用"),
        }
    }
}

/// An invite code admits a registration when it exists and nobody used it.
pub fn invite_usable(code: &Option<crate::records::InviteCode>) -> (r: Result<(), InviteError>)
    ensures
        code is None ==> r matches Err(InviteError::Unknown),
        code matches Some(c) ==> if c.used_by is Some {
            r matches Err(InviteError::Used)
        } else {
            r is Ok
        },
{
    match code {
        None => Err(InviteError::Unknown),
        Some(c) => if c.used_by.is_some() {
            Err(InviteError::Used)
        } else {
            Ok(())
        },
    }
}

/// Whether a request may reach an endpoint that hands out keys: always,
/// unless HTTPS is required (`IRIS_REQUIRE_TLS` is `1`) and the proxy did
/// not forward it as `https`.
pub fn transport_allowed(require_tls: Option<&str>, forwarded_proto: Option<&str>) -> (r: bool)
    ensures
        r == (!(require_tls matches Some(v) && v@ == "1"@) || (forwarded_proto matches Some(p) && p@ == "https"@)),
{
    let required = match require_tls {
        Some(v) => is_lit(chars_of(v).as_slice(), "1"),
        None => false,
    };
    if !required {
        return true;
    }
    match forwarded_proto {
        Some(p) => is_lit(chars_of(p).as_slice(), "https"),
        None => false,
    }
}

/// A page of a listing: the page (at least 1), its size (`1..=500`, 50
/// when unset) and the rows to skip.
pub open spec fn page_of(page: Option<i64>, size: Option<i64>) -> (int, int, int) {
    let p = match page {
        Some(x) => if x < 1 {
            1
        } else {
            x as int
        },
        None => 1,
    };
    let z = match size {
        Some(x) => if x < 1 {
            1
        } else if x > 500 {
            500
        } else {
            x as int
        },
        None => 50,
    };
    (p, z, (p - 1) * z)
}

pub fn page_window(page: Option<i64>, page_size: Option<i64>) -> (r: (i64, i64, i64))
    requires
        page_of(page, page_size).2 <= i64::MAX,
    ensures
        (r.0 as int, r.1 as int, r.2 as int) == page_of(page, page_size),
{
    let p: i64 = match page {
        Some(x) => if x < 1 {
            1
        } else {
            x
        },
        None => 1,
    };
    let z: i64 = match page_size {
        Some(x) => if x < 1 {
            1
        } else if x > 500 {
            500
        } else {
            x
        },
        None => 50,
    };
    assert(0 <= (p - 1) * z) by (nonlinear_arith)
        requires
            p >= 1,
            z >= 1,
    ;
    (p, z, (p - 1) * z)
}

// ───────────────────────── laws ─────────────────────────

/// A stream ticket serves once: after a use, using it again is refused as
/// invalid, whatever the first use gave.
pub proof fn lemma_ticket_single_use(after_first: Option<(i64, i64)>, second: Result<(), TicketError>, forward_id: i64, now: i64)
    requires
        after_first is None,
        match after_first {
            None => second matches Err(TicketError::Invalid),
            Some(g) => if g.1 < now {
                second matches Err(TicketError::Expired)
            } else if g.0 != forward_id {
                second matches Err(TicketError::WrongForward)
            } else {
                second is Ok
            },
        },
    ensures
        second matches Err(TicketError::Invalid),
{
}

} // verus!
