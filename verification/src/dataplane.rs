//! The data plane's bookkeeping: per-forward byte counters, the choice among
//! a forward's final targets, the tunnel header's target list, and the node
//! table that feeds the load balancer.
use vstd::prelude::*;
use crate::assoc::{
    absent, find, keys_unique, last_at, lemma_find_absent, lemma_find_at_last, lemma_find_push,
    lemma_find_update_last, retain,
};
use crate::lb::{
    rendezvous_order, rendezvous_ordered, weighted_order, weighted_ordered, NodeSpec, NodeView,
};
use crate::model::{copy_targets, Hop, HopNode, TargetEndpoint};
use crate::net::IpAddress;
use crate::session::{wrap_add, wrapping_add_usize};
use crate::text::{chars_of, is_lit, string_of, trim, trim_chars};

verus! {

// ───────────────────────── traffic ─────────────────────────

/// Bytes of one forward counted at its entry node: `bytes_in` from clients,
/// `bytes_out` to them.
pub struct TrafficCounter {
    pub bytes_in: u64,
    pub bytes_out: u64,
}

impl TrafficCounter {
    pub fn new() -> (c: Self)
        ensures
            c.bytes_in == 0,
            c.bytes_out == 0,
    {
        TrafficCounter { bytes_in: 0, bytes_out: 0 }
    }

    pub fn add_in(&mut self, n: usize)
        ensures
            final(self).bytes_in == wrap_add(old(self).bytes_in, n),
            final(self).bytes_out == old(self).bytes_out,
    {
        self.bytes_in = wrapping_add_usize(self.bytes_in, n);
    }

    pub fn add_out(&mut self, n: usize)
        ensures
            final(self).bytes_out == wrap_add(old(self).bytes_out, n),
            final(self).bytes_in == old(self).bytes_in,
    {
        self.bytes_out = wrapping_add_usize(self.bytes_out, n);
    }

    /// Takes an absolute count (from kernel counters) for the inbound side.
    pub fn set_in_absolute(&mut self, n: u64)
        ensures
            final(self).bytes_in == n,
            final(self).bytes_out == old(self).bytes_out,
    {
        self.bytes_in = n;
    }

    /// Takes an absolute count for the outbound side.
    pub fn set_out_absolute(&mut self, n: u64)
        ensures
            final(self).bytes_out == n,
            final(self).bytes_in == old(self).bytes_in,
    {
        self.bytes_out = n;
    }
}

// ───────────────────────── targets ─────────────────────────

pub open spec fn nonblank_pred() -> spec_fn(NodeSpec) -> bool {
    |t: NodeSpec| trim(t.0).len() > 0
}

/// The targets with a non-blank address.
pub open spec fn valid_targets(targets: Seq<NodeSpec>) -> Seq<NodeSpec> {
    retain(targets, nonblank_pred())
}

/// The order in which an exit node tries a forward's targets. Only
/// `source_hash` is honoured; every other strategy (the per-target counts
/// behind `least_conn` and `latency` do not exist) is weighted round robin
/// with weights `max(1)`.
pub open spec fn target_order(
    targets: Seq<NodeSpec>,
    strategy: Seq<char>,
    ip: Seq<u8>,
    counter: usize,
) -> Seq<Seq<char>> {
    let valid = valid_targets(targets);
    if valid.len() == 0 {
        Seq::empty()
    } else if valid.len() == 1 {
        seq![valid[0].0]
    } else if strategy == "source_hash"@ {
        rendezvous_order(valid, ip)
    } else {
        weighted_order(valid, counter, u32::MAX)
    }
}

/// Whether choosing among `targets` with `strategy` advances the forward's counter.
pub open spec fn target_counter_advances(targets: Seq<NodeSpec>, strategy: Seq<char>) -> bool {
    valid_targets(targets).len() >= 2 && strategy != "source_hash"@
}

pub open spec fn fid_counter(rr: Seq<(i64, usize)>, fid: i64) -> usize {
    match find(rr, fid) {
        Some(c) => c,
        None => 0,
    }
}

/// Orders a forward's targets for failover, keeping a round-robin counter
/// per forward.
pub struct TargetRouter {
    rr: Vec<(i64, usize)>,
}

impl TargetRouter {
    pub closed spec fn counters(&self) -> Seq<(i64, usize)> {
        self.rr@
    }

    pub closed spec fn wf(&self) -> bool {
        keys_unique(self.rr@)
    }

    pub fn new() -> (r: Self)
        ensures
            r.wf(),
            r.counters().len() == 0,
    {
        TargetRouter { rr: Vec::new() }
    }

    /// The value of `fid`'s counter before this call; the counter moves on by one (wrapping).
    fn next_counter(&mut self, fid: i64) -> (c: usize)
        requires
            old(self).wf(),
        ensures
            final(self).wf(),
            c == fid_counter(old(self).counters(), fid),
            forall|f: i64| #[trigger] fid_counter(final(self).counters(), f) == if f == fid {
                crate::lb::wrapping_next(c)
            } else {
                fid_counter(old(self).counters(), f)
            },
    {
        let ghost s = self.rr@;
        let mut i = self.rr.len();
        while i > 0
            invariant
                s == self.rr@,
                s == old(self).rr@,
                keys_unique(s),
                i <= self.rr.len(),
                forall|t: int| i <= t < self.rr.len() ==> #[trigger] s[t].0 != fid,
            decreases i,
        {
            i -= 1;
            if self.rr[i].0 == fid {
                let c = self.rr[i].1;
                let nc = if c == usize::MAX {
                    0
                } else {
                    c + 1
                };
                proof {
                    assert(last_at(s, fid, i as int));
                    lemma_find_at_last(s, fid, i as int);
                }
                self.rr.set(i, (fid, nc));
                proof {
                    assert forall|a: int, b: int| 0 <= a < b < self.rr@.len() implies #[trigger] self.rr@[a].0
                        != #[trigger] self.rr@[b].0 by {
                        assert(s[a].0 != s[b].0);
                    }
                    assert forall|f: i64| #[trigger] fid_counter(self.rr@, f) == if f == fid {
                        crate::lb::wrapping_next(c)
                    } else {
                        fid_counter(s, f)
                    } by {
                        lemma_find_update_last(s, fid, i as int, nc, f);
                    }
                }
                return c;
            }
        }
        self.rr.push((fid, 1));
        proof {
            assert(absent(s, fid));
            lemma_find_absent::<i64, usize>(s, fid);
            assert forall|a: int, b: int| 0 <= a < b < self.rr@.len() implies #[trigger] self.rr@[a].0
                != #[trigger] self.rr@[b].0 by {
                if b < s.len() {
                    assert(s[a].0 != s[b].0);
                }
            }
            assert forall|f: i64| #[trigger] fid_counter(self.rr@, f) == if f == fid {
                crate::lb::wrapping_next(0)
            } else {
                fid_counter(s, f)
            } by {
                lemma_find_push(s, fid, 1usize, f);
            }
        }
        0
    }

    /// The candidate addresses `[primary, fallback, ...]` of a forward's
    /// targets for a client; blank addresses are left out.
    pub fn order(
        &mut self,
        targets: &Vec<TargetEndpoint>,
        strategy: &str,
        client_ip: &IpAddress,
        forward_id: i64,
    ) -> (r: Vec<String>)
        requires
            old(self).wf(),
        ensures
            final(self).wf(),
            r.deep_view() == target_order(
                targets.deep_view(),
                strategy@,
                client_ip.octets_spec(),
                fid_counter(old(self).counters(), forward_id),
            ),
            forall|f: i64| #[trigger] fid_counter(final(self).counters(), f) == if f == forward_id
                && target_counter_advances(targets.deep_view(), strategy@) {
                crate::lb::wrapping_next(fid_counter(old(self).counters(), f))
            } else {
                fid_counter(old(self).counters(), f)
            },
    {
        let ghost s = targets.deep_view();
        let ghost p = nonblank_pred();
        let mut valid: Vec<HopNode> = Vec::new();
        let mut i: usize = 0;
        while i < targets.len()
            invariant
                s == targets.deep_view(),
                p == nonblank_pred(),
                i <= targets.len(),
                valid.deep_view() == retain(s.take(i as int), p),
            decreases targets.len() - i,
        {
            assert(s.take(i + 1).drop_last() == s.take(i as int));
            assert(s.take(i + 1).last() == s[i as int]);
            let a = chars_of(targets[i].addr.as_str());
            let t = trim_chars(a.as_slice());
            if t.len() > 0 {
                let ghost prev = valid.deep_view();
                valid.push(HopNode { id: targets[i].addr.clone(), weight: targets[i].weight });
                assert(valid.deep_view() =~= prev.push(s[i as int]));
            }
            i += 1;
        }
        assert(s.take(targets.len() as int) == s);
        if valid.len() == 0 {
            let r: Vec<String> = Vec::new();
            assert(r.deep_view() =~= Seq::<Seq<char>>::empty());
            return r;
        }
        if valid.len() == 1 {
            let mut r: Vec<String> = Vec::new();
            r.push(valid[0].id.clone());
            assert(r.deep_view() =~= seq![valid.deep_view()[0].0]);
            return r;
        }
        let sc = chars_of(strategy);
        if is_lit(sc.as_slice(), "source_hash") {
            rendezvous_ordered(&valid, client_ip)
        } else {
            let c = self.next_counter(forward_id);
            weighted_ordered(&valid, c, u32::MAX)
        }
    }
}

// ───────────────────────── tunnel header ─────────────────────────

/// What the entry node tells each next hop: the hops still ahead, the
/// targets and how to choose among them, and the client.
pub struct TunnelHeader {
    pub remaining_hops: Vec<Hop>,
    pub target: String,
    pub client_ip: String,
    pub forward_id: i64,
    pub hop_index: u32,
    pub targets: Vec<TargetEndpoint>,
    pub target_strategy: String,
    pub udp_src_addr: String,
    pub link_encryption: String,
}

/// A header's targets: its `targets` list, or else its single legacy
/// `target` (trimmed, weight 1) when that is not blank.
pub open spec fn effective_targets_of(targets: Seq<NodeSpec>, target: Seq<char>) -> Seq<NodeSpec> {
    if targets.len() > 0 {
        targets
    } else if trim(target).len() > 0 {
        seq![(trim(target), 1u32)]
    } else {
        Seq::empty()
    }
}

pub fn effective_targets(h: &TunnelHeader) -> (r: Vec<TargetEndpoint>)
    ensures
        r.deep_view() == effective_targets_of(h.targets.deep_view(), h.target@),
{
    if h.targets.len() > 0 {
        return copy_targets(&h.targets);
    }
    let t = trim_chars(chars_of(h.target.as_str()).as_slice());
    let mut r: Vec<TargetEndpoint> = Vec::new();
    if t.len() > 0 {
        r.push(TargetEndpoint { addr: string_of(t.as_slice()), weight: 1 });
        assert(r.deep_view() =~= seq![(trim(h.target@), 1u32)]);
    } else {
        assert(r.deep_view() =~= Seq::<NodeSpec>::empty());
    }
    r
}

// ───────────────────────── node table ─────────────────────────

/// What the control plane says of another node.
pub struct NodeInfo {
    pub addr: String,
    pub health: String,
    pub latency_ms: u32,
}

pub type NodeInfoView = (Seq<char>, Seq<char>, u32);

impl View for NodeInfo {
    type V = NodeInfoView;

    open spec fn view(&self) -> NodeInfoView {
        (self.addr@, self.health@, self.latency_ms)
    }
}

impl DeepView for NodeInfo {
    type V = NodeInfoView;

    open spec fn deep_view(&self) -> NodeInfoView {
        self@
    }
}

/// The address of node `id` in `nodes` (a later entry overrides an earlier one).
pub fn addr_of(nodes: &Vec<(String, NodeInfo)>, id: &str) -> (r: Option<String>)
    ensures
        r matches Some(a) ==> find(nodes.deep_view(), id@) matches Some(n) && a@ == n.0,
        r is None ==> find(nodes.deep_view(), id@) is None,
{
    let ghost s = nodes.deep_view();
    let key = String::from_str(id);
    let mut i = nodes.len();
    assert(s.take(i as int) == s);
    while i > 0
        invariant
            s == nodes.deep_view(),
            key@ == id@,
            i <= nodes.len(),
            find(s, id@) == find(s.take(i as int), id@),
        decreases i,
    {
        i -= 1;
        assert(s.take(i + 1).drop_last() == s.take(i as int));
        assert(s.take(i + 1).last() == s[i as int]);
        if nodes[i].0 == key {
            return Some(nodes[i].1.addr.clone());
        }
    }
    None
}

/// The health and latency view of the node table, for the load balancer.
pub fn node_view(nodes: &Vec<(String, NodeInfo)>) -> (v: NodeView)
    ensures
        v.health.deep_view() == nodes.deep_view().map_values(|e: (Seq<char>, NodeInfoView)| (e.0, e.1.1)),
        v.latency.deep_view() == nodes.deep_view().map_values(|e: (Seq<char>, NodeInfoView)| (e.0, e.1.2)),
{
    let ghost s = nodes.deep_view();
    let mut health: Vec<(String, String)> = Vec::new();
    let mut latency: Vec<(String, u32)> = Vec::new();
    let mut i: usize = 0;
    while i < nodes.len()
        invariant
            s == nodes.deep_view(),
            i <= nodes.len(),
            health.deep_view() =~= s.take(i as int).map_values(|e: (Seq<char>, NodeInfoView)| (e.0, e.1.1)),
            latency.deep_view() =~= s.take(i as int).map_values(|e: (Seq<char>, NodeInfoView)| (e.0, e.1.2)),
        decreases nodes.len() - i,
    {
        let ghost ph = health.deep_view();
        let ghost pl = latency.deep_view();
        health.push((nodes[i].0.clone(), nodes[i].1.health.clone()));
        latency.push((nodes[i].0.clone(), nodes[i].1.latency_ms));
        assert(health.deep_view() =~= ph.push((s[i as int].0, s[i as int].1.1)));
        assert(latency.deep_view() =~= pl.push((s[i as int].0, s[i as int].1.2)));
        assert(s.take(i + 1) == s.take(i as int).push(s[i as int]));
        i += 1;
    }
    assert(s.take(nodes.len() as int) == s);
    NodeView { health, latency }
}


// ───────────────────────── rate limits ─────────────────────────

/// The largest number of cells a limiter is made with or waits for.
pub const MAX_CELLS: u32 = 4294967294;

/// The cells per second of a limit of `bps` bytes per second: none for 0
/// (no limit), else `bps` capped at `MAX_CELLS`.
pub fn limit_cells(bps: u64) -> (r: Option<u32>)
    ensures
        bps == 0 ==> r is None,
        bps > 0 ==> r == Some(if bps > MAX_CELLS { MAX_CELLS } else { bps as u32 }),
{
    if bps == 0 {
        None
    } else if bps > MAX_CELLS as u64 {
        Some(MAX_CELLS)
    } else {
        Some(bps as u32)
    }
}

/// The cells a transfer of `n` bytes waits for: none for 0, else `n`
/// capped at `MAX_CELLS`.
pub fn throttle_cells(n: usize) -> (r: Option<u32>)
    ensures
        n == 0 ==> r is None,
        n > 0 ==> r == Some(if n > MAX_CELLS { MAX_CELLS } else { n as u32 }),
{
    if n == 0 {
        None
    } else if n as u64 > MAX_CELLS as u64 {
        Some(MAX_CELLS)
    } else {
        Some(n as u32)
    }
}

} // verus!
