//! Choosing the node of a hop: the health filter, the four strategies
//! (weighted round robin, rendezvous hashing on the client address, least
//! connections, lowest latency) and the connection counts behind them.
use vstd::prelude::*;
use crate::assoc::{
    absent, find, keys_unique, last_at, lemma_find_absent, lemma_find_at_last, lemma_find_push,
    lemma_find_update_last, retain,
};
use crate::model::{copy_node, copy_nodes, Hop, HopNode};
use crate::net::IpAddress;
use crate::rank::{key_fits, keys_view, rank_positions, ranked_ids};
use crate::text::{chars_of, is_lit};

verus! {

/// Largest weight a node counts with in weighted round robin.
pub const MAX_WEIGHT: u32 = 1000;

/// What a node list entry is to the strategies: its id and weight.
pub type NodeSpec = (Seq<char>, u32);

// ───────────────────────── health and latency view ─────────────────────────

/// Snapshot of node health (`id → status`) and probed latency (`id → ms`).
/// A later entry for an id overrides an earlier one.
pub struct NodeView {
    pub health: Vec<(String, String)>,
    pub latency: Vec<(String, u32)>,
}

/// A node is usable unless its health is recorded as `unhealthy`.
pub open spec fn node_usable(health: Seq<(Seq<char>, Seq<char>)>, id: Seq<char>) -> bool {
    find(health, id) != Some("unhealthy"@)
}

/// A node's probed latency; `u32::MAX` when none was recorded.
pub open spec fn node_latency(latency: Seq<(Seq<char>, u32)>, id: Seq<char>) -> u32 {
    match find(latency, id) {
        Some(v) => v,
        None => u32::MAX,
    }
}

impl Default for NodeView {
    fn default() -> (v: Self)
        ensures
            v.health@.len() == 0,
            v.latency@.len() == 0,
    {
        NodeView { health: Vec::new(), latency: Vec::new() }
    }
}

impl NodeView {
    pub fn usable(&self, id: &str) -> (r: bool)
        ensures
            r == node_usable(self.health.deep_view(), id@),
    {
        let ghost s = self.health.deep_view();
        let key = String::from_str(id);
        let bad = String::from_str("unhealthy");
        proof {
            reveal_strlit("unhealthy");
        }
        let mut i = self.health.len();
        assert(s.take(i as int) == s);
        while i > 0
            invariant
                s == self.health.deep_view(),
                i <= self.health.len(),
                key@ == id@,
                bad@ == "unhealthy"@,
                find(s, id@) == find(s.take(i as int), id@),
            decreases i,
        {
            i -= 1;
            assert(s.take(i + 1).drop_last() == s.take(i as int));
            assert(s.take(i + 1).last() == s[i as int]);
            if self.health[i].0 == key {
                return !(self.health[i].1 == bad);
            }
        }
        true
    }

    pub fn latency(&self, id: &str) -> (r: u32)
        ensures
            r == node_latency(self.latency.deep_view(), id@),
    {
        let ghost s = self.latency.deep_view();
        let key = String::from_str(id);
        let mut i = self.latency.len();
        assert(s.take(i as int) == s);
        while i > 0
            invariant
                s == self.latency.deep_view(),
                i <= self.latency.len(),
                key@ == id@,
                find(s, id@) == find(s.take(i as int), id@),
            decreases i,
        {
            i -= 1;
            assert(s.take(i + 1).drop_last() == s.take(i as int));
            assert(s.take(i + 1).last() == s[i as int]);
            if self.latency[i].0 == key {
                return self.latency[i].1;
            }
        }
        u32::MAX
    }
}

// ───────────────────────── strategies, as functions ─────────────────────────

pub open spec fn usable_pred(health: Seq<(Seq<char>, Seq<char>)>) -> spec_fn(NodeSpec) -> bool {
    |n: NodeSpec| node_usable(health, n.0)
}

/// The nodes a hop chooses among: its usable nodes, or all of them when none
/// is usable (forwarding on a best-effort basis).
pub open spec fn candidate_pool(nodes: Seq<NodeSpec>, health: Seq<(Seq<char>, Seq<char>)>) -> Seq<
    NodeSpec,
> {
    let healthy = retain(nodes, usable_pred(health));
    if healthy.len() == 0 {
        nodes
    } else {
        healthy
    }
}

pub open spec fn pool_ids(pool: Seq<NodeSpec>) -> Seq<Seq<char>> {
    pool.map_values(|n: NodeSpec| n.0)
}

/// `weight.max(1)`.
pub open spec fn eff_weight(w: u32) -> int {
    if w == 0 {
        1
    } else {
        w as int
    }
}

/// `weight.clamp(1, cap)`: how many slots a node has in weighted round robin.
pub open spec fn clamp_weight(w: u32, cap: u32) -> nat {
    if w < 1 {
        1
    } else if w > cap {
        cap as nat
    } else {
        w as nat
    }
}

/// `DefaultHasher` over the client address's octets, then the node id.
pub uninterp spec fn hrw_hash(ip: Seq<u8>, id: Seq<char>) -> u64;

/// Bound above every rendezvous score.
pub open spec fn hrw_top() -> int {
    0x1_0000_0000_0000_0000_0000_0000
}

/// Weighted rendezvous score of a node for a client: higher ranks first.
pub open spec fn hrw_score(ip: Seq<u8>, n: NodeSpec) -> int {
    eff_weight(n.1) * hrw_hash(ip, n.0) as int
}

/// Rendezvous keys: score descending, as `hrw_top() - score` ascending.
pub open spec fn rendezvous_keys(pool: Seq<NodeSpec>, ip: Seq<u8>) -> Seq<(int, int)> {
    pool.map_values(|n: NodeSpec| (hrw_top() - hrw_score(ip, n), 1int))
}

/// Source-hash order: by rendezvous score descending, then id, then input order.
pub open spec fn rendezvous_order(pool: Seq<NodeSpec>, ip: Seq<u8>) -> Seq<Seq<char>> {
    ranked_ids(rendezvous_keys(pool, ip), pool_ids(pool))
}

/// Active connections of a node; 0 when none was counted.
pub open spec fn conn_count(conns: Seq<(Seq<char>, usize)>, id: Seq<char>) -> nat {
    match find(conns, id) {
        Some(c) => c as nat,
        None => 0,
    }
}

/// Least-connections keys: connections per unit of weight.
pub open spec fn least_conn_keys(pool: Seq<NodeSpec>, conns: Seq<(Seq<char>, usize)>) -> Seq<
    (int, int),
> {
    pool.map_values(|n: NodeSpec| (conn_count(conns, n.0) as int, eff_weight(n.1)))
}

/// Least-connections order: load ascending, then id, then input order.
pub open spec fn least_conn_order(pool: Seq<NodeSpec>, conns: Seq<(Seq<char>, usize)>) -> Seq<
    Seq<char>,
> {
    ranked_ids(least_conn_keys(pool, conns), pool_ids(pool))
}

pub open spec fn latency_keys(pool: Seq<NodeSpec>, latency: Seq<(Seq<char>, u32)>) -> Seq<
    (int, int),
> {
    pool.map_values(|n: NodeSpec| (node_latency(latency, n.0) as int, 1int))
}

/// Latency order: probed latency ascending, then id, then input order.
pub open spec fn latency_order(pool: Seq<NodeSpec>, latency: Seq<(Seq<char>, u32)>) -> Seq<
    Seq<char>,
> {
    ranked_ids(latency_keys(pool, latency), pool_ids(pool))
}

/// Each node repeated as often as its clamped weight, in pool order.
pub open spec fn expanded(pool: Seq<NodeSpec>, cap: u32) -> Seq<Seq<char>>
    decreases pool.len(),
{
    if pool.len() == 0 {
        Seq::empty()
    } else {
        expanded(pool.drop_last(), cap) + Seq::new(clamp_weight(pool.last().1, cap), |k: int| pool.last().0)
    }
}

/// `out` followed by the ids of `ids` that are not yet in it, in order.
pub open spec fn dedup_onto(out: Seq<Seq<char>>, ids: Seq<Seq<char>>) -> Seq<Seq<char>>
    decreases ids.len(),
{
    if ids.len() == 0 {
        out
    } else {
        let prev = dedup_onto(out, ids.drop_last());
        if prev.contains(ids.last()) {
            prev
        } else {
            prev.push(ids.last())
        }
    }
}

/// Weighted round robin: the expanded slot `counter % len` first, then the
/// rest of the pool for failover.
pub open spec fn weighted_order(pool: Seq<NodeSpec>, counter: usize, cap: u32) -> Seq<Seq<char>> {
    let e = expanded(pool, cap);
    dedup_onto(seq![e[(counter as int) % (e.len() as int)]], pool_ids(pool))
}

/// The round-robin counter of `(forward, hop)`; 0 before its first use.
pub open spec fn rr_counter(rr: Seq<((i64, usize), usize)>, fid: i64, hop: usize) -> usize {
    match find(rr, (fid, hop)) {
        Some(c) => c,
        None => 0,
    }
}

/// `c.wrapping_add(1)`.
pub open spec fn wrapping_next(c: usize) -> usize {
    if c == usize::MAX {
        0
    } else {
        (c + 1) as usize
    }
}

pub open spec fn is_weighted(strategy: Seq<char>) -> bool {
    strategy != "source_hash"@ && strategy != "least_conn"@ && strategy != "latency"@
}

/// The ordered candidates `[primary, fallback, ...]` for one hop.
pub open spec fn selection(
    rr: Seq<((i64, usize), usize)>,
    conns: Seq<(Seq<char>, usize)>,
    fid: i64,
    hop_idx: usize,
    hop: (Seq<char>, Seq<NodeSpec>),
    ip: Seq<u8>,
    health: Seq<(Seq<char>, Seq<char>)>,
    latency: Seq<(Seq<char>, u32)>,
) -> Seq<Seq<char>> {
    let pool = candidate_pool(hop.1, health);
    if pool.len() == 1 {
        seq![pool[0].0]
    } else if hop.0 == "source_hash"@ {
        rendezvous_order(pool, ip)
    } else if hop.0 == "least_conn"@ {
        least_conn_order(pool, conns)
    } else if hop.0 == "latency"@ {
        latency_order(pool, latency)
    } else {
        weighted_order(pool, rr_counter(rr, fid, hop_idx), MAX_WEIGHT)
    }
}

/// Whether a selection advances the hop's round-robin counter.
pub open spec fn advances_counter(
    hop: (Seq<char>, Seq<NodeSpec>),
    health: Seq<(Seq<char>, Seq<char>)>,
) -> bool {
    candidate_pool(hop.1, health).len() != 1 && is_weighted(hop.0)
}

// ───────────────────────── the balancer ─────────────────────────

/// Per-hop round-robin counters and per-node active connection counts.
pub struct LoadBalancer {
    rr: Vec<((i64, usize), usize)>,
    conns: Vec<(String, usize)>,
}

/// The connection a caller holds on one node; hand it back with
/// `LoadBalancer::release` when the connection ends.
pub struct ConnGuard {
    node: String,
}

impl ConnGuard {
    pub closed spec fn node_id(&self) -> Seq<char> {
        self.node@
    }

    pub fn node(&self) -> (r: &String)
        ensures
            r@ == self.node_id(),
    {
        &self.node
    }
}

impl View for LoadBalancer {
    type V = (Seq<((i64, usize), usize)>, Seq<(Seq<char>, usize)>);

    closed spec fn view(&self) -> Self::V {
        (self.rr@, self.conns.deep_view())
    }
}

/// `DefaultHasher` fed the octets and then the id: see `hrw_hash`.
#[verifier::external_body]
fn hash_ip_id(ip: &[u8], id: &str) -> (h: u64)
    ensures
        h == hrw_hash(ip@, id@),
{
    let mut hasher = std::collections::hash_map::DefaultHasher::new();
    std::hash::Hash::hash(ip, &mut hasher);
    std::hash::Hash::hash(id, &mut hasher);
    std::hash::Hasher::finish(&hasher)
}

fn find_rr(rr: &Vec<((i64, usize), usize)>, fid: i64, hop: usize) -> (r: Option<usize>)
    ensures
        r matches Some(i) ==> last_at(rr@, (fid, hop), i as int),
        r is None ==> absent(rr@, (fid, hop)),
{
    let mut i = rr.len();
    while i > 0
        invariant
            i <= rr.len(),
            forall|t: int| i <= t < rr.len() ==> #[trigger] rr@[t].0 != (fid, hop),
        decreases i,
    {
        i -= 1;
        if rr[i].0.0 == fid && rr[i].0.1 == hop {
            return Some(i);
        }
    }
    None
}

fn find_conn(conns: &Vec<(String, usize)>, id: &String) -> (r: Option<usize>)
    ensures
        r matches Some(i) ==> last_at(conns.deep_view(), id@, i as int),
        r is None ==> absent(conns.deep_view(), id@),
{
    let ghost s = conns.deep_view();
    let mut i = conns.len();
    while i > 0
        invariant
            s == conns.deep_view(),
            i <= conns.len(),
            forall|t: int| i <= t < conns.len() ==> #[trigger] s[t].0 != id@,
        decreases i,
    {
        i -= 1;
        if conns[i].0 == *id {
            return Some(i);
        }
    }
    None
}

proof fn lemma_unique_update<K, V>(s: Seq<(K, V)>, i: int, v: V)
    requires
        keys_unique(s),
        0 <= i < s.len(),
    ensures
        keys_unique(s.update(i, (s[i].0, v))),
{
    let u = s.update(i, (s[i].0, v));
    assert forall|a: int, b: int| 0 <= a < b < u.len() implies #[trigger] u[a].0 != #[trigger] u[b].0 by {
        assert(s[a].0 != s[b].0);
    }
}

proof fn lemma_unique_push<K, V>(s: Seq<(K, V)>, k: K, v: V)
    requires
        keys_unique(s),
        absent(s, k),
    ensures
        keys_unique(s.push((k, v))),
{
    let u = s.push((k, v));
    assert forall|a: int, b: int| 0 <= a < b < u.len() implies #[trigger] u[a].0 != #[trigger] u[b].0 by {
        if b == s.len() {
            assert(s[a].0 != k);
        } else {
            assert(s[a].0 != s[b].0);
        }
    }
}

impl LoadBalancer {
    /// Counters without duplicate keys.
    pub closed spec fn wf(&self) -> bool {
        keys_unique(self.rr@) && keys_unique(self.conns.deep_view())
    }

    pub fn new() -> (lb: Self)
        ensures
            lb.wf(),
            lb@.0.len() == 0,
            lb@.1.len() == 0,
    {
        LoadBalancer { rr: Vec::new(), conns: Vec::new() }
    }

    /// Active connections counted on `id`.
    pub fn connections(&self, id: &str) -> (r: usize)
        ensures
            r == conn_count(self@.1, id@),
    {
        let key = String::from_str(id);
        match find_conn(&self.conns, &key) {
            Some(i) => {
                proof {
                    lemma_find_at_last(self.conns.deep_view(), id@, i as int);
                }
                self.conns[i].1
            },
            None => {
                proof {
                    lemma_find_absent::<Seq<char>, usize>(self.conns.deep_view(), id@);
                }
                0
            },
        }
    }

    /// Records one more active connection on `node` (after it was
    /// established) and returns the guard to release it with.
    pub fn track(&mut self, node: &str) -> (g: ConnGuard)
        requires
            old(self).wf(),
            conn_count(old(self)@.1, node@) < usize::MAX,
        ensures
            final(self).wf(),
            g.node_id() == node@,
            final(self)@.0 == old(self)@.0,
            forall|x: Seq<char>| #[trigger] conn_count(final(self)@.1, x) == conn_count(old(self)@.1, x)
                + if x == node@ {
                1nat
            } else {
                0nat
            },
    {
        let ghost s = self.conns.deep_view();
        let key = String::from_str(node);
        match find_conn(&self.conns, &key) {
            Some(i) => {
                proof {
                    lemma_find_at_last(s, node@, i as int);
                }
                let c = self.conns[i].1;
                let k2 = key.clone();
                self.conns.set(i, (k2, c + 1));
                proof {
                    assert(self.conns.deep_view() =~= s.update(i as int, (node@, (c + 1) as usize)));
                    lemma_unique_update(s, i as int, (c + 1) as usize);
                    assert forall|x: Seq<char>| #[trigger] conn_count(self.conns.deep_view(), x)
                        == conn_count(s, x) + if x == node@ {
                        1nat
                    } else {
                        0nat
                    } by {
                        lemma_find_update_last(s, node@, i as int, (c + 1) as usize, x);
                    }
                }
            },
            None => {
                let k2 = key.clone();
                self.conns.push((k2, 1));
                proof {
                    lemma_find_absent::<Seq<char>, usize>(s, node@);
                    assert(self.conns.deep_view() =~= s.push((node@, 1usize)));
                    lemma_unique_push(s, node@, 1usize);
                    assert forall|x: Seq<char>| #[trigger] conn_count(self.conns.deep_view(), x)
                        == conn_count(s, x) + if x == node@ {
                        1nat
                    } else {
                        0nat
                    } by {
                        lemma_find_push(s, node@, 1usize, x);
                    }
                }
            },
        }
        ConnGuard { node: key }
    }

    /// The connection held by `guard` has ended: one fewer on its node,
    /// never below zero.
    pub fn release(&mut self, guard: ConnGuard)
        requires
            old(self).wf(),
        ensures
            final(self).wf(),
            final(self)@.0 == old(self)@.0,
            forall|x: Seq<char>| #[trigger] conn_count(final(self)@.1, x) == if x == guard.node_id()
                && conn_count(old(self)@.1, x) > 0 {
                (conn_count(old(self)@.1, x) - 1) as nat
            } else {
                conn_count(old(self)@.1, x)
            },
    {
        let ghost s = self.conns.deep_view();
        let ghost id = guard.node_id();
        match find_conn(&self.conns, &guard.node) {
            Some(i) => {
                proof {
                    lemma_find_at_last(s, id, i as int);
                }
                let c = self.conns[i].1;
                let nc = if c > 0 {
                    c - 1
                } else {
                    0
                };
                self.conns.set(i, (guard.node, nc));
                proof {
                    assert(self.conns.deep_view() =~= s.update(i as int, (id, nc)));
                    lemma_unique_update(s, i as int, nc);
                    assert forall|x: Seq<char>| #[trigger] conn_count(self.conns.deep_view(), x)
                        == if x == id && conn_count(s, x) > 0 {
                        (conn_count(s, x) - 1) as nat
                    } else {
                        conn_count(s, x)
                    } by {
                        lemma_find_update_last(s, id, i as int, nc, x);
                    }
                }
            },
            None => {
                proof {
                    lemma_find_absent::<Seq<char>, usize>(s, id);
                }
            },
        }
    }
}

// ───────────────────────── building blocks ─────────────────────────

/// The candidate pool of a hop under `view`.
pub fn candidates(nodes: &Vec<HopNode>, view: &NodeView) -> (pool: Vec<HopNode>)
    ensures
        pool.deep_view() == candidate_pool(nodes.deep_view(), view.health.deep_view()),
{
    let ghost s = nodes.deep_view();
    let ghost p = usable_pred(view.health.deep_view());
    let mut healthy: Vec<HopNode> = Vec::new();
    let mut i: usize = 0;
    while i < nodes.len()
        invariant
            s == nodes.deep_view(),
            p == usable_pred(view.health.deep_view()),
            i <= nodes.len(),
            healthy.deep_view() == retain(s.take(i as int), p),
            healthy@.len() == healthy.deep_view().len(),
        decreases nodes.len() - i,
    {
        assert(s.take(i + 1).drop_last() == s.take(i as int));
        assert(s.take(i + 1).last() == s[i as int]);
        if view.usable(nodes[i].id.as_str()) {
            let ghost prev = healthy.deep_view();
            let n = copy_node(&nodes[i]);
            healthy.push(n);
            assert(healthy.deep_view() =~= prev.push(s[i as int]));
        }
        i += 1;
    }
    assert(s.take(nodes.len() as int) == s);
    if healthy.len() == 0 {
        copy_nodes(nodes)
    } else {
        healthy
    }
}

proof fn lemma_expanded_len(pool: Seq<NodeSpec>, cap: u32)
    requires
        cap >= 1,
    ensures
        expanded(pool, cap).len() >= pool.len(),
    decreases pool.len(),
{
    if pool.len() > 0 {
        lemma_expanded_len(pool.drop_last(), cap);
    }
}

/// Each node of `pool` repeated `weight.clamp(1, MAX_WEIGHT)` times, in order.
pub fn expand(pool: &Vec<HopNode>) -> (r: Vec<String>)
    ensures
        r.deep_view() == expanded(pool.deep_view(), MAX_WEIGHT),
{
    expand_capped(pool, MAX_WEIGHT)
}

/// Each node of `pool` repeated `weight.clamp(1, cap)` times, in order.
pub fn expand_capped(pool: &Vec<HopNode>, cap: u32) -> (r: Vec<String>)
    requires
        cap >= 1,
    ensures
        r.deep_view() == expanded(pool.deep_view(), cap),
{
    let ghost s = pool.deep_view();
    let mut r: Vec<String> = Vec::new();
    let mut i: usize = 0;
    while i < pool.len()
        invariant
            s == pool.deep_view(),
            i <= pool.len(),
            cap >= 1,
            r.deep_view() == expanded(s.take(i as int), cap),
        decreases pool.len() - i,
    {
        let w = pool[i].weight;
        let c: u32 = if w < 1 {
            1
        } else if w > cap {
            cap
        } else {
            w
        };
        let ghost base = r.deep_view();
        let mut k: u32 = 0;
        while k < c
            invariant
                s == pool.deep_view(),
                i < pool.len(),
                k <= c,
                base == expanded(s.take(i as int), cap),
                r.deep_view() == base + Seq::new(k as nat, |t: int| s[i as int].0),
            decreases c - k,
        {
            let ghost prev = r.deep_view();
            r.push(pool[i].id.clone());
            assert(r.deep_view() =~= base + Seq::new((k + 1) as nat, |t: int| s[i as int].0)) by {
                assert(r.deep_view() =~= prev.push(s[i as int].0));
            }
            k += 1;
        }
        assert(s.take(i + 1).drop_last() == s.take(i as int));
        assert(s.take(i + 1).last() == s[i as int]);
        assert(clamp_weight(s[i as int].1, cap) == c);
        i += 1;
    }
    assert(s.take(pool.len() as int) == s);
    r
}

/// Whether `out` holds `id`.
pub fn holds(out: &Vec<String>, id: &String) -> (r: bool)
    ensures
        r == out.deep_view().contains(id@),
{
    let mut i: usize = 0;
    while i < out.len()
        invariant
            i <= out.len(),
            forall|t: int| 0 <= t < i ==> #[trigger] out.deep_view()[t] != id@,
        decreases out.len() - i,
    {
        if out[i] == *id {
            assert(out.deep_view()[i as int] == id@);
            return true;
        }
        i += 1;
    }
    false
}

/// Weighted round robin on counter value `counter`.
pub fn weighted_ordered(pool: &Vec<HopNode>, counter: usize, cap: u32) -> (r: Vec<String>)
    requires
        pool.len() > 0,
        cap >= 1,
    ensures
        r.deep_view() == weighted_order(pool.deep_view(), counter, cap),
{
    let ghost s = pool.deep_view();
    let e = expand_capped(pool, cap);
    proof {
        lemma_expanded_len(s, cap);
    }
    let idx = counter % e.len();
    let primary = e[idx].clone();
    assert(primary@ == expanded(s, cap)[(counter as int) % (e.len() as int)]);
    let mut out: Vec<String> = Vec::new();
    out.push(primary);
    let ghost start = out.deep_view();
    assert(start =~= seq![expanded(s, cap)[(counter as int) % (e.len() as int)]]);
    let mut i: usize = 0;
    while i < pool.len()
        invariant
            s == pool.deep_view(),
            i <= pool.len(),
            out.deep_view() == dedup_onto(start, pool_ids(s).take(i as int)),
        decreases pool.len() - i,
    {
        let ghost ids = pool_ids(s);
        assert(ids.take(i + 1).drop_last() == ids.take(i as int));
        assert(ids.take(i + 1).last() == s[i as int].0);
        if !holds(&out, &pool[i].id) {
            let ghost prev = out.deep_view();
            out.push(pool[i].id.clone());
            assert(out.deep_view() =~= prev.push(s[i as int].0));
        }
        i += 1;
    }
    assert(pool_ids(s).take(pool.len() as int) == pool_ids(s));
    out
}

/// The ids of `pool` at `order`'s positions.
fn ids_at(pool: &Vec<HopNode>, order: &Vec<usize>) -> (r: Vec<String>)
    requires
        forall|k: int| 0 <= k < order.len() ==> #[trigger] order@[k] < pool.len(),
    ensures
        r.deep_view() =~= order@.map_values(|p: usize| pool_ids(pool.deep_view())[p as int]),
{
    let ghost s = pool.deep_view();
    let mut r: Vec<String> = Vec::new();
    let mut i: usize = 0;
    while i < order.len()
        invariant
            s == pool.deep_view(),
            forall|k: int| 0 <= k < order.len() ==> #[trigger] order@[k] < pool.len(),
            i <= order.len(),
            r.deep_view() =~= order@.take(i as int).map_values(|p: usize| pool_ids(s)[p as int]),
        decreases order.len() - i,
    {
        let ghost prev = r.deep_view();
        r.push(pool[order[i]].id.clone());
        assert(r.deep_view() =~= prev.push(pool_ids(s)[order@[i as int] as int]));
        assert(order@.take(i + 1) == order@.take(i as int).push(order@[i as int]));
        i += 1;
    }
    assert(order@.take(order.len() as int) == order@);
    r
}

/// The ids of `pool` as character vectors.
pub fn id_chars(pool: &Vec<HopNode>) -> (r: Vec<Vec<char>>)
    ensures
        r.len() == pool.len(),
        r.deep_view() == pool_ids(pool.deep_view()),
{
    let ghost s = pool.deep_view();
    let mut r: Vec<Vec<char>> = Vec::new();
    let mut i: usize = 0;
    while i < pool.len()
        invariant
            s == pool.deep_view(),
            i <= pool.len(),
            r.len() == i,
            r.deep_view() =~= pool_ids(s).take(i as int),
        decreases pool.len() - i,
    {
        let ghost prev = r.deep_view();
        let cs = chars_of(pool[i].id.as_str());
        assert(cs.deep_view() =~= cs@);
        r.push(cs);
        assert(r.deep_view() =~= prev.push(s[i as int].0));
        i += 1;
    }
    assert(pool_ids(s).take(pool.len() as int) =~= pool_ids(s));
    r
}

/// Ranks `pool` by `keys` and returns the ids in that order.
pub fn rank_ids(pool: &Vec<HopNode>, keys: &Vec<(u128, u128)>) -> (r: Vec<String>)
    requires
        keys.len() == pool.len(),
        forall|k: int| 0 <= k < keys.len() ==> key_fits(#[trigger] keys@[k]),
    ensures
        r.deep_view() == ranked_ids(keys_view(keys@), pool_ids(pool.deep_view())),
{
    let ids = id_chars(pool);
    let order = rank_positions(keys, &ids);
    proof {
        let kv = keys_view(keys@);
        let iv = pool_ids(pool.deep_view());
        let le = crate::rank::rank_le(kv, iv);
        let ps = crate::rank::positions(kv.len());
        crate::rank::lemma_rank_total(kv, iv);
        ps.lemma_sort_by_ensures(le);
        broadcast use vstd::seq_lib::group_to_multiset_ensures;

        assert forall|k: int| 0 <= k < order.len() implies #[trigger] order@[k] < pool.len() by {
            assert(order@.contains(order@[k]));
            assert(ps.contains(order@[k]));
        }
    }
    ids_at(pool, &order)
}

pub fn rendezvous_ordered(pool: &Vec<HopNode>, ip: &IpAddress) -> (r: Vec<String>)
    ensures
        r.deep_view() == rendezvous_order(pool.deep_view(), ip.octets_spec()),
{
    let ghost s = pool.deep_view();
    let octets = ip.octets();
    let mut keys: Vec<(u128, u128)> = Vec::new();
    let mut i: usize = 0;
    while i < pool.len()
        invariant
            s == pool.deep_view(),
            octets@ == ip.octets_spec(),
            i <= pool.len(),
            keys.len() == i,
            forall|k: int| 0 <= k < i ==> key_fits(#[trigger] keys@[k]),
            keys_view(keys@) =~= rendezvous_keys(s, ip.octets_spec()).take(i as int),
        decreases pool.len() - i,
    {
        let h = hash_ip_id(octets.as_slice(), pool[i].id.as_str());
        let w: u128 = if pool[i].weight == 0 {
            1
        } else {
            pool[i].weight as u128
        };
        assert(w * (h as u128) <= 0xffff_ffff_ffff_ffff_ffff_ffff) by (nonlinear_arith)
            requires
                w <= 0xffff_ffff,
                h <= 0xffff_ffff_ffff_ffff,
        ;
        let score: u128 = w * (h as u128);
        keys.push((0x1_0000_0000_0000_0000_0000_0000 - score, 1));
        assert(keys_view(keys@)[i as int] == rendezvous_keys(s, ip.octets_spec())[i as int]);
        i += 1;
    }
    assert(rendezvous_keys(s, ip.octets_spec()).take(pool.len() as int) =~= rendezvous_keys(s, ip.octets_spec()));
    rank_ids(pool, &keys)
}

fn latency_ordered(pool: &Vec<HopNode>, view: &NodeView) -> (r: Vec<String>)
    ensures
        r.deep_view() == latency_order(pool.deep_view(), view.latency.deep_view()),
{
    let ghost s = pool.deep_view();
    let mut keys: Vec<(u128, u128)> = Vec::new();
    let mut i: usize = 0;
    while i < pool.len()
        invariant
            s == pool.deep_view(),
            i <= pool.len(),
            keys.len() == i,
            forall|k: int| 0 <= k < i ==> key_fits(#[trigger] keys@[k]),
            keys_view(keys@) =~= latency_keys(s, view.latency.deep_view()).take(i as int),
        decreases pool.len() - i,
    {
        let l = view.latency(pool[i].id.as_str());
        keys.push((l as u128, 1));
        assert(keys_view(keys@)[i as int] == latency_keys(s, view.latency.deep_view())[i as int]);
        i += 1;
    }
    assert(latency_keys(s, view.latency.deep_view()).take(pool.len() as int) =~= latency_keys(s, view.latency.deep_view()));
    rank_ids(pool, &keys)
}

impl LoadBalancer {
    fn least_conn_ordered(&self, pool: &Vec<HopNode>) -> (r: Vec<String>)
        ensures
            r.deep_view() == least_conn_order(pool.deep_view(), self@.1),
    {
        let ghost s = pool.deep_view();
        let mut keys: Vec<(u128, u128)> = Vec::new();
        let mut i: usize = 0;
        while i < pool.len()
            invariant
                s == pool.deep_view(),
                i <= pool.len(),
                keys.len() == i,
                forall|k: int| 0 <= k < i ==> key_fits(#[trigger] keys@[k]),
                keys_view(keys@) =~= least_conn_keys(s, self@.1).take(i as int),
            decreases pool.len() - i,
        {
            let c = self.connections(pool[i].id.as_str());
            let w: u128 = if pool[i].weight == 0 {
                1
            } else {
                pool[i].weight as u128
            };
            keys.push((c as u128, w));
            assert(keys_view(keys@)[i as int] == least_conn_keys(s, self@.1)[i as int]);
            i += 1;
        }
        assert(least_conn_keys(s, self@.1).take(pool.len() as int) =~= least_conn_keys(s, self@.1));
        rank_ids(pool, &keys)
    }

    /// Advances the round-robin counter of `(fid, hop_idx)` and returns the
    /// value it had.
    fn next_counter(&mut self, fid: i64, hop_idx: usize) -> (c: usize)
        requires
            old(self).wf(),
        ensures
            final(self).wf(),
            c == rr_counter(old(self)@.0, fid, hop_idx),
            final(self)@.1 == old(self)@.1,
            forall|f: i64, h: usize| #[trigger] rr_counter(final(self)@.0, f, h) == if f == fid && h
                == hop_idx {
                wrapping_next(c)
            } else {
                rr_counter(old(self)@.0, f, h)
            },
    {
        let ghost s = self.rr@;
        match find_rr(&self.rr, fid, hop_idx) {
            Some(i) => {
                proof {
                    lemma_find_at_last(s, (fid, hop_idx), i as int);
                }
                let c = self.rr[i].1;
                let nc = if c == usize::MAX {
                    0
                } else {
                    c + 1
                };
                self.rr.set(i, ((fid, hop_idx), nc));
                proof {
                    lemma_unique_update(s, i as int, nc);
                    assert forall|f: i64, h: usize| #[trigger] rr_counter(self.rr@, f, h) == if f
                        == fid && h == hop_idx {
                        wrapping_next(c)
                    } else {
                        rr_counter(s, f, h)
                    } by {
                        lemma_find_update_last(s, (fid, hop_idx), i as int, nc, (f, h));
                    }
                }
                c
            },
            None => {
                self.rr.push(((fid, hop_idx), 1));
                proof {
                    lemma_find_absent::<(i64, usize), usize>(s, (fid, hop_idx));
                    lemma_unique_push(s, (fid, hop_idx), 1usize);
                    assert forall|f: i64, h: usize| #[trigger] rr_counter(self.rr@, f, h) == if f
                        == fid && h == hop_idx {
                        wrapping_next(0)
                    } else {
                        rr_counter(s, f, h)
                    } by {
                        lemma_find_push(s, (fid, hop_idx), 1usize, (f, h));
                    }
                }
                0
            },
        }
    }

    /// The ordered candidates of one hop: `[primary, fallback, ...]`, each
    /// tried in turn on failure. Only usable nodes take part, unless none is
    /// usable; then all do. Weighted round robin advances the hop's counter.
    pub fn select_ordered(
        &mut self,
        forward_id: i64,
        hop_idx: usize,
        hop: &Hop,
        client_ip: &IpAddress,
        view: &NodeView,
    ) -> (r: Vec<String>)
        requires
            old(self).wf(),
            hop.nodes.len() > 0 || !is_weighted(hop.strategy@),
        ensures
            final(self).wf(),
            r.deep_view() == selection(
                old(self)@.0,
                old(self)@.1,
                forward_id,
                hop_idx,
                hop@,
                client_ip.octets_spec(),
                view.health.deep_view(),
                view.latency.deep_view(),
            ),
            final(self)@.1 == old(self)@.1,
            forall|f: i64, h: usize| #[trigger] rr_counter(final(self)@.0, f, h) == if f
                == forward_id && h == hop_idx && advances_counter(hop@, view.health.deep_view()) {
                wrapping_next(rr_counter(old(self)@.0, f, h))
            } else {
                rr_counter(old(self)@.0, f, h)
            },
    {
        let pool = candidates(&hop.nodes, view);
        let ghost p = pool.deep_view();
        if pool.len() == 1 {
            let mut r: Vec<String> = Vec::new();
            r.push(pool[0].id.clone());
            assert(r.deep_view() =~= seq![p[0].0]);
            return r;
        }
        let strategy = chars_of(hop.strategy.as_str());
        if is_lit(strategy.as_slice(), "source_hash") {
            rendezvous_ordered(&pool, client_ip)
        } else if is_lit(strategy.as_slice(), "least_conn") {
            self.least_conn_ordered(&pool)
        } else if is_lit(strategy.as_slice(), "latency") {
            latency_ordered(&pool, view)
        } else {
            assert(pool.len() > 0);
            let c = self.next_counter(forward_id, hop_idx);
            weighted_ordered(&pool, c, MAX_WEIGHT)
        }
    }
}

impl Default for LoadBalancer {
    fn default() -> (lb: Self)
        ensures
            lb.wf(),
            lb@.0.len() == 0,
            lb@.1.len() == 0,
    {
        LoadBalancer::new()
    }
}

// ───────────────────────── laws ─────────────────────────

proof fn lemma_dedup_distinct(out: Seq<Seq<char>>, ids: Seq<Seq<char>>)
    requires
        out.no_duplicates(),
    ensures
        dedup_onto(out, ids).no_duplicates(),
    decreases ids.len(),
{
    if ids.len() > 0 {
        lemma_dedup_distinct(out, ids.drop_last());
        let prev = dedup_onto(out, ids.drop_last());
        if !prev.contains(ids.last()) {
            let q = prev.push(ids.last());
            assert forall|i: int, j: int| 0 <= i < q.len() && 0 <= j < q.len() && i != j implies q[i]
                != q[j] by {
                if i < prev.len() && j < prev.len() {
                    assert(q[i] == prev[i] && q[j] == prev[j]);
                } else if i < prev.len() {
                    assert(q[i] == prev[i]);
                    assert(prev.contains(prev[i]));
                } else {
                    assert(q[j] == prev[j]);
                    assert(prev.contains(prev[j]));
                }
            }
        }
    }
}

proof fn lemma_dedup_members(out: Seq<Seq<char>>, ids: Seq<Seq<char>>)
    ensures
        forall|x: Seq<char>| dedup_onto(out, ids).contains(x) <==> out.contains(x) || ids.contains(x),
    decreases ids.len(),
{
    if ids.len() > 0 {
        lemma_dedup_members(out, ids.drop_last());
        let prev = dedup_onto(out, ids.drop_last());
        assert forall|x: Seq<char>| dedup_onto(out, ids).contains(x) <==> out.contains(x)
            || ids.contains(x) by {
            if ids.drop_last().contains(x) {
                let t = choose|t: int| 0 <= t < ids.drop_last().len() && ids.drop_last()[t] == x;
                assert(ids[t] == x);
            }
            if ids.contains(x) && x != ids.last() {
                let t = choose|t: int| 0 <= t < ids.len() && ids[t] == x;
                assert(t != ids.len() - 1);
                assert(ids.drop_last()[t] == x);
            }
            if !prev.contains(ids.last()) {
                let q = prev.push(ids.last());
                assert(q[prev.len() as int] == ids.last());
                if q.contains(x) {
                    let t = choose|t: int| 0 <= t < q.len() && q[t] == x;
                    if t < prev.len() {
                        assert(prev[t] == x);
                    }
                }
                if prev.contains(x) {
                    let t = choose|t: int| 0 <= t < prev.len() && prev[t] == x;
                    assert(q[t] == x);
                }
            }
            assert(ids[ids.len() - 1] == ids.last());
        }
    }
}

proof fn lemma_expanded_members(pool: Seq<NodeSpec>, cap: u32)
    ensures
        forall|x: Seq<char>| #[trigger] expanded(pool, cap).contains(x) ==> pool_ids(pool).contains(x),
    decreases pool.len(),
{
    if pool.len() > 0 {
        let p0 = pool.drop_last();
        lemma_expanded_members(p0, cap);
        let tail = Seq::new(clamp_weight(pool.last().1, cap), |k: int| pool.last().0);
        assert forall|x: Seq<char>| expanded(pool, cap).contains(x) implies pool_ids(pool).contains(x) by {
            let e = expanded(pool, cap);
            let t = choose|t: int| 0 <= t < e.len() && e[t] == x;
            if t < expanded(p0, cap).len() {
                assert(expanded(p0, cap)[t] == x);
                assert(expanded(p0, cap).contains(x));
                let j = choose|j: int| 0 <= j < pool_ids(p0).len() && pool_ids(p0)[j] == x;
                assert(pool_ids(pool)[j] == x);
            } else {
                assert(tail[t - expanded(p0, cap).len()] == x);
                assert(pool_ids(pool)[pool.len() - 1] == x);
            }
        }
    }
}

/// Candidates and pool: every candidate is a node of the pool, every node
/// of the pool is a candidate (all of them serve for failover), each once
/// when the pool names each node once, and when some node of the hop is
/// usable, every candidate is usable.
pub proof fn lemma_selection_members(
    rr: Seq<((i64, usize), usize)>,
    conns: Seq<(Seq<char>, usize)>,
    fid: i64,
    hop_idx: usize,
    hop: (Seq<char>, Seq<NodeSpec>),
    ip: Seq<u8>,
    health: Seq<(Seq<char>, Seq<char>)>,
    latency: Seq<(Seq<char>, u32)>,
)
    requires
        0 < hop.1.len() <= usize::MAX,
    ensures
        forall|x: Seq<char>| #[trigger]
            selection(rr, conns, fid, hop_idx, hop, ip, health, latency).contains(x) <==> pool_ids(
                candidate_pool(hop.1, health),
            ).contains(x),
        (exists|i: int| 0 <= i < hop.1.len() && node_usable(health, #[trigger] hop.1[i].0)) ==> forall|
            x: Seq<char>,
        | #[trigger]
            selection(rr, conns, fid, hop_idx, hop, ip, health, latency).contains(x) ==> node_usable(
                health,
                x,
            ),
        pool_ids(candidate_pool(hop.1, health)).no_duplicates() ==> selection(
            rr,
            conns,
            fid,
            hop_idx,
            hop,
            ip,
            health,
            latency,
        ).no_duplicates(),
{
    let pool = candidate_pool(hop.1, health);
    let ids = pool_ids(pool);
    let r = selection(rr, conns, fid, hop_idx, hop, ip, health, latency);
    let healthy = retain(hop.1, usable_pred(health));
    crate::assoc::lemma_retain_props(hop.1, usable_pred(health));
    assert(pool.len() > 0);
    assert(pool.len() <= usize::MAX);
    if pool.len() == 1 {
        assert forall|x: Seq<char>| r.contains(x) <==> ids.contains(x) by {
            assert(r[0] == ids[0]);
            if ids.contains(x) {
                let t = choose|t: int| 0 <= t < ids.len() && ids[t] == x;
                assert(t == 0);
            }
        }
    } else if hop.0 == "source_hash"@ {
        crate::rank::lemma_ranked_ids_members(rendezvous_keys(pool, ip), ids);
        if ids.no_duplicates() {
            crate::rank::lemma_ranked_ids_distinct(rendezvous_keys(pool, ip), ids);
        }
    } else if hop.0 == "least_conn"@ {
        crate::rank::lemma_ranked_ids_members(least_conn_keys(pool, conns), ids);
        if ids.no_duplicates() {
            crate::rank::lemma_ranked_ids_distinct(least_conn_keys(pool, conns), ids);
        }
    } else if hop.0 == "latency"@ {
        crate::rank::lemma_ranked_ids_members(latency_keys(pool, latency), ids);
        if ids.no_duplicates() {
            crate::rank::lemma_ranked_ids_distinct(latency_keys(pool, latency), ids);
        }
    } else {
        let e = expanded(pool, MAX_WEIGHT);
        lemma_expanded_len(pool, MAX_WEIGHT);
        lemma_expanded_members(pool, MAX_WEIGHT);
        let primary = e[(rr_counter(rr, fid, hop_idx) as int) % (e.len() as int)];
        assert(e.contains(primary));
        lemma_dedup_members(seq![primary], ids);
        lemma_dedup_distinct(seq![primary], ids);
        assert forall|x: Seq<char>| r.contains(x) <==> ids.contains(x) by {
            if seq![primary].contains(x) {
                let t = choose|t: int| 0 <= t < 1 && seq![primary][t] == x;
                assert(x == primary);
            }
            if x == primary {
                assert(seq![primary][0] == x);
            }
        }
    }
    if exists|i: int| 0 <= i < hop.1.len() && node_usable(health, #[trigger] hop.1[i].0) {
        let i = choose|i: int| 0 <= i < hop.1.len() && node_usable(health, #[trigger] hop.1[i].0);
        assert(hop.1.contains(hop.1[i]));
        assert(healthy.contains(hop.1[i]));
        assert(healthy.len() > 0);
        assert forall|x: Seq<char>| #[trigger] r.contains(x) implies node_usable(health, x) by {
            assert(ids.contains(x));
            let t = choose|t: int| 0 <= t < ids.len() && ids[t] == x;
            assert(pool == healthy);
            assert(healthy.contains(healthy[t]));
            assert(usable_pred(health)(healthy[t]));
        }
    }
}

/// Source hashing is sticky: what it picks depends on the hop, the client
/// address and node health alone, never on round-robin counters, connection
/// counts or latencies, so the same client goes to the same node again.
pub proof fn law_source_hash_sticky(
    rr1: Seq<((i64, usize), usize)>,
    conns1: Seq<(Seq<char>, usize)>,
    latency1: Seq<(Seq<char>, u32)>,
    rr2: Seq<((i64, usize), usize)>,
    conns2: Seq<(Seq<char>, usize)>,
    latency2: Seq<(Seq<char>, u32)>,
    fid: i64,
    hop_idx: usize,
    hop: (Seq<char>, Seq<NodeSpec>),
    ip: Seq<u8>,
    health: Seq<(Seq<char>, Seq<char>)>,
)
    requires
        hop.0 == "source_hash"@,
    ensures
        selection(rr1, conns1, fid, hop_idx, hop, ip, health, latency1) == selection(
            rr2,
            conns2,
            fid,
            hop_idx,
            hop,
            ip,
            health,
            latency2,
        ),
{
}

/// Source hashing survives a change of topology: when every node of the hop
/// is usable, taking out any node other than the one a client goes to leaves
/// that client on the same node.
pub proof fn law_source_hash_stable(
    rr: Seq<((i64, usize), usize)>,
    conns: Seq<(Seq<char>, usize)>,
    fid: i64,
    hop_idx: usize,
    strategy: Seq<char>,
    nodes: Seq<NodeSpec>,
    ip: Seq<u8>,
    health: Seq<(Seq<char>, Seq<char>)>,
    latency: Seq<(Seq<char>, u32)>,
    k: int,
)
    requires
        strategy == "source_hash"@,
        2 <= nodes.len() <= usize::MAX,
        forall|i: int| 0 <= i < nodes.len() ==> node_usable(health, #[trigger] nodes[i].0),
        0 <= k < nodes.len(),
        nodes[k].0 != selection(rr, conns, fid, hop_idx, (strategy, nodes), ip, health, latency)[0],
    ensures
        selection(rr, conns, fid, hop_idx, (strategy, nodes.remove(k)), ip, health, latency)[0]
            == selection(rr, conns, fid, hop_idx, (strategy, nodes), ip, health, latency)[0],
{
    let p = usable_pred(health);
    crate::flows::lemma_retain_all(nodes, p);
    let rem = nodes.remove(k);
    assert forall|i: int| 0 <= i < rem.len() implies p(#[trigger] rem[i]) by {
        if i < k {
            assert(rem[i] == nodes[i]);
        } else {
            assert(rem[i] == nodes[i + 1]);
        }
    }
    crate::flows::lemma_retain_all(rem, p);
    assert(candidate_pool(nodes, health) == nodes);
    assert(candidate_pool(rem, health) == rem);
    let primary = rendezvous_order(nodes, ip)[0];
    if nodes.len() == 2 {
        crate::rank::lemma_ranked_ids_members(rendezvous_keys(nodes, ip), pool_ids(nodes));
        let ids = pool_ids(nodes);
        assert(rendezvous_order(nodes, ip).contains(primary));
        assert(ids.contains(primary));
        let t = choose|t: int| 0 <= t < ids.len() && ids[t] == primary;
        assert(t != k);
        if k == 0 {
            assert(rem[0] == nodes[1]);
        } else {
            assert(rem[0] == nodes[0]);
        }
    } else {
        lemma_rendezvous_stable(nodes, ip, k);
    }
}

/// Lowest latency first: under the latency strategy, of two candidates the
/// earlier one never has a higher probed latency than the later one,
/// whatever the nodes' weights; so the primary has the lowest probed
/// latency of the pool.
pub proof fn law_latency_ascending(
    rr: Seq<((i64, usize), usize)>,
    conns: Seq<(Seq<char>, usize)>,
    fid: i64,
    hop_idx: usize,
    hop: (Seq<char>, Seq<NodeSpec>),
    ip: Seq<u8>,
    health: Seq<(Seq<char>, Seq<char>)>,
    latency: Seq<(Seq<char>, u32)>,
)
    requires
        hop.0 == "latency"@,
        hop.1.len() <= usize::MAX,
    ensures
        forall|i: int, j: int|
            0 <= i < j < selection(rr, conns, fid, hop_idx, hop, ip, health, latency).len() ==> node_latency(
                latency,
                #[trigger] selection(rr, conns, fid, hop_idx, hop, ip, health, latency)[i],
            ) <= node_latency(latency, #[trigger] selection(rr, conns, fid, hop_idx, hop, ip, health, latency)[j]),
        forall|k: int|
            0 <= k < candidate_pool(hop.1, health).len() ==> node_latency(
                latency,
                selection(rr, conns, fid, hop_idx, hop, ip, health, latency)[0],
            ) <= node_latency(latency, #[trigger] candidate_pool(hop.1, health)[k].0),
{
    let pool = candidate_pool(hop.1, health);
    let r = selection(rr, conns, fid, hop_idx, hop, ip, health, latency);
    crate::assoc::lemma_retain_props(hop.1, usable_pred(health));
    assert(pool.len() <= usize::MAX);
    let keys = latency_keys(pool, latency);
    let ids = pool_ids(pool);
    if pool.len() != 1 {
        reveal_strlit("latency");
        reveal_strlit("source_hash");
        reveal_strlit("least_conn");
        assert("latency"@ != "source_hash"@ && "latency"@ != "least_conn"@) by {
            assert("latency"@[0] != "source_hash"@[0]);
            assert("latency"@.len() != "least_conn"@.len());
        }
        assert(r == ranked_ids(keys, ids));
        crate::rank::lemma_ranked_ids_members(keys, ids);
        assert forall|i: int, j: int| 0 <= i < j < r.len() implies node_latency(latency, #[trigger] r[i])
            <= node_latency(latency, #[trigger] r[j]) by {
            crate::rank::lemma_ranked_keys_ascending(keys, ids, i, j);
            let a = crate::rank::ranked(keys, ids)[i] as int;
            let b = crate::rank::ranked(keys, ids)[j] as int;
            assert(keys[a] == (node_latency(latency, pool[a].0) as int, 1int));
            assert(keys[b] == (node_latency(latency, pool[b].0) as int, 1int));
            assert(ids[a] == pool[a].0 && ids[b] == pool[b].0);
            assert(r[i] == pool[a].0 && r[j] == pool[b].0);
            assert(crate::rank::pos(1) == 1);
            let la = node_latency(latency, pool[a].0) as int;
            let lb = node_latency(latency, pool[b].0) as int;
            assert(la * 1 == la && lb * 1 == lb);
        }
        assert forall|k: int| 0 <= k < pool.len() implies node_latency(latency, r[0]) <= node_latency(
            latency,
            #[trigger] pool[k].0,
        ) by {
            assert(ids[k] == pool[k].0);
            assert(ids.contains(pool[k].0));
            assert(r.contains(pool[k].0));
            let t = choose|t: int| 0 <= t < r.len() && r[t] == pool[k].0;
            if t > 0 {
                assert(node_latency(latency, r[0]) <= node_latency(latency, r[t]));
            }
        }
    }
}

proof fn lemma_strategy_literals()
    ensures
        "latency"@ != "source_hash"@,
        "latency"@ != "least_conn"@,
        "least_conn"@ != "source_hash"@,
{
    reveal_strlit("latency");
    reveal_strlit("source_hash");
    reveal_strlit("least_conn");
    assert("latency"@[0] != "source_hash"@[0]);
    assert("latency"@.len() != "least_conn"@.len());
    assert("least_conn"@[0] != "source_hash"@[0]);
}

/// Least connections first: under the least-connections strategy, of two
/// candidates the earlier one carries no more connections per unit of
/// weight than the later one (`c_a / w_a <= c_b / w_b`, compared as
/// `c_a * w_b <= c_b * w_a`).
pub proof fn law_least_conn_ascending(
    rr: Seq<((i64, usize), usize)>,
    conns: Seq<(Seq<char>, usize)>,
    fid: i64,
    hop_idx: usize,
    hop: (Seq<char>, Seq<NodeSpec>),
    ip: Seq<u8>,
    health: Seq<(Seq<char>, Seq<char>)>,
    latency: Seq<(Seq<char>, u32)>,
    i: int,
    j: int,
)
    requires
        hop.0 == "least_conn"@,
        hop.1.len() <= usize::MAX,
        0 <= i < j < selection(rr, conns, fid, hop_idx, hop, ip, health, latency).len(),
    ensures
        exists|a: int, b: int|
            0 <= a < candidate_pool(hop.1, health).len() && 0 <= b < candidate_pool(hop.1, health).len()
                && selection(rr, conns, fid, hop_idx, hop, ip, health, latency)[i] == #[trigger] candidate_pool(
                hop.1,
                health,
            )[a].0 && selection(rr, conns, fid, hop_idx, hop, ip, health, latency)[j]
                == #[trigger] candidate_pool(hop.1, health)[b].0 && conn_count(
                conns,
                candidate_pool(hop.1, health)[a].0,
            ) * eff_weight(candidate_pool(hop.1, health)[b].1) <= conn_count(
                conns,
                candidate_pool(hop.1, health)[b].0,
            ) * eff_weight(candidate_pool(hop.1, health)[a].1),
{
    let pool = candidate_pool(hop.1, health);
    let r = selection(rr, conns, fid, hop_idx, hop, ip, health, latency);
    crate::assoc::lemma_retain_props(hop.1, usable_pred(health));
    lemma_strategy_literals();
    let keys = least_conn_keys(pool, conns);
    let ids = pool_ids(pool);
    assert(pool.len() != 1);
    assert(r == ranked_ids(keys, ids));
    crate::rank::lemma_ranked_ids_members(keys, ids);
    crate::rank::lemma_ranked_keys_ascending(keys, ids, i, j);
    let a = crate::rank::ranked(keys, ids)[i] as int;
    let b = crate::rank::ranked(keys, ids)[j] as int;
    assert(ids[a] == pool[a].0 && ids[b] == pool[b].0);
    assert(keys[a] == (conn_count(conns, pool[a].0) as int, eff_weight(pool[a].1)));
    assert(keys[b] == (conn_count(conns, pool[b].0) as int, eff_weight(pool[b].1)));
    assert(crate::rank::pos(eff_weight(pool[a].1)) == eff_weight(pool[a].1));
    assert(crate::rank::pos(eff_weight(pool[b].1)) == eff_weight(pool[b].1));
    assert(r[i] == pool[a].0 && r[j] == pool[b].0);
}

/// Source hashing ranks by weighted rendezvous score, highest first: of two
/// candidates for a client, the earlier one's score is no lower.
pub proof fn law_source_hash_descending(
    rr: Seq<((i64, usize), usize)>,
    conns: Seq<(Seq<char>, usize)>,
    fid: i64,
    hop_idx: usize,
    hop: (Seq<char>, Seq<NodeSpec>),
    ip: Seq<u8>,
    health: Seq<(Seq<char>, Seq<char>)>,
    latency: Seq<(Seq<char>, u32)>,
    i: int,
    j: int,
)
    requires
        hop.0 == "source_hash"@,
        hop.1.len() <= usize::MAX,
        0 <= i < j < selection(rr, conns, fid, hop_idx, hop, ip, health, latency).len(),
    ensures
        exists|a: int, b: int|
            0 <= a < candidate_pool(hop.1, health).len() && 0 <= b < candidate_pool(hop.1, health).len()
                && selection(rr, conns, fid, hop_idx, hop, ip, health, latency)[i] == #[trigger] candidate_pool(
                hop.1,
                health,
            )[a].0 && selection(rr, conns, fid, hop_idx, hop, ip, health, latency)[j]
                == #[trigger] candidate_pool(hop.1, health)[b].0 && hrw_score(
                ip,
                candidate_pool(hop.1, health)[a],
            ) >= hrw_score(ip, candidate_pool(hop.1, health)[b]),
{
    let pool = candidate_pool(hop.1, health);
    let r = selection(rr, conns, fid, hop_idx, hop, ip, health, latency);
    crate::assoc::lemma_retain_props(hop.1, usable_pred(health));
    let keys = rendezvous_keys(pool, ip);
    let ids = pool_ids(pool);
    assert(pool.len() != 1);
    assert(r == ranked_ids(keys, ids));
    crate::rank::lemma_ranked_ids_members(keys, ids);
    crate::rank::lemma_ranked_keys_ascending(keys, ids, i, j);
    let a = crate::rank::ranked(keys, ids)[i] as int;
    let b = crate::rank::ranked(keys, ids)[j] as int;
    assert(ids[a] == pool[a].0 && ids[b] == pool[b].0);
    let ka = hrw_top() - hrw_score(ip, pool[a]);
    let kb = hrw_top() - hrw_score(ip, pool[b]);
    assert(keys[a] == (ka, 1int));
    assert(keys[b] == (kb, 1int));
    assert(crate::rank::pos(1) == 1);
    assert(ka * 1 == ka && kb * 1 == kb);
    assert(r[i] == pool[a].0 && r[j] == pool[b].0);
}

/// Releasing a guard undoes the `track` that produced it: every node's
/// connection count is back to what it was.
pub proof fn lemma_release_undoes_track(
    before: Seq<(Seq<char>, usize)>,
    counted: Seq<(Seq<char>, usize)>,
    after: Seq<(Seq<char>, usize)>,
    node: Seq<char>,
)
    requires
        forall|x: Seq<char>| #[trigger] conn_count(counted, x) == conn_count(before, x) + if x == node {
            1nat
        } else {
            0nat
        },
        forall|x: Seq<char>| #[trigger] conn_count(after, x) == if x == node && conn_count(counted, x)
            > 0 {
            (conn_count(counted, x) - 1) as nat
        } else {
            conn_count(counted, x)
        },
    ensures
        forall|x: Seq<char>| #[trigger] conn_count(after, x) == conn_count(before, x),
{
    assert forall|x: Seq<char>| #[trigger] conn_count(after, x) == conn_count(before, x) by {
        assert(conn_count(counted, x) == conn_count(before, x) + if x == node {
            1nat
        } else {
            0nat
        });
    }
}

/// Rendezvous hashing keeps sessions in place: taking out a node other than
/// the primary leaves the client's primary unchanged.
pub proof fn lemma_rendezvous_stable(pool: Seq<NodeSpec>, ip: Seq<u8>, k: int)
    requires
        2 <= pool.len() <= usize::MAX,
        0 <= k < pool.len(),
        pool[k].0 != rendezvous_order(pool, ip)[0],
    ensures
        rendezvous_order(pool.remove(k), ip)[0] == rendezvous_order(pool, ip)[0],
{
    broadcast use vstd::seq_lib::group_to_multiset_ensures;

    let n = pool.len();
    let keys = rendezvous_keys(pool, ip);
    let ids = pool_ids(pool);
    let le = crate::rank::rank_le(keys, ids);
    let ps = crate::rank::positions(n);
    crate::rank::lemma_rank_total(keys, ids);
    ps.lemma_sort_by_ensures(le);
    let s = ps.sort_by(le);
    vstd::seq_lib::to_multiset_len(s);
    vstd::seq_lib::to_multiset_len(ps);
    assert(s.len() == n);
    let m = s[0];
    assert(s.contains(m));
    vstd::seq_lib::to_multiset_contains(ps, m);
    vstd::seq_lib::to_multiset_contains(s, m);
    assert(ps.contains(m));
    assert(m < n);
    assert(ranked_ids(keys, ids)[0] == ids[m as int]);
    assert(m as int != k);
    assert forall|x: usize| x < n implies #[trigger] le(m, x) by {
        assert(ps[x as int] == x);
        assert(ps.contains(x));
        vstd::seq_lib::to_multiset_contains(ps, x);
        vstd::seq_lib::to_multiset_contains(s, x);
        assert(s.contains(x));
        let t = choose|t: int| 0 <= t < s.len() && s[t] == x;
        crate::rank::lemma_sorted_first(s, le, t);
    }
    let pool2 = pool.remove(k);
    let keys2 = rendezvous_keys(pool2, ip);
    let ids2 = pool_ids(pool2);
    assert(keys2 =~= keys.remove(k));
    assert(ids2 =~= ids.remove(k));
    let le2 = crate::rank::rank_le(keys2, ids2);
    let ps2 = crate::rank::positions((n - 1) as nat);
    crate::rank::lemma_rank_total(keys2, ids2);
    ps2.lemma_sort_by_ensures(le2);
    let s2 = ps2.sort_by(le2);
    vstd::seq_lib::to_multiset_len(s2);
    vstd::seq_lib::to_multiset_len(ps2);
    let m2: usize = if (m as int) < k {
        m
    } else {
        (m - 1) as usize
    };
    assert(keys2[m2 as int] == keys[m as int] && ids2[m2 as int] == ids[m as int]);
    assert forall|y: usize| y < n - 1 implies #[trigger] le2(m2, y) by {
        let x: usize = if (y as int) < k {
            y
        } else {
            (y + 1) as usize
        };
        assert(keys2[y as int] == keys[x as int] && ids2[y as int] == ids[x as int]);
        assert(le(m, x));
    }
    assert(s2.len() == n - 1);
    assert(s2.contains(s2[0]));
    vstd::seq_lib::to_multiset_contains(ps2, s2[0]);
    vstd::seq_lib::to_multiset_contains(s2, s2[0]);
    assert(ps2.contains(s2[0]));
    assert(le2(m2, s2[0]));
    assert(ps2[m2 as int] == m2);
    assert(ps2.contains(m2));
    vstd::seq_lib::to_multiset_contains(ps2, m2);
    vstd::seq_lib::to_multiset_contains(s2, m2);
    assert(s2.contains(m2));
    let t2 = choose|t: int| 0 <= t < s2.len() && s2[t] == m2;
    crate::rank::lemma_sorted_first(s2, le2, t2);
    assert(s2[0] == m2);
    assert(ranked_ids(keys2, ids2)[0] == ids2[m2 as int]);
}


// ───────────────────────── weighted round robin over a turn ─────────────────────────

/// How many slots id `x` has in weighted round robin: the clamped weights
/// of its entries in the pool.
pub open spec fn slots(pool: Seq<NodeSpec>, cap: u32, x: Seq<char>) -> nat
    decreases pool.len(),
{
    if pool.len() == 0 {
        0
    } else {
        slots(pool.drop_last(), cap, x) + if pool.last().0 == x {
            clamp_weight(pool.last().1, cap)
        } else {
            0
        }
    }
}

/// The first choices of `n` weighted picks with the counters `c`, `c + 1`, ...
pub open spec fn primaries(pool: Seq<NodeSpec>, cap: u32, c: int, n: nat) -> Seq<Seq<char>> {
    Seq::new(n, |k: int| weighted_order(pool, (c + k) as usize, cap)[0])
}

proof fn lemma_dedup_prefix(out: Seq<Seq<char>>, ids: Seq<Seq<char>>)
    ensures
        dedup_onto(out, ids).len() >= out.len(),
        forall|i: int| 0 <= i < out.len() ==> #[trigger] dedup_onto(out, ids)[i] == out[i],
    decreases ids.len(),
{
    if ids.len() > 0 {
        lemma_dedup_prefix(out, ids.drop_last());
    }
}

proof fn lemma_repeat_count(w: nat, id: Seq<char>, x: Seq<char>)
    ensures
        Seq::new(w, |k: int| id).to_multiset().count(x) == if x == id {
            w
        } else {
            0
        },
    decreases w,
{
    broadcast use vstd::multiset::group_multiset_axioms;

    if w == 0 {
        let z = Seq::new(0, |k: int| id);
        vstd::seq_lib::to_multiset_len(z);
        vstd::multiset::lemma_multiset_empty_len(z.to_multiset());
    } else {
        lemma_repeat_count((w - 1) as nat, id, x);
        assert(Seq::new(w, |k: int| id) =~= Seq::new((w - 1) as nat, |k: int| id).push(id));
        vstd::seq_lib::to_multiset_build(Seq::new((w - 1) as nat, |k: int| id), id);
    }
}

proof fn lemma_expanded_count(pool: Seq<NodeSpec>, cap: u32, x: Seq<char>)
    ensures
        expanded(pool, cap).to_multiset().count(x) == slots(pool, cap, x),
    decreases pool.len(),
{
    broadcast use vstd::multiset::group_multiset_axioms;

    if pool.len() == 0 {
        vstd::seq_lib::to_multiset_len(expanded(pool, cap));
        vstd::multiset::lemma_multiset_empty_len(expanded(pool, cap).to_multiset());
    } else {
        lemma_expanded_count(pool.drop_last(), cap, x);
        let rest = Seq::new(clamp_weight(pool.last().1, cap), |k: int| pool.last().0);
        vstd::seq_lib::lemma_multiset_commutative(expanded(pool.drop_last(), cap), rest);
        lemma_repeat_count(clamp_weight(pool.last().1, cap), pool.last().0, x);
    }
}

proof fn lemma_rotation(e: Seq<Seq<char>>, c: int)
    requires
        e.len() > 0,
        c >= 0,
    ensures
        Seq::new(e.len(), |k: int| e[(c + k) % (e.len() as int)]).to_multiset() == e.to_multiset(),
{
    broadcast use vstd::multiset::group_multiset_axioms;

    let l = e.len() as int;
    let m = c % l;
    let q = c / l;
    vstd::arithmetic::div_mod::lemma_fundamental_div_mod(c, l);
    assert(0 <= m < l);
    let r = Seq::new(e.len(), |k: int| e[(c + k) % l]);
    assert forall|k: int| 0 <= k < l implies #[trigger] r[k] == (e.skip(m) + e.take(m))[k] by {
        if m + k < l {
            assert(c + k == l * q + (m + k));
            vstd::arithmetic::div_mod::lemma_fundamental_div_mod_converse(c + k, l, q, m + k);
        } else {
            assert(c + k == l * (q + 1) + (m + k - l)) by (nonlinear_arith)
                requires
                    c == l * q + m,
            ;
            vstd::arithmetic::div_mod::lemma_fundamental_div_mod_converse(c + k, l, q + 1, m + k - l);
        }
    }
    assert(r =~= e.skip(m) + e.take(m));
    vstd::seq_lib::lemma_multiset_commutative(e.skip(m), e.take(m));
    vstd::seq_lib::lemma_multiset_commutative(e.take(m), e.skip(m));
    assert(e.take(m) + e.skip(m) =~= e);
}

/// Weighted round robin gives each node its weight's share: over one turn
/// of consecutive picks (as many as there are slots, counters not wrapping
/// past `usize::MAX`), a node comes first exactly as often as it has slots.
pub proof fn lemma_weighted_turn(pool: Seq<NodeSpec>, cap: u32, c: usize, x: Seq<char>)
    requires
        expanded(pool, cap).len() > 0,
        c + expanded(pool, cap).len() - 1 <= usize::MAX,
    ensures
        primaries(pool, cap, c as int, expanded(pool, cap).len()).to_multiset().count(x) == slots(pool, cap, x),
{
    let e = expanded(pool, cap);
    let l = e.len() as int;
    let p = primaries(pool, cap, c as int, e.len());
    assert forall|k: int| 0 <= k < l implies #[trigger] p[k] == e[(c + k) % l] by {
        let y = e[(((c + k) as usize) as int) % l];
        lemma_dedup_prefix(seq![y], pool_ids(pool));
        assert(((c + k) as usize) as int == c + k);
    }
    assert(p =~= Seq::new(e.len(), |k: int| e[(c + k) % l]));
    lemma_rotation(e, c as int);
    lemma_expanded_count(pool, cap, x);
}

} // verus!
