//! A node's decisions: which listeners a forward rule needs, what its
//! listener reports after binding, how a new rule set is applied to the
//! running forwards, where a tunnel goes next, and when to renew the
//! certificate.
use vstd::prelude::*;
use crate::control::{is_entry, ForwardRule, ListenerReport, NodeAddr};
use crate::dataplane::{effective_targets, effective_targets_of, NodeInfo, TargetRouter, TunnelHeader};
use crate::lb::{NodeSpec, pool_ids};
use crate::model::{Hop, TargetEndpoint};
use crate::net::IpAddress;
use crate::records::or_default;
use crate::rules::{nonempty_text, plus_sep, proto_parts};
use crate::text::{
    split_by,
    chars_of, dec, eq_ignore_case, eq_ignore_case_chars, fmt_u64, is_lit, parse_unsigned, parse_unsigned_chars, push_all, rsplit_once,
    rsplit_once_chars, split, string_of, trim, trim_chars, views, Sep,
};

verus! {

// ───────────────────────── listeners of a rule ─────────────────────────

/// How an entry listener reaches the targets.
pub enum Route {
    /// Straight to the targets (the entry is also the exit).
    SingleHop,
    /// Through the next hops.
    MultiHop,
}

/// The listeners an entry node runs for a forward rule.
pub struct ForwardPlan {
    pub port: u16,
    pub targets: Vec<TargetEndpoint>,
    pub target_strategy: String,
    pub tcp: Option<Route>,
    pub udp: Option<Route>,
}

/// A protocol text names TCP when it has no protocol at all or lists `tcp`.
pub open spec fn wants_tcp(protocol: Seq<char>) -> bool {
    proto_parts(protocol).len() == 0 || proto_parts(protocol).contains("tcp"@)
}

pub open spec fn wants_udp(protocol: Seq<char>) -> bool {
    proto_parts(protocol).contains("udp"@)
}

/// Some `+`-separated piece of `protocol`, trimmed, is `name`.
pub open spec fn names_part(protocol: Seq<char>, name: Seq<char>) -> bool {
    exists|i: int|
        0 <= i < split_by(protocol, plus_sep()).len() && trim(#[trigger] split_by(protocol, plus_sep())[i])
            == name
}

proof fn lemma_filter_within<A>(s: Seq<A>, p: spec_fn(A) -> bool, x: A)
    ensures
        s.filter(p).contains(x) ==> s.contains(x),
    decreases s.len(),
{
    reveal(Seq::filter);
    if s.len() > 0 {
        lemma_filter_within(s.drop_last(), p, x);
        if s.filter(p).contains(x) {
            let r = s.drop_last().filter(p);
            if r.contains(x) {
                let k = choose|k: int| 0 <= k < s.drop_last().len() && s.drop_last()[k] == x;
                assert(s[k] == x);
            } else {
                assert(p(s.last()) && s.filter(p) == r.push(s.last()));
                let k = choose|k: int| 0 <= k < s.filter(p).len() && s.filter(p)[k] == x;
                assert(k == r.len());
                assert(s[s.len() - 1] == x);
            }
        }
    }
}

/// The protocol lists a non-empty `name` exactly when one of its
/// `+`-separated pieces, trimmed, is `name`.
pub proof fn lemma_parts_name(protocol: Seq<char>, name: Seq<char>)
    requires
        name.len() > 0,
    ensures
        proto_parts(protocol).contains(name) <==> names_part(protocol, name),
{
    let sp = split_by(protocol, plus_sep());
    let m = sp.map_values(|p: Seq<char>| trim(p));
    lemma_filter_within(m, nonempty_text(), name);
    if proto_parts(protocol).contains(name) {
        let k = choose|k: int| 0 <= k < m.len() && m[k] == name;
        assert(trim(sp[k]) == name);
    }
    if names_part(protocol, name) {
        let i = choose|i: int| 0 <= i < sp.len() && trim(#[trigger] sp[i]) == name;
        assert(m[i] == name);
        m.lemma_filter_contains(nonempty_text(), i);
    }
}

/// A forward runs a UDP listener only when its protocol names `udp` as one
/// of its `+`-separated parts, and a TCP listener when it names `tcp` or no
/// protocol at all: a `tcp` forward has no UDP listener.
pub proof fn law_listener_protocols(protocol: Seq<char>)
    ensures
        wants_udp(protocol) <==> names_part(protocol, "udp"@),
        wants_tcp(protocol) <==> (proto_parts(protocol).len() == 0 || names_part(protocol, "tcp"@)),
        names_part(protocol, "udp"@) || !wants_udp(protocol),
{
    reveal_strlit("udp");
    reveal_strlit("tcp");
    lemma_parts_name(protocol, "udp"@);
    lemma_parts_name(protocol, "tcp"@);
}

pub open spec fn route_of(hops: nat) -> Route {
    if hops == 1 {
        Route::SingleHop
    } else {
        Route::MultiHop
    }
}

fn proto_listed(parts: &Vec<Vec<char>>, p: &str) -> (r: bool)
    ensures
        r == views(parts@).contains(p@),
{
    let mut i: usize = 0;
    while i < parts.len()
        invariant
            i <= parts.len(),
            forall|t: int| 0 <= t < i ==> #[trigger] views(parts@)[t] != p@,
        decreases parts.len() - i,
    {
        if is_lit(parts[i].as_slice(), p) {
            assert(views(parts@)[i as int] == p@);
            return true;
        }
        i += 1;
    }
    false
}

fn protocol_parts(s: &str) -> (r: Vec<Vec<char>>)
    ensures
        views(r@) == proto_parts(s@),
{
    let cs = chars_of(s);
    let pieces = split(cs.as_slice(), &Sep::One('+'));
    assert(Sep::One('+').pred() == crate::rules::plus_sep());
    let ghost pv = views(pieces@);
    let ghost tr = pv.map_values(|p: Seq<char>| trim(p));
    let mut r: Vec<Vec<char>> = Vec::new();
    let mut i: usize = 0;
    while i < pieces.len()
        invariant
            pv == views(pieces@),
            tr == pv.map_values(|p: Seq<char>| trim(p)),
            i <= pieces.len(),
            views(r@) == tr.take(i as int).filter(nonempty_text()),
        decreases pieces.len() - i,
    {
        proof {
            reveal(Seq::filter);
            assert(tr.take(i + 1).drop_last() == tr.take(i as int));
            assert(tr.take(i + 1).last() == trim(pieces@[i as int]@));
        }
        let t = trim_chars(pieces[i].as_slice());
        if t.len() > 0 {
            let ghost prev = views(r@);
            r.push(t);
            assert(views(r@) =~= prev.push(tr[i as int]));
        }
        i += 1;
    }
    assert(tr.take(pieces.len() as int) == tr);
    r
}

pub open spec fn route_view(r: Option<Route>) -> Option<int> {
    match r {
        Some(Route::SingleHop) => Some(1),
        Some(Route::MultiHop) => Some(2),
        None => None,
    }
}

/// The listeners node `node` runs for `rule`: none unless it is an entry
/// node and the rule has a target; TCP when the protocol names TCP (or
/// nothing), UDP when it names UDP; straight to the targets for a one-hop
/// path, else through the next hops.
pub fn plan_forward(rule: &ForwardRule, node: &str) -> (r: Option<ForwardPlan>)
    ensures
        r is Some <==> is_entry(rule.hops.deep_view(), node@) && effective_targets_of(
            rule.targets.deep_view(),
            rule.target@,
        ).len() > 0,
        r matches Some(p) ==> {
            &&& p.port == rule.listen_port as u16
            &&& p.targets.deep_view() == effective_targets_of(rule.targets.deep_view(), rule.target@)
            &&& p.target_strategy@ == or_default(rule.target_strategy@, "weighted"@)
            &&& route_view(p.tcp) == if wants_tcp(rule.protocol@) {
                Some(if rule.hops@.len() == 1 {
                    1int
                } else {
                    2int
                })
            } else {
                None
            }
            &&& route_view(p.udp) == if wants_udp(rule.protocol@) {
                Some(if rule.hops@.len() == 1 {
                    1int
                } else {
                    2int
                })
            } else {
                None
            }
            &&& (p.udp is Some <==> names_part(rule.protocol@, "udp"@))
            &&& (p.tcp is Some <==> (proto_parts(rule.protocol@).len() == 0 || names_part(
                rule.protocol@,
                "tcp"@,
            )))
        },
{
    let key = String::from_str(node);
    if !entry_node(&rule.hops, &key) {
        return None;
    }
    let header_like = TunnelHeader {
        remaining_hops: Vec::new(),
        target: rule.target.clone(),
        client_ip: String::new(),
        forward_id: rule.id,
        hop_index: 0,
        targets: crate::model::copy_targets(&rule.targets),
        target_strategy: String::new(),
        udp_src_addr: String::new(),
        link_encryption: String::new(),
    };
    let targets = effective_targets(&header_like);
    if targets.len() == 0 {
        return None;
    }
    let strategy = if rule.target_strategy.as_str().unicode_len() == 0 {
        String::from_str("weighted")
    } else {
        rule.target_strategy.clone()
    };
    let parts = protocol_parts(rule.protocol.as_str());
    let has_tcp = parts.len() == 0 || proto_listed(&parts, "tcp");
    let has_udp = proto_listed(&parts, "udp");
    proof {
        reveal_strlit("udp");
        reveal_strlit("tcp");
        lemma_parts_name(rule.protocol@, "udp"@);
        lemma_parts_name(rule.protocol@, "tcp"@);
    }
    let single = rule.hops.len() == 1;
    let tcp = if has_tcp {
        if single {
            Some(Route::SingleHop)
        } else {
            Some(Route::MultiHop)
        }
    } else {
        None
    };
    let udp = if has_udp {
        if single {
            Some(Route::SingleHop)
        } else {
            Some(Route::MultiHop)
        }
    } else {
        None
    };
    Some(
        ForwardPlan {
            port: rule.listen_port as u16,
            targets,
            target_strategy: strategy,
            tcp,
            udp,
        },
    )
}

fn entry_node(hops: &Vec<Hop>, node: &String) -> (r: bool)
    ensures
        r == is_entry(hops.deep_view(), node@),
{
    if hops.len() == 0 {
        return false;
    }
    let ns = &hops[0].nodes;
    let ghost s = ns.deep_view();
    let mut i: usize = 0;
    while i < ns.len()
        invariant
            s == ns.deep_view(),
            hops.len() > 0,
            s == hops.deep_view()[0].1,
            i <= ns.len(),
            forall|k: int| 0 <= k < i ==> #[trigger] pool_ids(s)[k] != node@,
        decreases ns.len() - i,
    {
        if ns[i].id == *node {
            assert(pool_ids(s)[i as int] == node@);
            assert(pool_ids(s).contains(node@));
            return true;
        }
        i += 1;
    }
    false
}

/// A forward's listener state after its listeners tried to bind: fine when
/// every bind succeeded, else the first error.
pub fn bind_status(forward_id: i64, port: u16, protocol: &String, results: &Vec<Result<(), String>>) -> (r:
    ListenerReport)
    ensures
        r.forward_id == forward_id,
        r.port == port as u32,
        r.protocol@ == protocol@,
        r.ok == forall|k: int| 0 <= k < results@.len() ==> (#[trigger] results@[k]) is Ok,
        r.ok ==> r.error@.len() == 0,
        !r.ok ==> exists|k: int|
            0 <= k < results@.len() && (#[trigger] results@[k]) is Err && results@[k]->Err_0@ == r.error@
                && (forall|q: int| 0 <= q < k ==> (#[trigger] results@[q]) is Ok),
{
    let mut i: usize = 0;
    while i < results.len()
        invariant
            i <= results.len(),
            forall|q: int| 0 <= q < i ==> (#[trigger] results@[q]) is Ok,
        decreases results.len() - i,
    {
        match &results[i] {
            Ok(()) => {},
            Err(e) => {
                return ListenerReport {
                    forward_id,
                    ok: false,
                    error: e.clone(),
                    port: port as u32,
                    protocol: protocol.clone(),
                };
            },
        }
        i += 1;
    }
    ListenerReport { forward_id, ok: true, error: String::new(), port: port as u32, protocol: protocol.clone() }
}

// ───────────────────────── applying a new rule set ─────────────────────────

/// The running forwards whose ids are gone from the new rule set.
pub fn vanished(active: &Vec<i64>, new_rules: &Vec<ForwardRule>) -> (r: Vec<i64>)
    ensures
        forall|x: i64| r@.contains(x) <==> active@.contains(x) && !exists|k: int|
            0 <= k < new_rules@.len() && (#[trigger] new_rules@[k]).id == x,
{
    let mut r: Vec<i64> = Vec::new();
    let mut i: usize = 0;
    while i < active.len()
        invariant
            i <= active.len(),
            forall|x: i64| r@.contains(x) <==> active@.take(i as int).contains(x) && !exists|k: int|
                0 <= k < new_rules@.len() && (#[trigger] new_rules@[k]).id == x,
        decreases active.len() - i,
    {
        let id = active[i];
        let mut found = false;
        let mut j: usize = 0;
        while j < new_rules.len()
            invariant
                j <= new_rules.len(),
                found == exists|k: int| 0 <= k < j && (#[trigger] new_rules@[k]).id == id,
            decreases new_rules.len() - j,
        {
            if new_rules[j].id == id {
                found = true;
            }
            j += 1;
        }
        let ghost prev = r@;
        if !found {
            r.push(id);
        }
        proof {
            assert(active@.take(i + 1) == active@.take(i as int).push(id));
            assert forall|x: i64| r@.contains(x) <==> active@.take(i + 1).contains(x) && !exists|k: int|
                0 <= k < new_rules@.len() && (#[trigger] new_rules@[k]).id == x by {
                if r@.contains(x) && !prev.contains(x) {
                    let t = choose|t: int| 0 <= t < r@.len() && r@[t] == x;
                    assert(t == prev.len());
                }
                if prev.contains(x) {
                    let t = choose|t: int| 0 <= t < prev.len() && prev[t] == x;
                    assert(r@[t] == x);
                }
                if active@.take(i + 1).contains(x) && !active@.take(i as int).contains(x) {
                    let t = choose|t: int| 0 <= t < i + 1 && #[trigger] active@.take(i + 1)[t] == x;
                    if t < i {
                        assert(active@.take(i as int)[t] == x);
                    }
                    assert(x == id);
                }
                if active@.take(i as int).contains(x) {
                    let t = choose|t: int| 0 <= t < i && #[trigger] active@.take(i as int)[t] == x;
                    assert(active@.take(i + 1)[t] == x);
                }
                if !found && x == id {
                    assert(r@[prev.len() as int] == x);
                }
                if x == id {
                    assert(active@.take(i + 1)[i as int] == id);
                }
            }
        }
        i += 1;
    }
    assert(active@.take(active.len() as int) == active@);
    r
}

/// What to do with one rule of the new set.
pub enum Step {
    /// Not an entry node of it: stop it if it runs.
    Stop,
    /// Unchanged and running fine: leave it.
    Keep,
    /// Start it, after stopping the old listeners if there are any.
    Start,
}

pub open spec fn rule_view(r: ForwardRule) -> (i64, u32, Seq<char>, Seq<(Seq<char>, Seq<NodeSpec>)>, Seq<char>, bool, Seq<NodeSpec>, Seq<char>, u64, u64) {
    (
        r.id,
        r.listen_port,
        r.protocol@,
        r.hops.deep_view(),
        r.target@,
        r.enabled,
        r.targets.deep_view(),
        r.target_strategy@,
        r.rate_in_bps,
        r.rate_out_bps,
    )
}

fn strings_equal(a: &String, b: &String) -> (r: bool)
    ensures
        r == (a@ == b@),
{
    *a == *b
}

fn nodes_equal(a: &Vec<crate::model::HopNode>, b: &Vec<crate::model::HopNode>) -> (r: bool)
    ensures
        r == (a.deep_view() == b.deep_view()),
{
    if a.len() != b.len() {
        assert(a.deep_view().len() != b.deep_view().len());
        return false;
    }
    let mut i: usize = 0;
    while i < a.len()
        invariant
            a.len() == b.len(),
            i <= a.len(),
            forall|k: int| 0 <= k < i ==> a.deep_view()[k] == b.deep_view()[k],
        decreases a.len() - i,
    {
        if !(a[i].id == b[i].id) || a[i].weight != b[i].weight {
            assert(a.deep_view()[i as int] != b.deep_view()[i as int]);
            return false;
        }
        i += 1;
    }
    assert(a.deep_view() =~= b.deep_view());
    true
}

fn hops_equal(a: &Vec<Hop>, b: &Vec<Hop>) -> (r: bool)
    ensures
        r == (a.deep_view() == b.deep_view()),
{
    if a.len() != b.len() {
        assert(a.deep_view().len() != b.deep_view().len());
        return false;
    }
    let mut i: usize = 0;
    while i < a.len()
        invariant
            a.len() == b.len(),
            i <= a.len(),
            forall|k: int| 0 <= k < i ==> a.deep_view()[k] == b.deep_view()[k],
        decreases a.len() - i,
    {
        if !strings_equal(&a[i].strategy, &b[i].strategy) || !nodes_equal(&a[i].nodes, &b[i].nodes) {
            assert(a.deep_view()[i as int] != b.deep_view()[i as int]);
            return false;
        }
        i += 1;
    }
    assert(a.deep_view() =~= b.deep_view());
    true
}

fn targets_equal(a: &Vec<TargetEndpoint>, b: &Vec<TargetEndpoint>) -> (r: bool)
    ensures
        r == (a.deep_view() == b.deep_view()),
{
    if a.len() != b.len() {
        assert(a.deep_view().len() != b.deep_view().len());
        return false;
    }
    let mut i: usize = 0;
    while i < a.len()
        invariant
            a.len() == b.len(),
            i <= a.len(),
            forall|k: int| 0 <= k < i ==> a.deep_view()[k] == b.deep_view()[k],
        decreases a.len() - i,
    {
        if !(a[i].addr == b[i].addr) || a[i].weight != b[i].weight {
            assert(a.deep_view()[i as int] != b.deep_view()[i as int]);
            return false;
        }
        i += 1;
    }
    assert(a.deep_view() =~= b.deep_view());
    true
}

/// Whether two rules are the same in every field.
pub fn rules_equal(a: &ForwardRule, b: &ForwardRule) -> (r: bool)
    ensures
        r == (rule_view(*a) == rule_view(*b)),
        r <==> (a.id == b.id && a.listen_port == b.listen_port && a.protocol@ == b.protocol@
            && a.hops.deep_view() == b.hops.deep_view() && a.target@ == b.target@ && a.enabled == b.enabled
            && a.targets.deep_view() == b.targets.deep_view() && a.target_strategy@ == b.target_strategy@
            && a.rate_in_bps == b.rate_in_bps && a.rate_out_bps == b.rate_out_bps),
{
    a.id == b.id && a.listen_port == b.listen_port && strings_equal(&a.protocol, &b.protocol)
        && hops_equal(&a.hops, &b.hops) && strings_equal(&a.target, &b.target) && a.enabled
        == b.enabled && targets_equal(&a.targets, &b.targets) && strings_equal(
        &a.target_strategy,
        &b.target_strategy,
    ) && a.rate_in_bps == b.rate_in_bps && a.rate_out_bps == b.rate_out_bps
}

/// Two rules are the same rule exactly when every field agrees: id, port,
/// protocol, path, target, enabled flag, targets, strategy and both rates;
/// rules that differ in any of them (their targets, say) are not the same.
pub proof fn law_same_rule_fields(a: ForwardRule, b: ForwardRule)
    ensures
        rule_view(a) == rule_view(b) <==> (a.id == b.id && a.listen_port == b.listen_port && a.protocol@ == b.protocol@
        && a.hops.deep_view() == b.hops.deep_view() && a.target@ == b.target@ && a.enabled == b.enabled
        && a.targets.deep_view() == b.targets.deep_view() && a.target_strategy@ == b.target_strategy@
        && a.rate_in_bps == b.rate_in_bps && a.rate_out_bps == b.rate_out_bps),
        a.targets.deep_view() != b.targets.deep_view() ==> rule_view(a) != rule_view(b),
{
}

pub open spec fn step_view(s: Step) -> int {
    match s {
        Step::Stop => 0,
        Step::Keep => 1,
        Step::Start => 2,
    }
}

/// The step for rule `new_rule` given what runs under its id (`running`:
/// the rule it was started with and whether its listeners bound).
pub fn decide(new_rule: &ForwardRule, running: Option<(&ForwardRule, bool)>, node: &str) -> (s: Step)
    ensures
        step_view(s) == if !is_entry(new_rule.hops.deep_view(), node@) {
            0int
        } else if running matches Some((old, ok)) && ok && rule_view(*old) == rule_view(*new_rule) {
            1int
        } else {
            2int
        },
        s is Keep ==> (running matches Some((old, ok)) && ok && old.id == new_rule.id && old.listen_port == new_rule.listen_port
                && old.protocol@ == new_rule.protocol@ && old.hops.deep_view() == new_rule.hops.deep_view()
                && old.target@ == new_rule.target@ && old.enabled == new_rule.enabled
                && old.targets.deep_view() == new_rule.targets.deep_view()
                && old.target_strategy@ == new_rule.target_strategy@ && old.rate_in_bps == new_rule.rate_in_bps
                && old.rate_out_bps == new_rule.rate_out_bps),
        is_entry(new_rule.hops.deep_view(), node@) ==> (running matches Some((old, ok)) && ok && old.id == new_rule.id && old.listen_port == new_rule.listen_port
            && old.protocol@ == new_rule.protocol@ && old.hops.deep_view() == new_rule.hops.deep_view()
            && old.target@ == new_rule.target@ && old.enabled == new_rule.enabled
            && old.targets.deep_view() == new_rule.targets.deep_view()
            && old.target_strategy@ == new_rule.target_strategy@ && old.rate_in_bps == new_rule.rate_in_bps
            && old.rate_out_bps == new_rule.rate_out_bps ==> s is Keep),
{
    let key = String::from_str(node);
    if !entry_node(&new_rule.hops, &key) {
        return Step::Stop;
    }
    match running {
        Some((old, ok)) => {
            if ok && rules_equal(old, new_rule) {
                Step::Keep
            } else {
                Step::Start
            }
        },
        None => Step::Start,
    }
}

/// The node table from the master's node list (a later entry for an id
/// overrides an earlier one when read).
pub fn build_nodes(ns: &Vec<NodeAddr>) -> (r: Vec<(String, NodeInfo)>)
    ensures
        r@.len() == ns@.len(),
        forall|k: int| 0 <= k < ns@.len() ==> {
            &&& (#[trigger] r@[k]).0@ == ns@[k].id@
            &&& r@[k].1.addr@ == ns@[k].addr@
            &&& r@[k].1.health@ == ns@[k].health@
            &&& r@[k].1.latency_ms == ns@[k].latency_ms
        },
{
    let mut r: Vec<(String, NodeInfo)> = Vec::new();
    let mut i: usize = 0;
    while i < ns.len()
        invariant
            i <= ns.len(),
            r@.len() == i,
            forall|k: int| 0 <= k < i ==> {
                &&& (#[trigger] r@[k]).0@ == ns@[k].id@
                &&& r@[k].1.addr@ == ns@[k].addr@
                &&& r@[k].1.health@ == ns@[k].health@
                &&& r@[k].1.latency_ms == ns@[k].latency_ms
            },
        decreases ns.len() - i,
    {
        let n = &ns[i];
        r.push(
            (
                n.id.clone(),
                NodeInfo { addr: n.addr.clone(), health: n.health.clone(), latency_ms: n.latency_ms },
            ),
        );
        i += 1;
    }
    r
}

// ───────────────────────── tunnels ─────────────────────────

/// Where a tunnel goes from this node.
pub enum TunnelRoute {
    /// Exit over TCP: try these target addresses in order.
    ExitTcp(Vec<String>),
    /// Exit over UDP to this target (no failover without connections).
    ExitUdp(String),
    /// Relay to the next hop, passing these targets on.
    Relay(Vec<TargetEndpoint>),
}

pub enum TunnelError {
    /// An exit header without any target.
    NoTargets,
    /// A UDP exit whose targets are all blank.
    NoUsableUdpTarget,
}

/// The route of a tunnel with header `h` for a client at `client_ip`: an
/// exit when no hop remains (TCP tries the targets in the router's order,
/// UDP takes the first), else a relay that keeps the targets.
pub fn tunnel_route(router: &mut TargetRouter, h: &TunnelHeader, client_ip: &IpAddress) -> (r: Result<
    TunnelRoute,
    TunnelError,
>)
    requires
        old(router).wf(),
    ensures
        final(router).wf(),
        h.remaining_hops@.len() > 0 ==> (r matches Ok(TunnelRoute::Relay(ts)) && ts.deep_view()
            == effective_targets_of(h.targets.deep_view(), h.target@)),
        h.remaining_hops@.len() == 0 && effective_targets_of(h.targets.deep_view(), h.target@).len()
            == 0 ==> r matches Err(TunnelError::NoTargets),
        h.remaining_hops@.len() == 0 && effective_targets_of(h.targets.deep_view(), h.target@).len()
            > 0 ==> {
            let order = crate::dataplane::target_order(
                effective_targets_of(h.targets.deep_view(), h.target@),
                h.target_strategy@,
                client_ip.octets_spec(),
                crate::dataplane::fid_counter(old(router).counters(), h.forward_id),
            );
            if h.udp_src_addr@.len() == 0 {
                (r matches Ok(TunnelRoute::ExitTcp(v)) && v.deep_view() == order)
            } else if order.len() > 0 {
                (r matches Ok(TunnelRoute::ExitUdp(t)) && t@ == order[0])
            } else {
                r matches Err(TunnelError::NoUsableUdpTarget)
            }
        },
{
    let targets = effective_targets(h);
    if h.remaining_hops.len() > 0 {
        return Ok(TunnelRoute::Relay(targets));
    }
    if targets.len() == 0 {
        return Err(TunnelError::NoTargets);
    }
    let ordered = router.order(&targets, h.target_strategy.as_str(), client_ip, h.forward_id);
    if h.udp_src_addr.as_str().unicode_len() == 0 {
        Ok(TunnelRoute::ExitTcp(ordered))
    } else if ordered.len() > 0 {
        let first = ordered[0].clone();
        Ok(TunnelRoute::ExitUdp(first))
    } else {
        Err(TunnelError::NoUsableUdpTarget)
    }
}

/// How the connect of a reachability probe ended.
pub enum ConnectOutcome {
    /// Connected after `elapsed_ms` milliseconds.
    Connected { elapsed_ms: u64 },
    /// Refused or failed, with the error's text.
    Failed(String),
    /// The deadline passed first.
    TimedOut,
}

/// A node's answer to a reachability probe.
pub struct ProbeReply {
    pub ok: bool,
    pub latency_ms: u64,
    pub error: String,
}

/// The answer to a probe whose connect, bounded by `timeout_ms`, ended as
/// `outcome`: the latency and no error when it connected; else latency 0
/// and the connect error, or `timeout <timeout_ms>ms` when the deadline passed.
pub fn probe_reply(outcome: ConnectOutcome, timeout_ms: u64) -> (r: ProbeReply)
    ensures
        match outcome {
            ConnectOutcome::Connected { elapsed_ms } => r.ok && r.latency_ms == elapsed_ms && r.error@.len() == 0,
            ConnectOutcome::Failed(e) => !r.ok && r.latency_ms == 0 && r.error@ == e@,
            ConnectOutcome::TimedOut => !r.ok && r.latency_ms == 0 && r.error@ == "timeout "@ + dec(
                timeout_ms as nat,
            ) + "ms"@,
        },
{
    match outcome {
        ConnectOutcome::Connected { elapsed_ms } => ProbeReply { ok: true, latency_ms: elapsed_ms, error: String::new() },
        ConnectOutcome::Failed(e) => ProbeReply { ok: false, latency_ms: 0, error: e },
        ConnectOutcome::TimedOut => {
            let mut t = chars_of("timeout ");
            let n = fmt_u64(timeout_ms);
            push_all(&mut t, n.as_slice());
            let ms = chars_of("ms");
            push_all(&mut t, ms.as_slice());
            ProbeReply { ok: false, latency_ms: 0, error: string_of(t.as_slice()) }
        },
    }
}

/// How long a reachability probe waits: 2 s when unset, at most 10 s.
pub fn probe_timeout_ms(requested: u32) -> (r: u64)
    ensures
        r == if requested == 0 {
            2000
        } else if requested > 10_000 {
            10_000
        } else {
            requested as u64
        },
{
    if requested == 0 {
        2000
    } else if requested > 10_000 {
        10_000
    } else {
        requested as u64
    }
}

/// A UDP session idle since `last_seen` is dropped at `now` after 60 s.
pub fn udp_idle(last_seen: i64, now: i64) -> (r: bool)
    ensures
        r == (last_seen < now - 60_000),
{
    (last_seen as i128) < (now as i128) - 60_000
}

// ───────────────────────── addresses ─────────────────────────

/// `host:port` of the endpoint `k` ports above the gRPC endpoint `addr`;
/// `None` when `addr` has no port or the new port would pass 65535.
pub open spec fn shifted_addr(addr: Seq<char>, k: nat) -> Option<Seq<char>> {
    match rsplit_once(addr, ':') {
        Some((host, port)) => match parse_unsigned(port, 65535) {
            Some(p) => if p + k <= 65535 {
                Some(host + seq![':'] + dec((p + k) as nat))
            } else {
                None
            },
            None => None,
        },
        None => None,
    }
}

/// The QUIC endpoint beside a gRPC endpoint: port + 2.
pub open spec fn quic_addr_of(addr: Seq<char>) -> Option<Seq<char>> {
    shifted_addr(addr, 2)
}

fn shift_port(addr: &str, k: u64) -> (r: Option<String>)
    requires
        k <= 3,
    ensures
        r matches Some(s) ==> shifted_addr(addr@, k as nat) == Some(s@),
        r is None ==> shifted_addr(addr@, k as nat) is None,
{
    let cs = chars_of(addr);
    let (host, port_s) = match rsplit_once_chars(cs.as_slice(), ':') {
        Some(p) => p,
        None => return None,
    };
    let port = match parse_unsigned_chars(port_s.as_slice(), 65535) {
        Some(p) => p,
        None => return None,
    };
    if port + k > 65535 {
        return None;
    }
    let mut out = host;
    out.push(':');
    let d = fmt_u64(port + k);
    push_all(&mut out, d.as_slice());
    Some(string_of(out.as_slice()))
}

/// `"host:7444"` to `"host:7446"`, the QUIC endpoint of a node.
pub fn grpc_to_quic_addr(addr: &str) -> (r: Option<String>)
    ensures
        r matches Some(s) ==> quic_addr_of(addr@) == Some(s@),
        r is None ==> quic_addr_of(addr@) is None,
{
    shift_port(addr, 2)
}

/// `"host:7444"` to `"host:7445"`, the TLS raw-tunnel endpoint of a node.
pub fn grpc_to_raw_addr(addr: &str) -> (r: Option<String>)
    ensures
        r matches Some(s) ==> shifted_addr(addr@, 1) == Some(s@),
        r is None ==> shifted_addr(addr@, 1) is None,
{
    shift_port(addr, 1)
}

/// `"host:7444"` to `"host:7447"`, the plain raw-tunnel endpoint of a node.
pub fn grpc_to_raw_plain_addr(addr: &str) -> (r: Option<String>)
    ensures
        r matches Some(s) ==> shifted_addr(addr@, 3) == Some(s@),
        r is None ==> shifted_addr(addr@, 3) is None,
{
    shift_port(addr, 3)
}

/// Whether a link's encryption setting asks for the plain tunnel
/// (`"plain"` in any case); anything else means TLS.
pub fn is_plain(s: &str) -> (r: bool)
    ensures
        r == eq_ignore_case(s@, "plain"@),
{
    let cs = chars_of(s);
    let p = chars_of("plain");
    eq_ignore_case_chars(cs.as_slice(), p.as_slice())
}

// ───────────────────────── certificate renewal ─────────────────────────

/// The UTF-8 encoding of one character.
pub open spec fn utf8_of(c: char) -> Seq<u8> {
    let v = c as u32;
    if v < 0x80 {
        seq![v as u8]
    } else if v < 0x800 {
        seq![(0xc0 + v / 64) as u8, (0x80 + v % 64) as u8]
    } else if v < 0x10000 {
        seq![(0xe0 + v / 4096) as u8, (0x80 + (v / 64) % 64) as u8, (0x80 + v % 64) as u8]
    } else {
        seq![
            (0xf0 + v / 262144) as u8,
            (0x80 + (v / 4096) % 64) as u8,
            (0x80 + (v / 64) % 64) as u8,
            (0x80 + v % 64) as u8,
        ]
    }
}

/// The UTF-8 bytes of a text.
pub open spec fn utf8(s: Seq<char>) -> Seq<u8>
    decreases s.len(),
{
    if s.len() == 0 {
        Seq::empty()
    } else {
        utf8(s.drop_last()) + utf8_of(s.last())
    }
}

/// The wrapping byte sum of a text.
pub open spec fn byte_sum(b: Seq<u8>) -> u64
    decreases b.len(),
{
    if b.len() == 0 {
        0
    } else {
        ((byte_sum(b.drop_last()) as int + b.last() as int) % 0x1_0000_0000_0000_0000) as u64
    }
}

/// Seconds between renewal checks: an hour, moved by up to a minute
/// either way by the node id so that nodes do not all ask at once.
pub open spec fn jitter_of(node_id: Seq<char>) -> u64 {
    let h = byte_sum(utf8(node_id));
    let m = h % 120;
    (3600 + if m >= 60 {
        m - 60
    } else {
        0
    }) as u64
}

proof fn lemma_utf8_push(s: Seq<char>, c: char)
    ensures
        utf8(s.push(c)) == utf8(s) + utf8_of(c),
{
    assert(s.push(c).drop_last() == s);
}

proof fn lemma_byte_sum_concat(a: Seq<u8>, b: Seq<u8>)
    ensures
        byte_sum(a + b) == byte_sum_from(byte_sum(a), b),
    decreases b.len(),
{
    if b.len() == 0 {
        assert(a + b == a);
    } else {
        lemma_byte_sum_concat(a, b.drop_last());
        assert((a + b).drop_last() == a + b.drop_last());
        assert((a + b).last() == b.last());
    }
}

/// Continues a wrapping byte sum from `start` over `b`.
pub open spec fn byte_sum_from(start: u64, b: Seq<u8>) -> u64
    decreases b.len(),
{
    if b.len() == 0 {
        start
    } else {
        ((byte_sum_from(start, b.drop_last()) as int + b.last() as int) % 0x1_0000_0000_0000_0000) as u64
    }
}

fn add_wrap(a: u64, b: u8) -> (r: u64)
    ensures
        r == ((a as int + b as int) % 0x1_0000_0000_0000_0000) as u64,
{
    if a <= u64::MAX - (b as u64) {
        a + b as u64
    } else {
        let r = (b as u64) - (u64::MAX - a) - 1;
        assert(r == (a as int + b as int) % 0x1_0000_0000_0000_0000) by {
            vstd::arithmetic::div_mod::lemma_fundamental_div_mod_converse(
                a as int + b as int,
                0x1_0000_0000_0000_0000,
                1,
                r as int,
            );
        }
        r
    }
}

fn encode_utf8(c: char) -> (r: Vec<u8>)
    ensures
        r@ == utf8_of(c),
{
    let v = c as u32;
    let mut r: Vec<u8> = Vec::new();
    if v < 0x80 {
        r.push(v as u8);
    } else if v < 0x800 {
        r.push((0xc0 + v / 64) as u8);
        r.push((0x80 + v % 64) as u8);
    } else if v < 0x10000 {
        r.push((0xe0 + v / 4096) as u8);
        r.push((0x80 + (v / 64) % 64) as u8);
        r.push((0x80 + v % 64) as u8);
    } else {
        assert(v <= 0x10ffff);
        r.push((0xf0 + v / 262144) as u8);
        r.push((0x80 + (v / 4096) % 64) as u8);
        r.push((0x80 + (v / 64) % 64) as u8);
        r.push((0x80 + v % 64) as u8);
    }
    assert(r@ =~= utf8_of(c));
    r
}

/// The renewal check interval of node `node_id`, in seconds.
pub fn renew_jitter_secs(node_id: &str) -> (r: u64)
    ensures
        r == jitter_of(node_id@),
{
    let cs = chars_of(node_id);
    let mut h: u64 = 0;
    let mut i: usize = 0;
    while i < cs.len()
        invariant
            cs@ == node_id@,
            i <= cs.len(),
            h == byte_sum(utf8(cs@.take(i as int))),
        decreases cs.len() - i,
    {
        let bytes = encode_utf8(cs[i]);
        let ghost h0 = h;
        let mut j: usize = 0;
        while j < bytes.len()
            invariant
                j <= bytes.len(),
                h == byte_sum_from(h0, bytes@.take(j as int)),
            decreases bytes.len() - j,
        {
            assert(bytes@.take(j + 1).drop_last() == bytes@.take(j as int));
            h = add_wrap(h, bytes[j]);
            j += 1;
        }
        proof {
            assert(bytes@.take(bytes.len() as int) == bytes@);
            assert(cs@.take(i + 1) == cs@.take(i as int).push(cs@[i as int]));
            lemma_utf8_push(cs@.take(i as int), cs@[i as int]);
            lemma_byte_sum_concat(utf8(cs@.take(i as int)), utf8_of(cs@[i as int]));
        }
        i += 1;
    }
    assert(cs@.take(cs.len() as int) == cs@);
    let m = h % 120;
    3600 + if m >= 60 {
        m - 60
    } else {
        0
    }
}

/// Whether a certificate valid until `not_after` (ms; 0 when unknown) is
/// due for renewal at `now`: 30 days or fewer left, counted in whole days.
pub fn renew_due(not_after: i64, now: i64) -> (r: bool)
    requires
        now >= 0,
    ensures
        r == (not_after > 0 && crate::calendar::tdiv(not_after - now, 86_400_000) <= 30),
{
    if not_after <= 0 {
        return false;
    }
    let remaining_days = (not_after - now) / (24 * 3600 * 1000);
    remaining_days <= 30
}

} // verus!
