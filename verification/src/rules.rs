//! The master's rules for forwards: what a create or edit request must
//! satisfy, which listen ports collide, which limits a user may set, and
//! when quotas stop and restart a forward.
use vstd::prelude::*;
use crate::calendar::{compute_next_reset_at_ms, next_reset, opt_chars, reset_mode};
use crate::lb::{clamp_weight, holds, pool_ids, NodeSpec};
use crate::model::{
    normalized_hops_of, normalized_targets_of, parse_protocol, protocol_of, ForwardCreate, Hop,
    HopNode, TargetEndpoint,
};
use crate::text::{
    chars_of, dec_signed, fmt_i64, is_lit, lower_chars, push_all, split, split_by, string_of, to_ascii_lower, trim,
    trim_chars, views, Sep,
};

verus! {

pub type HopView = (Seq<char>, Seq<NodeSpec>);

// ───────────────────────── request validation ─────────────────────────

/// Why a forward request is refused.
pub enum ForwardError {
    BadProtocol,
    EmptyHops,
    BadPort,
    NoTargets,
    BlankTarget,
    /// A node appears twice along the path (a loop).
    DuplicateNode(String),
}

/// Error codes in check order, with the repeated node's id for a loop.
pub open spec fn error_view(e: ForwardError) -> (int, Seq<char>) {
    match e {
        ForwardError::BadProtocol => (0, Seq::empty()),
        ForwardError::EmptyHops => (1, Seq::empty()),
        ForwardError::BadPort => (2, Seq::empty()),
        ForwardError::NoTargets => (3, Seq::empty()),
        ForwardError::BlankTarget => (4, Seq::empty()),
        ForwardError::DuplicateNode(id) => (5, id@),
    }
}

impl ForwardError {
    /// The text the API answers with.
    pub fn message(&self) -> (r: String)
        ensures
            match self {
                ForwardError::BadProtocol => r@ == "protocol 必须为 tcp / udp / tcp+udp 之一"@,
                ForwardError::EmptyHops => r@ == "hops 不能为空，且每跳至少一个节点"@,
                ForwardError::BadPort => r@ == "listen_port 必须在 1-65535"@,
                ForwardError::NoTargets => r@ == "至少需要 1 个目标地址"@,
                ForwardError::BlankTarget => r@ == "目标地址不能为空"@,
                ForwardError::DuplicateNode(id) => r@ == "节点 "@ + id@ + " 在路径中重复（循环路径）"@,
            },
    {
        match self {
            ForwardError::BadProtocol => String::from_str("protocol 必须为 tcp / udp / tcp+udp 之一"),
            ForwardError::EmptyHops => String::from_str("hops 不能为空，且每跳至少一个节点"),
            ForwardError::BadPort => String::from_str("listen_port 必须在 1-65535"),
            ForwardError::NoTargets => String::from_str("至少需要 1 个目标地址"),
            ForwardError::BlankTarget => String::from_str("目标地址不能为空"),
            ForwardError::DuplicateNode(id) => {
                let mut v = chars_of("节点 ");
                push_all(&mut v, chars_of(id.as_str()).as_slice());
                push_all(&mut v, chars_of(" 在路径中重复（循环路径）").as_slice());
                assert(v@ =~= "节点 "@ + id@ + " 在路径中重复（循环路径）"@);
                string_of(v.as_slice())
            },
        }
    }
}

/// The node ids along a path, hop by hop.
pub open spec fn all_ids(hops: Seq<HopView>) -> Seq<Seq<char>>
    decreases hops.len(),
{
    if hops.len() == 0 {
        Seq::empty()
    } else {
        all_ids(hops.drop_last()) + pool_ids(hops.last().1)
    }
}

/// Position `j` repeats an earlier id.
pub open spec fn dup_at(ids: Seq<Seq<char>>, j: int) -> bool {
    0 <= j < ids.len() && exists|i: int| 0 <= i < j && ids[i] == ids[j]
}

/// Position `j` is the first repeat.
pub open spec fn first_dup(ids: Seq<Seq<char>>, j: int) -> bool {
    dup_at(ids, j) && forall|k: int| 0 <= k < j ==> !#[trigger] dup_at(ids, k)
}

/// Why a request is refused, in the order the checks run; `None` when it is
/// accepted.
pub open spec fn validation_error(f: ForwardCreate) -> Option<(int, Seq<char>)> {
    let hops = normalized_hops_of(f);
    let targets = normalized_targets_of(f);
    let ids = all_ids(hops);
    if protocol_of(f.protocol@) is None {
        Some((0, Seq::empty()))
    } else if hops.len() == 0 || exists|i: int| 0 <= i < hops.len() && (#[trigger] hops[i]).1.len() == 0 {
        Some((1, Seq::empty()))
    } else if f.listen_port < 1 || f.listen_port > 65535 {
        Some((2, Seq::empty()))
    } else if targets.len() == 0 {
        Some((3, Seq::empty()))
    } else if exists|i: int| 0 <= i < targets.len() && trim((#[trigger] targets[i]).0).len() == 0 {
        Some((4, Seq::empty()))
    } else if exists|j: int| dup_at(ids, j) {
        Some((5, ids[choose|j: int| first_dup(ids, j)]))
    } else {
        None
    }
}

/// A weight clamped to `1..=1000`.
pub open spec fn clamp1000(w: u32) -> u32 {
    clamp_weight(w, 1000) as u32
}

pub open spec fn clamp_nodes(ns: Seq<NodeSpec>) -> Seq<NodeSpec> {
    ns.map_values(|n: NodeSpec| (n.0, clamp1000(n.1)))
}

pub open spec fn clamp_hops(hs: Seq<HopView>) -> Seq<HopView> {
    hs.map_values(|h: HopView| (h.0, clamp_nodes(h.1)))
}

/// An accepted request: canonical protocol, hops and targets with weights
/// clamped to `1..=1000`.
pub struct ValidForward {
    pub protocol: String,
    pub hops: Vec<Hop>,
    pub targets: Vec<TargetEndpoint>,
}

fn clamp_w(w: u32) -> (r: u32)
    ensures
        r == clamp1000(w),
{
    if w < 1 {
        1
    } else if w > 1000 {
        1000
    } else {
        w
    }
}

fn clamp_node_list(ns: &Vec<HopNode>) -> (r: Vec<HopNode>)
    ensures
        r.deep_view() == clamp_nodes(ns.deep_view()),
{
    let ghost s = ns.deep_view();
    let mut r: Vec<HopNode> = Vec::new();
    let mut i: usize = 0;
    while i < ns.len()
        invariant
            s == ns.deep_view(),
            i <= ns.len(),
            r.deep_view() =~= clamp_nodes(s.take(i as int)),
        decreases ns.len() - i,
    {
        let ghost prev = r.deep_view();
        r.push(HopNode { id: ns[i].id.clone(), weight: clamp_w(ns[i].weight) });
        assert(r.deep_view() =~= prev.push((s[i as int].0, clamp1000(s[i as int].1))));
        i += 1;
    }
    assert(s.take(ns.len() as int) =~= s);
    r
}

fn clamp_hop_list(hs: &Vec<Hop>) -> (r: Vec<Hop>)
    ensures
        r.deep_view() == clamp_hops(hs.deep_view()),
{
    let ghost s = hs.deep_view();
    let mut r: Vec<Hop> = Vec::new();
    let mut i: usize = 0;
    while i < hs.len()
        invariant
            s == hs.deep_view(),
            i <= hs.len(),
            r.deep_view() =~= clamp_hops(s.take(i as int)),
        decreases hs.len() - i,
    {
        let ghost prev = r.deep_view();
        let h = Hop { strategy: hs[i].strategy.clone(), nodes: clamp_node_list(&hs[i].nodes) };
        r.push(h);
        assert(r.deep_view() =~= prev.push((s[i as int].0, clamp_nodes(s[i as int].1))));
        i += 1;
    }
    assert(s.take(hs.len() as int) =~= s);
    r
}

fn clamp_target_list(ts: &Vec<TargetEndpoint>) -> (r: Vec<TargetEndpoint>)
    ensures
        r.deep_view() == clamp_nodes(ts.deep_view()),
{
    let ghost s = ts.deep_view();
    let mut r: Vec<TargetEndpoint> = Vec::new();
    let mut i: usize = 0;
    while i < ts.len()
        invariant
            s == ts.deep_view(),
            i <= ts.len(),
            r.deep_view() =~= clamp_nodes(s.take(i as int)),
        decreases ts.len() - i,
    {
        let ghost prev = r.deep_view();
        r.push(TargetEndpoint { addr: ts[i].addr.clone(), weight: clamp_w(ts[i].weight) });
        assert(r.deep_view() =~= prev.push((s[i as int].0, clamp1000(s[i as int].1))));
        i += 1;
    }
    assert(s.take(ts.len() as int) =~= s);
    r
}

proof fn lemma_first_dup_unique(ids: Seq<Seq<char>>, a: int, b: int)
    requires
        first_dup(ids, a),
        first_dup(ids, b),
    ensures
        a == b,
{
    if a < b {
        assert(!dup_at(ids, a));
    } else if b < a {
        assert(!dup_at(ids, b));
    }
}

/// The first node id that repeats along `hops`, if any.
fn find_loop(hops: &Vec<Hop>) -> (r: Option<String>)
    ensures
        r matches Some(id) ==> exists|j: int| first_dup(all_ids(hops.deep_view()), j) && all_ids(
            hops.deep_view(),
        )[j] == id@,
        r is None ==> forall|j: int| !dup_at(all_ids(hops.deep_view()), j),
{
    let ghost hs = hops.deep_view();
    let mut seen: Vec<String> = Vec::new();
    let mut i: usize = 0;
    while i < hops.len()
        invariant
            hs == hops.deep_view(),
            i <= hops.len(),
            seen.deep_view() == all_ids(hs.take(i as int)),
            forall|k: int| 0 <= k < seen.deep_view().len() ==> !#[trigger] dup_at(seen.deep_view(), k),
        decreases hops.len() - i,
    {
        let ghost base = seen.deep_view();
        let ghost ns = hs[i as int].1;
        let mut j: usize = 0;
        while j < hops[i].nodes.len()
            invariant
                hs == hops.deep_view(),
                i < hops.len(),
                ns == hs[i as int].1,
                base == all_ids(hs.take(i as int)),
                j <= ns.len(),
                seen.deep_view() == base + pool_ids(ns).take(j as int),
                forall|k: int| 0 <= k < seen.deep_view().len() ==> !#[trigger] dup_at(seen.deep_view(), k),
            decreases hops[i as int].nodes.len() - j,
        {
            let id = &hops[i].nodes[j];
            assert(id.id@ == ns[j as int].0);
            let ghost ids_now = all_ids(hs);
            proof {
                lemma_all_ids_prefix(hs, i as int, j + 1);
            }
            if holds(&seen, &id.id) {
                proof {
                    let sv = seen.deep_view();
                    let t = choose|t: int| 0 <= t < sv.len() && sv[t] == id.id@;
                    let p = sv.len() as int;
                    assert(ids_now[t] == sv[t]);
                    assert(ids_now[p] == id.id@);
                    assert(dup_at(ids_now, p));
                    assert forall|k: int| 0 <= k < p implies !#[trigger] dup_at(ids_now, k) by {
                        assert(!dup_at(sv, k));
                        if dup_at(ids_now, k) {
                            let q = choose|q: int| 0 <= q < k && ids_now[q] == ids_now[k];
                            assert(sv[q] == sv[k]);
                        }
                    }
                    assert(first_dup(ids_now, p));
                }
                return Some(id.id.clone());
            }
            let ghost prev = seen.deep_view();
            seen.push(id.id.clone());
            proof {
                assert(seen.deep_view() =~= prev.push(ns[j as int].0));
                assert(pool_ids(ns).take(j + 1) =~= pool_ids(ns).take(j as int).push(ns[j as int].0));
                assert forall|k: int| 0 <= k < seen.deep_view().len() implies !#[trigger] dup_at(
                    seen.deep_view(),
                    k,
                ) by {
                    let sv = seen.deep_view();
                    if k < prev.len() {
                        if dup_at(sv, k) {
                            let q = choose|q: int| 0 <= q < k && sv[q] == sv[k];
                            assert(prev[q] == prev[k]);
                            assert(dup_at(prev, k));
                        }
                    } else {
                        if dup_at(sv, k) {
                            let q = choose|q: int| 0 <= q < k && sv[q] == sv[k];
                            assert(prev[q] == id.id@);
                            assert(prev.contains(id.id@));
                        }
                    }
                }
            }
            j += 1;
        }
        proof {
            assert(hs.take(i + 1).drop_last() == hs.take(i as int));
            assert(hs.take(i + 1).last() == hs[i as int]);
            assert(pool_ids(ns).take(ns.len() as int) == pool_ids(ns));
        }
        i += 1;
    }
    assert(hs.take(hops.len() as int) == hs);
    None
}

/// `all_ids(hs)` starts with the ids of the first `i` hops followed by the
/// first `j` ids of hop `i`.
proof fn lemma_all_ids_prefix(hs: Seq<HopView>, i: int, j: int)
    requires
        0 <= i < hs.len(),
        0 <= j <= hs[i].1.len(),
    ensures
        all_ids(hs).len() >= all_ids(hs.take(i)).len() + j,
        forall|k: int| 0 <= k < all_ids(hs.take(i)).len() + j ==> #[trigger] all_ids(hs)[k] == (
        all_ids(hs.take(i)) + pool_ids(hs[i].1))[k],
    decreases hs.len(),
{
    if i == hs.len() - 1 {
        assert(hs.take(i) == hs.drop_last());
    } else {
        lemma_all_ids_prefix(hs.drop_last(), i, j);
        assert(hs.drop_last().take(i) == hs.take(i));
        assert(hs.drop_last()[i] == hs[i]);
    }
}

/// Checks a create/edit request and normalises it.
pub fn validate_forward(f: &ForwardCreate) -> (r: Result<ValidForward, ForwardError>)
    ensures
        r is Ok <==> validation_error(*f) is None,
        r matches Err(e) ==> validation_error(*f) == Some(error_view(e)),
        r matches Ok(v) ==> {
            &&& protocol_of(f.protocol@) == Some(v.protocol@)
            &&& v.hops.deep_view() == clamp_hops(normalized_hops_of(*f))
            &&& v.targets.deep_view() == clamp_nodes(normalized_targets_of(*f))
        },
{
    let protocol = match parse_protocol(f.protocol.as_str()) {
        Some(p) => p,
        None => return Err(ForwardError::BadProtocol),
    };
    let hops = f.normalized_hops();
    let ghost hv = hops.deep_view();
    assert(hv == normalized_hops_of(*f));
    if hops.len() == 0 {
        assert(validation_error(*f) == Some((1int, Seq::<char>::empty())));
        assert(error_view(ForwardError::EmptyHops) == (1int, Seq::<char>::empty()));
        return Err(ForwardError::EmptyHops);
    }
    let mut i: usize = 0;
    while i < hops.len()
        invariant
            hv == hops.deep_view(),
            hv == normalized_hops_of(*f),
            hv.len() > 0,
            protocol_of(f.protocol@) == Some(protocol@),
            i <= hops.len(),
            forall|k: int| 0 <= k < i ==> (#[trigger] hv[k]).1.len() > 0,
        decreases hops.len() - i,
    {
        if hops[i].nodes.len() == 0 {
            assert(normalized_hops_of(*f)[i as int].1.len() == 0);
            assert(validation_error(*f) == Some((1int, Seq::<char>::empty())));
            assert(error_view(ForwardError::EmptyHops) == (1int, Seq::<char>::empty()));
            return Err(ForwardError::EmptyHops);
        }
        i += 1;
    }
    assert(!exists|q: int| 0 <= q < hv.len() && (#[trigger] normalized_hops_of(*f)[q]).1.len() == 0) by {
        assert forall|q: int| 0 <= q < hv.len() implies (#[trigger] normalized_hops_of(*f)[q]).1.len() > 0 by {
            assert(hv[q].1.len() > 0);
        }
    }
    if f.listen_port < 1 || f.listen_port > 65535 {
        return Err(ForwardError::BadPort);
    }
    let targets = f.normalized_targets();
    let ghost tv = targets.deep_view();
    assert(tv == normalized_targets_of(*f));
    if targets.len() == 0 {
        return Err(ForwardError::NoTargets);
    }
    let mut k: usize = 0;
    while k < targets.len()
        invariant
            tv == targets.deep_view(),
            tv == normalized_targets_of(*f),
            tv.len() > 0,
            hv == normalized_hops_of(*f),
            hv.len() > 0,
            protocol_of(f.protocol@) == Some(protocol@),
            !exists|q: int| 0 <= q < hv.len() && (#[trigger] normalized_hops_of(*f)[q]).1.len() == 0,
            1 <= f.listen_port <= 65535,
            k <= targets.len(),
            forall|q: int| 0 <= q < k ==> trim((#[trigger] tv[q]).0).len() > 0,
        decreases targets.len() - k,
    {
        let t = trim_chars(chars_of(targets[k].addr.as_str()).as_slice());
        if t.len() == 0 {
            assert(trim(normalized_targets_of(*f)[k as int].0).len() == 0);
            assert(validation_error(*f) == Some((4int, Seq::<char>::empty())));
            assert(error_view(ForwardError::BlankTarget) == (4int, Seq::<char>::empty()));
            return Err(ForwardError::BlankTarget);
        }
        k += 1;
    }
    assert(!exists|q: int| 0 <= q < tv.len() && trim((#[trigger] normalized_targets_of(*f)[q]).0).len() == 0) by {
        assert forall|q: int| 0 <= q < tv.len() implies trim((#[trigger] normalized_targets_of(*f)[q]).0).len() > 0 by {
            assert(trim(tv[q].0).len() > 0);
        }
    }
    match find_loop(&hops) {
        Some(id) => {
            proof {
                let ids = all_ids(hv);
                let j = choose|j: int| first_dup(ids, j) && ids[j] == id@;
                let c = choose|j: int| first_dup(ids, j);
                lemma_first_dup_unique(ids, j, c);
            }
            return Err(ForwardError::DuplicateNode(id));
        },
        None => {},
    }
    Ok(
        ValidForward {
            protocol,
            hops: clamp_hop_list(&hops),
            targets: clamp_target_list(&targets),
        },
    )
}

/// The node ids of a path's first hop (its entry nodes).
pub fn entry_ids(hops: &Vec<Hop>) -> (r: Vec<String>)
    ensures
        hops.len() == 0 ==> r.deep_view().len() == 0,
        hops.len() > 0 ==> r.deep_view() == pool_ids(hops.deep_view()[0].1),
{
    let mut r: Vec<String> = Vec::new();
    if hops.len() == 0 {
        return r;
    }
    let ns = &hops[0].nodes;
    let ghost s = ns.deep_view();
    assert(s == hops.deep_view()[0].1);
    let mut i: usize = 0;
    while i < ns.len()
        invariant
            s == ns.deep_view(),
            i <= ns.len(),
            r.deep_view() =~= pool_ids(s).take(i as int),
        decreases ns.len() - i,
    {
        let ghost prev = r.deep_view();
        r.push(ns[i].id.clone());
        assert(r.deep_view() =~= prev.push(s[i as int].0));
        i += 1;
    }
    assert(pool_ids(s).take(ns.len() as int) =~= pool_ids(s));
    r
}

// ───────────────────────── limits a user may set ─────────────────────────

/// A limit given as 0 or less counts as none.
pub fn nz_opt(v: Option<i64>) -> (r: Option<i64>)
    ensures
        r == (match v {
            Some(x) => if x > 0 {
                Some(x)
            } else {
                None
            },
            None => None,
        }),
{
    match v {
        Some(x) => if x > 0 {
            Some(x)
        } else {
            None
        },
        None => None,
    }
}

/// `plain` (any case, spaces around) turns link encryption off; anything
/// else, or nothing, keeps `tls`.
pub open spec fn link_encryption_of(v: Option<Seq<char>>) -> Seq<char> {
    match v {
        Some(s) => if to_ascii_lower(trim(s)) == "plain"@ {
            "plain"@
        } else {
            "tls"@
        },
        None => "tls"@,
    }
}

pub fn normalize_link_encryption(v: Option<&str>) -> (r: String)
    ensures
        r@ == link_encryption_of(opt_chars(v)),
{
    match v {
        Some(s) => {
            let t = lower_chars(trim_chars(chars_of(s).as_slice()).as_slice());
            if is_lit(t.as_slice(), "plain") {
                String::from_str("plain")
            } else {
                String::from_str("tls")
            }
        },
        None => String::from_str("tls"),
    }
}

/// `daily` and `monthly` (spaces around allowed) are reset policies;
/// `none`, nothing, a blank or an unknown value mean no reset.
pub open spec fn quota_reset_of(v: Option<Seq<char>>) -> Option<Seq<char>> {
    match v {
        Some(s) => if trim(s) == "daily"@ {
            Some("daily"@)
        } else if trim(s) == "monthly"@ {
            Some("monthly"@)
        } else {
            None
        },
        None => None,
    }
}

pub fn normalize_quota_reset(v: Option<&str>) -> (r: Option<String>)
    ensures
        r matches Some(s) ==> quota_reset_of(opt_chars(v)) == Some(s@),
        r is None ==> quota_reset_of(opt_chars(v)) is None,
{
    match v {
        Some(s) => {
            let t = trim_chars(chars_of(s).as_slice());
            if is_lit(t.as_slice(), "daily") {
                Some(String::from_str("daily"))
            } else if is_lit(t.as_slice(), "monthly") {
                Some(String::from_str("monthly"))
            } else {
                None
            }
        },
        None => None,
    }
}

/// The quota, rate, reset and link settings a forward is stored with.
pub struct Limits {
    pub quota_in_bytes: Option<i64>,
    pub quota_out_bytes: Option<i64>,
    pub rate_in_bps: Option<i64>,
    pub rate_out_bps: Option<i64>,
    pub quota_reset: Option<String>,
    pub quota_reset_at_ms: Option<i64>,
    pub link_encryption: String,
}

pub open spec fn opt_string(o: Option<String>) -> Option<Seq<char>> {
    match o {
        Some(s) => Some(s@),
        None => None,
    }
}

pub open spec fn positive(v: Option<i64>) -> Option<i64> {
    match v {
        Some(x) => if x > 0 {
            Some(x)
        } else {
            None
        },
        None => None,
    }
}

/// The limits an admin sets with request `f` at `now_ms`.
pub fn admin_limits(f: &ForwardCreate, now_ms: i64) -> (l: Limits)
    requires
        next_reset(
            reset_mode(quota_reset_of(opt_string(f.quota_reset))),
            now_ms as int,
        ) matches Some(v) ==> i64::MIN <= v <= i64::MAX,
    ensures
        l.quota_in_bytes == positive(f.quota_in_bytes),
        l.quota_out_bytes == positive(f.quota_out_bytes),
        l.rate_in_bps == positive(f.rate_in_bps),
        l.rate_out_bps == positive(f.rate_out_bps),
        opt_string(l.quota_reset) == quota_reset_of(opt_string(f.quota_reset)),
        l.quota_reset_at_ms matches Some(t) ==> next_reset(
            reset_mode(quota_reset_of(opt_string(f.quota_reset))),
            now_ms as int,
        ) == Some(t as int),
        l.quota_reset_at_ms is None ==> next_reset(
            reset_mode(quota_reset_of(opt_string(f.quota_reset))),
            now_ms as int,
        ) is None,
        l.link_encryption@ == link_encryption_of(opt_string(f.link_encryption)),
{
    let qr = match &f.quota_reset {
        Some(s) => normalize_quota_reset(Some(s.as_str())),
        None => None,
    };
    let at = match &qr {
        Some(s) => compute_next_reset_at_ms(Some(s.as_str()), now_ms),
        None => compute_next_reset_at_ms(None, now_ms),
    };
    let link = match &f.link_encryption {
        Some(s) => normalize_link_encryption(Some(s.as_str())),
        None => normalize_link_encryption(None),
    };
    Limits {
        quota_in_bytes: nz_opt(f.quota_in_bytes),
        quota_out_bytes: nz_opt(f.quota_out_bytes),
        rate_in_bps: nz_opt(f.rate_in_bps),
        rate_out_bps: nz_opt(f.rate_out_bps),
        quota_reset: qr,
        quota_reset_at_ms: at,
        link_encryption: link,
    }
}

/// The limits a customer's new forward gets: none, and `tls`.
pub fn customer_limits() -> (l: Limits)
    ensures
        l.quota_in_bytes is None && l.quota_out_bytes is None,
        l.rate_in_bps is None && l.rate_out_bps is None,
        l.quota_reset is None && l.quota_reset_at_ms is None,
        l.link_encryption@ == "tls"@,
{
    Limits {
        quota_in_bytes: None,
        quota_out_bytes: None,
        rate_in_bps: None,
        rate_out_bps: None,
        quota_reset: None,
        quota_reset_at_ms: None,
        link_encryption: String::from_str("tls"),
    }
}

/// The limits an edit stores: an admin's request sets them; a customer's
/// edit keeps the stored ones, so a customer cannot lift the limits an admin
/// set.
pub fn kept_limits(is_admin: bool, stored: Limits, requested: Limits) -> (r: Limits)
    ensures
        r == (if is_admin { requested } else { stored }),
{
    if is_admin {
        requested
    } else {
        stored
    }
}

/// Whether a user may edit a forward: `Err(404)` when no forward has the id
/// (`owner` is `None`), `Err(403)` when a non-admin edits another user's
/// forward, else `Ok`.
pub fn edit_decision(is_admin: bool, caller: i64, owner: Option<i64>) -> (r: Result<(), u16>)
    ensures
        owner is None ==> r == Err::<(), u16>(404),
        owner matches Some(o) ==> r == (if !is_admin && o != caller {
            Err::<(), u16>(403)
        } else {
            Ok(())
        }),
{
    match owner {
        None => Err(404),
        Some(o) => if !is_admin && o != caller {
            Err(403)
        } else {
            Ok(())
        },
    }
}

// ───────────────────────── quotas ─────────────────────────

/// A running forward whose traffic reached a positive quota in either
/// direction is stopped.
pub open spec fn over_quota(
    bytes_in: i64,
    bytes_out: i64,
    quota_in: Option<i64>,
    quota_out: Option<i64>,
    enabled: i64,
    exhausted: Option<i64>,
) -> bool {
    enabled != 0 && exhausted is None && ((quota_in matches Some(q) && q > 0 && bytes_in >= q) || (
    quota_out matches Some(q) && q > 0 && bytes_out >= q))
}

pub fn quota_exceeded(
    bytes_in: i64,
    bytes_out: i64,
    quota_in: Option<i64>,
    quota_out: Option<i64>,
    enabled: i64,
    exhausted: Option<i64>,
) -> (r: bool)
    ensures
        r == over_quota(bytes_in, bytes_out, quota_in, quota_out, enabled, exhausted),
        (enabled == 0 || exhausted is Some) ==> !r,
        enabled != 0 && exhausted is None && quota_in is Some && quota_in->0 > 0 && bytes_in >= quota_in->0 ==> r,
        enabled != 0 && exhausted is None && quota_out is Some && quota_out->0 > 0 && bytes_out >= quota_out->0
            ==> r,
        r ==> (quota_in is Some && quota_in->0 > 0 && bytes_in >= quota_in->0) || (quota_out is Some
            && quota_out->0 > 0 && bytes_out >= quota_out->0),
{
    if enabled == 0 || exhausted.is_some() {
        return false;
    }
    let over_in = match quota_in {
        Some(q) => q > 0 && bytes_in >= q,
        None => false,
    };
    let over_out = match quota_out {
        Some(q) => q > 0 && bytes_out >= q,
        None => false,
    };
    over_in || over_out
}

/// Each direction's quota counts on its own: a running forward is over
/// quota exactly when its inbound bytes reached a positive inbound quota or
/// its outbound bytes reached a positive outbound quota, whatever the other
/// direction's quota; so the check on both directions is the check on the
/// inbound side alone or the check on the outbound side alone.
pub proof fn law_quota_each_direction(
    bytes_in: i64,
    bytes_out: i64,
    quota_in: Option<i64>,
    quota_out: Option<i64>,
    exhausted: Option<i64>,
)
    ensures
        exhausted is None && quota_out is Some && quota_out->0 > 0 && bytes_out >= quota_out->0
            ==> over_quota(bytes_in, bytes_out, quota_in, quota_out, 1, exhausted),
        exhausted is None && quota_in is Some && quota_in->0 > 0 && bytes_in >= quota_in->0
            ==> over_quota(bytes_in, bytes_out, quota_in, quota_out, 1, exhausted),
        over_quota(bytes_in, bytes_out, quota_in, quota_out, 1, exhausted) == (over_quota(
            bytes_in,
            0,
            quota_in,
            None,
            1,
            exhausted,
        ) || over_quota(0, bytes_out, None, quota_out, 1, exhausted)),
        over_quota(bytes_in, bytes_out, quota_in, quota_out, 1, exhausted) ==> exhausted is None && (
        (quota_in is Some && quota_in->0 > 0 && bytes_in >= quota_in->0) || (quota_out is Some
            && quota_out->0 > 0 && bytes_out >= quota_out->0)),
        !over_quota(bytes_in, bytes_out, quota_in, quota_out, 0, exhausted),
{
}

/// What a due quota reset does: counters to zero, the next reset time
/// (`now_ms` again if the policy has none), and whether the forward comes
/// back (only if the quota had stopped it).
pub fn quota_reset_plan(mode: Option<&str>, exhausted: Option<i64>, now_ms: i64) -> (r: (i64, bool))
    requires
        next_reset(reset_mode(opt_chars(mode)), now_ms as int) matches Some(v) ==> i64::MIN <= v
            <= i64::MAX,
    ensures
        r.0 as int == match next_reset(reset_mode(opt_chars(mode)), now_ms as int) {
            Some(v) => v,
            None => now_ms as int,
        },
        r.1 == exhausted is Some,
{
    let next = match compute_next_reset_at_ms(mode, now_ms) {
        Some(v) => v,
        None => now_ms,
    };
    (next, exhausted.is_some())
}

/// The cut-off for records older than `days` days at `now_ms`; `None` when
/// `days` is 0 or less (keep everything).
pub fn retention_cutoff(now_ms: i64, days: i64) -> (r: Option<i64>)
    requires
        days > 0 ==> i64::MIN <= now_ms - days * 86_400_000 <= i64::MAX,
    ensures
        days <= 0 ==> r is None,
        days > 0 ==> r == Some((now_ms - days * 86_400_000) as i64),
{
    if days > 0 {
        assert((days as i128) * 86_400_000i128 <= 0x7fff_ffff_ffff_ffff * 86_400_000) by (nonlinear_arith)
            requires
                0 < days <= 0x7fff_ffff_ffff_ffff,
        ;
        let c: i128 = (now_ms as i128) - (days as i128) * 86_400_000i128;
        Some(c as i64)
    } else {
        None
    }
}

// ───────────────────────── listen port conflicts ─────────────────────────

/// An enabled forward on the same listen port: id, name, protocol and the
/// ids of its entry nodes.
pub struct PortUser {
    pub id: i64,
    pub name: String,
    pub protocol: String,
    pub entry_nodes: Vec<String>,
}

/// The forward a new one would collide with, and on which nodes and
/// protocols.
pub struct PortConflict {
    pub port: i64,
    pub id: i64,
    pub name: String,
    pub nodes: Vec<String>,
    pub protocols: Vec<String>,
}

pub open spec fn plus_sep() -> spec_fn(char) -> bool {
    |c: char| c == '+'
}

pub open spec fn nonempty_text() -> spec_fn(Seq<char>) -> bool {
    |p: Seq<char>| p.len() > 0
}

/// The `+`-separated protocols of a protocol text, trimmed, blanks left out.
pub open spec fn proto_parts(s: Seq<char>) -> Seq<Seq<char>> {
    split_by(s, plus_sep()).map_values(|p: Seq<char>| trim(p)).filter(nonempty_text())
}

/// The elements of `a` that `b` holds, in `a`'s order, each once.
pub open spec fn common(a: Seq<Seq<char>>, b: Seq<Seq<char>>) -> Seq<Seq<char>>
    decreases a.len(),
{
    if a.len() == 0 {
        Seq::empty()
    } else {
        let p = common(a.drop_last(), b);
        if b.contains(a.last()) && !p.contains(a.last()) {
            p.push(a.last())
        } else {
            p
        }
    }
}

pub open spec fn user_view(u: PortUser) -> (i64, Seq<char>, Seq<char>, Seq<Seq<char>>) {
    (u.id, u.name@, u.protocol@, u.entry_nodes.deep_view())
}

/// Whether a forward with protocols `protos` and entry nodes `entry` would
/// collide with `u`: it is not the forward being edited, and they share a
/// protocol and an entry node.
pub open spec fn collides(
    protos: Seq<Seq<char>>,
    entry: Seq<Seq<char>>,
    exclude: Option<i64>,
    u: (i64, Seq<char>, Seq<char>, Seq<Seq<char>>),
) -> bool {
    exclude != Some(u.0) && common(protos, proto_parts(u.2)).len() > 0 && common(entry, u.3).len() > 0
}

fn proto_parts_exec(s: &str) -> (r: Vec<Vec<char>>)
    ensures
        views(r@) == proto_parts(s@),
{
    let cs = chars_of(s);
    let pieces = split(cs.as_slice(), &Sep::One('+'));
    assert(Sep::One('+').pred() == plus_sep());
    let ghost pv = views(pieces@);
    let ghost tr = pv.map_values(|p: Seq<char>| trim(p));
    let mut r: Vec<Vec<char>> = Vec::new();
    let mut i: usize = 0;
    while i < pieces.len()
        invariant
            pv == views(pieces@),
            tr == pv.map_values(|p: Seq<char>| trim(p)),
            i <= pieces.len(),
            views(r@) == tr.take(i as int).filter(nonempty_text()),
        decreases pieces.len() - i,
    {
        proof {
            reveal(Seq::filter);
            assert(tr.take(i + 1).drop_last() == tr.take(i as int));
            assert(tr.take(i + 1).last() == trim(pieces@[i as int]@));
        }
        let t = trim_chars(pieces[i].as_slice());
        if t.len() > 0 {
            let ghost prev = views(r@);
            r.push(t);
            assert(views(r@) =~= prev.push(tr[i as int]));
        }
        i += 1;
    }
    assert(tr.take(pieces.len() as int) == tr);
    r
}

fn holds_chars(v: &Vec<Vec<char>>, x: &Vec<char>) -> (r: bool)
    ensures
        r == views(v@).contains(x@),
{
    let mut i: usize = 0;
    while i < v.len()
        invariant
            i <= v.len(),
            forall|t: int| 0 <= t < i ==> #[trigger] views(v@)[t] != x@,
        decreases v.len() - i,
    {
        if crate::text::eq_chars(v[i].as_slice(), x.as_slice()) {
            assert(views(v@)[i as int] == x@);
            return true;
        }
        i += 1;
    }
    false
}

fn common_chars(a: &Vec<Vec<char>>, b: &Vec<Vec<char>>) -> (r: Vec<Vec<char>>)
    ensures
        views(r@) == common(views(a@), views(b@)),
{
    let ghost av = views(a@);
    let mut r: Vec<Vec<char>> = Vec::new();
    let mut i: usize = 0;
    while i < a.len()
        invariant
            av == views(a@),
            i <= a.len(),
            views(r@) == common(av.take(i as int), views(b@)),
        decreases a.len() - i,
    {
        assert(av.take(i + 1).drop_last() == av.take(i as int));
        assert(av.take(i + 1).last() == a@[i as int]@);
        if holds_chars(b, &a[i]) && !holds_chars(&r, &a[i]) {
            let ghost prev = views(r@);
            r.push(a[i].clone());
            assert(views(r@) =~= prev.push(a@[i as int]@));
        }
        i += 1;
    }
    assert(av.take(a.len() as int) == av);
    r
}

fn char_vecs(v: &Vec<String>) -> (r: Vec<Vec<char>>)
    ensures
        views(r@) == v.deep_view(),
{
    let mut r: Vec<Vec<char>> = Vec::new();
    let mut i: usize = 0;
    while i < v.len()
        invariant
            i <= v.len(),
            views(r@) =~= v.deep_view().take(i as int),
        decreases v.len() - i,
    {
        let ghost prev = views(r@);
        r.push(chars_of(v[i].as_str()));
        assert(views(r@) =~= prev.push(v[i as int]@));
        i += 1;
    }
    assert(v.deep_view().take(v.len() as int) =~= v.deep_view());
    r
}

fn strings_of(v: &Vec<Vec<char>>) -> (r: Vec<String>)
    ensures
        r.deep_view() == views(v@),
{
    let mut r: Vec<String> = Vec::new();
    let mut i: usize = 0;
    while i < v.len()
        invariant
            i <= v.len(),
            r.deep_view() =~= views(v@).take(i as int),
        decreases v.len() - i,
    {
        let ghost prev = r.deep_view();
        r.push(string_of(v[i].as_slice()));
        assert(r.deep_view() =~= prev.push(v@[i as int]@));
        i += 1;
    }
    assert(views(v@).take(v.len() as int) =~= views(v@));
    r
}

pub open spec fn conflict_view(c: PortConflict) -> (i64, i64, Seq<char>, Seq<Seq<char>>, Seq<Seq<char>>) {
    (c.port, c.id, c.name@, c.nodes.deep_view(), c.protocols.deep_view())
}

/// Whether a forward on `listen_port` with `protocol` and entry nodes
/// `entry_node_ids` collides with one of `users` (the enabled forwards on
/// that port; `exclude_id` is the forward being edited). The first
/// colliding one is reported, with the shared entry nodes and protocols.
pub fn port_conflict(
    listen_port: i64,
    protocol: &str,
    entry_node_ids: &Vec<String>,
    exclude_id: Option<i64>,
    users: &Vec<PortUser>,
) -> (r: Option<PortConflict>)
    ensures
        r is None <==> (proto_parts(protocol@).len() == 0 || entry_node_ids@.len() == 0 || forall|k: int|
            0 <= k < users@.len() ==> !#[trigger] collides(
                proto_parts(protocol@),
                entry_node_ids.deep_view(),
                exclude_id,
                user_view(users@[k]),
            )),
        r matches Some(c) ==> exists|k: int|
            0 <= k < users@.len() && collides(
                proto_parts(protocol@),
                entry_node_ids.deep_view(),
                exclude_id,
                user_view(#[trigger] users@[k]),
            ) && (forall|q: int| 0 <= q < k ==> !#[trigger] collides(
                proto_parts(protocol@),
                entry_node_ids.deep_view(),
                exclude_id,
                user_view(users@[q]),
            )) && conflict_view(c) == (
                listen_port,
                users@[k].id,
                users@[k].name@,
                common(entry_node_ids.deep_view(), users@[k].entry_nodes.deep_view()),
                common(proto_parts(protocol@), proto_parts(users@[k].protocol@)),
            ),
{
    let protos = proto_parts_exec(protocol);
    let entry = char_vecs(entry_node_ids);
    if protos.len() == 0 || entry.len() == 0 {
        return None;
    }
    let ghost pv = proto_parts(protocol@);
    let ghost ev = entry_node_ids.deep_view();
    let mut k: usize = 0;
    while k < users.len()
        invariant
            pv == proto_parts(protocol@),
            ev == entry_node_ids.deep_view(),
            views(protos@) == pv,
            views(entry@) == ev,
            k <= users.len(),
            forall|q: int| 0 <= q < k ==> !#[trigger] collides(pv, ev, exclude_id, user_view(users@[q])),
        decreases users.len() - k,
    {
        let u = &users[k];
        let excluded = match exclude_id {
            Some(x) => x == u.id,
            None => false,
        };
        if !excluded {
            let up = proto_parts_exec(u.protocol.as_str());
            let shared_protos = common_chars(&protos, &up);
            if shared_protos.len() > 0 {
                let ue = char_vecs(&u.entry_nodes);
                let shared_nodes = common_chars(&entry, &ue);
                if shared_nodes.len() > 0 {
                    let c = PortConflict {
                        port: listen_port,
                        id: u.id,
                        name: u.name.clone(),
                        nodes: strings_of(&shared_nodes),
                        protocols: strings_of(&shared_protos),
                    };
                    assert(collides(pv, ev, exclude_id, user_view(users@[k as int])));
                    return Some(c);
                }
            }
        }
        k += 1;
    }
    None
}

/// `items` joined with `sep` between them (`[..].join(sep)`).
pub open spec fn joined(items: Seq<Seq<char>>, sep: char) -> Seq<char>
    decreases items.len(),
{
    if items.len() == 0 {
        Seq::empty()
    } else if items.len() == 1 {
        items[0]
    } else {
        joined(items.drop_last(), sep) + seq![sep] + items.last()
    }
}

fn push_joined(out: &mut Vec<char>, items: &Vec<String>, sep: char)
    ensures
        final(out)@ == old(out)@ + joined(items.deep_view(), sep),
{
    let ghost base = out@;
    let ghost iv = items.deep_view();
    let mut i: usize = 0;
    while i < items.len()
        invariant
            iv == items.deep_view(),
            i <= items.len(),
            out@ == base + joined(iv.take(i as int), sep),
        decreases items.len() - i,
    {
        assert(iv.take(i + 1).drop_last() == iv.take(i as int));
        assert(iv.take(i + 1).last() == items@[i as int]@);
        if i > 0 {
            out.push(sep);
        }
        push_all(out, chars_of(items[i].as_str()).as_slice());
        proof {
            if i == 0 {
                assert(iv.take(1) =~= seq![iv[0]]);
                assert(out@ =~= base + joined(iv.take(1), sep));
            } else {
                assert(out@ =~= base + joined(iv.take(i + 1), sep));
            }
        }
        i += 1;
    }
    assert(iv.take(items.len() as int) == iv);
}

impl PortConflict {
    /// The text the API answers with.
    pub fn message(&self) -> (r: String)
        ensures
            r@ == "端口 "@ + dec_signed(self.port as int) + " 冲突：转发 '"@ + self.name@ + "' (id="@ + dec_signed(
                self.id as int,
            ) + ") 已在节点 ["@ + joined(self.nodes.deep_view(), ',') + "] 使用 "@ + joined(
                self.protocols.deep_view(),
                '+',
            ) + " 协议"@,
    {
        let mut v = chars_of("端口 ");
        push_all(&mut v, fmt_i64(self.port).as_slice());
        push_all(&mut v, chars_of(" 冲突：转发 '").as_slice());
        push_all(&mut v, chars_of(self.name.as_str()).as_slice());
        push_all(&mut v, chars_of("' (id=").as_slice());
        push_all(&mut v, fmt_i64(self.id).as_slice());
        push_all(&mut v, chars_of(") 已在节点 [").as_slice());
        push_joined(&mut v, &self.nodes, ',');
        push_all(&mut v, chars_of("] 使用 ").as_slice());
        push_joined(&mut v, &self.protocols, '+');
        push_all(&mut v, chars_of(" 协议").as_slice());
        assert(v@ =~= "端口 "@ + dec_signed(self.port as int) + " 冲突：转发 '"@ + self.name@ + "' (id="@ + dec_signed(
            self.id as int,
        ) + ") 已在节点 ["@ + joined(self.nodes.deep_view(), ',') + "] 使用 "@ + joined(
            self.protocols.deep_view(),
            '+',
        ) + " 协议"@);
        string_of(v.as_slice())
    }
}

/// Why a create or edit of a forward is refused, before anything is written.
pub enum Refusal {
    /// No such forward (404), or not the caller's (403).
    Denied(u16),
    /// The request itself is invalid.
    Invalid(ForwardError),
    /// Its port is taken on one of its entry nodes.
    PortTaken(PortConflict),
}

/// No forward in `users` collides with one of protocol `protocol` on the
/// entry nodes `entries`, other than the one `exclude` names.
pub open spec fn port_free(
    protocol: Seq<char>,
    entries: Seq<Seq<char>>,
    exclude: Option<i64>,
    users: Seq<PortUser>,
) -> bool {
    proto_parts(protocol).len() == 0 || entries.len() == 0 || forall|k: int|
        0 <= k < users.len() ==> !#[trigger] collides(
            proto_parts(protocol),
            entries,
            exclude,
            user_view(users[k]),
        )
}

/// The checks a create (`access` is `Ok`) or an edit (`access` is
/// `edit_decision`'s answer, `exclude_id` the forward edited) runs before
/// it writes, in order: access, then the request (`validate_forward`), then
/// the port on the entry nodes among `users` (the forwards on that port).
/// Only a request that passes all three gives the forward to write.
pub fn admit_forward(
    access: Result<(), u16>,
    f: &ForwardCreate,
    exclude_id: Option<i64>,
    users: &Vec<PortUser>,
) -> (r: Result<ValidForward, Refusal>)
    ensures
        access matches Err(c) ==> (r matches Err(Refusal::Denied(d)) && d == c),
        access is Ok && validation_error(*f) is Some ==> (r matches Err(Refusal::Invalid(e))
            && validation_error(*f) == Some(error_view(e))),
        access is Ok && validation_error(*f) is None ==> {
            &&& (r is Ok <==> port_free(
                protocol_of(f.protocol@)->0,
                pool_ids(clamp_hops(normalized_hops_of(*f))[0].1),
                exclude_id,
                users@,
            ))
            &&& (r is Err ==> r matches Err(Refusal::PortTaken(_)))
        },
        r matches Ok(v) ==> {
            &&& protocol_of(f.protocol@) == Some(v.protocol@)
            &&& v.hops.deep_view() == clamp_hops(normalized_hops_of(*f))
            &&& v.targets.deep_view() == clamp_nodes(normalized_targets_of(*f))
        },
{
    if let Err(c) = access {
        return Err(Refusal::Denied(c));
    }
    let v = match validate_forward(f) {
        Ok(v) => v,
        Err(e) => return Err(Refusal::Invalid(e)),
    };
    let entries = entry_ids(&v.hops);
    proof {
        assert(validation_error(*f) is None);
        assert(normalized_hops_of(*f).len() > 0);
        assert(v.hops.deep_view().len() > 0);
    }
    match port_conflict(f.listen_port, v.protocol.as_str(), &entries, exclude_id, users) {
        Some(c) => Err(Refusal::PortTaken(c)),
        None => Ok(v),
    }
}


} // verus!
