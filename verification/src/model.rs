//! The forwarding model that master and nodes share: hops made of weighted
//! node groups, weighted targets, and the create/edit request of a forward
//! with its normalisation rules.
use vstd::prelude::*;
use crate::text::{
    chars_of, is_lit, is_ws, lemma_lower_trim, lower_chars, string_of, to_ascii_lower, trim,
    trim_chars,
};

verus! {

/// One node of a hop's group, with its load-balancing weight.
pub struct HopNode {
    pub id: String,
    pub weight: u32,
}

/// One hop of a forward's path: a group of nodes and how to pick among them.
pub struct Hop {
    pub strategy: String,
    pub nodes: Vec<HopNode>,
}

/// One final destination `host:port` with its weight.
pub struct TargetEndpoint {
    pub addr: String,
    pub weight: u32,
}

impl View for HopNode {
    type V = (Seq<char>, u32);

    open spec fn view(&self) -> (Seq<char>, u32) {
        (self.id@, self.weight)
    }
}

impl DeepView for HopNode {
    type V = (Seq<char>, u32);

    open spec fn deep_view(&self) -> (Seq<char>, u32) {
        self@
    }
}

impl View for Hop {
    type V = (Seq<char>, Seq<(Seq<char>, u32)>);

    open spec fn view(&self) -> (Seq<char>, Seq<(Seq<char>, u32)>) {
        (self.strategy@, self.nodes.deep_view())
    }
}

impl DeepView for Hop {
    type V = (Seq<char>, Seq<(Seq<char>, u32)>);

    open spec fn deep_view(&self) -> (Seq<char>, Seq<(Seq<char>, u32)>) {
        self@
    }
}

impl View for TargetEndpoint {
    type V = (Seq<char>, u32);

    open spec fn view(&self) -> (Seq<char>, u32) {
        (self.addr@, self.weight)
    }
}

impl DeepView for TargetEndpoint {
    type V = (Seq<char>, u32);

    open spec fn deep_view(&self) -> (Seq<char>, u32) {
        self@
    }
}

pub fn copy_string(s: &String) -> (r: String)
    ensures
        r@ == s@,
{
    s.clone()
}

pub fn copy_node(n: &HopNode) -> (r: HopNode)
    ensures
        r@ == n@,
{
    HopNode { id: n.id.clone(), weight: n.weight }
}

pub fn copy_nodes(v: &Vec<HopNode>) -> (r: Vec<HopNode>)
    ensures
        r.deep_view() == v.deep_view(),
{
    let mut r: Vec<HopNode> = Vec::new();
    let mut i: usize = 0;
    while i < v.len()
        invariant
            i <= v.len(),
            r.deep_view() == v.deep_view().take(i as int),
            r@.len() == i,
        decreases v.len() - i,
    {
        let ghost prev = r@;
        let x = copy_node(&v[i]);
        r.push(x);
        i += 1;
        proof {
            assert forall|k: int| 0 <= k < i implies #[trigger] r.deep_view()[k] == v.deep_view().take(
                i as int,
            )[k] by {
                if k < i - 1 {
                    assert(r@[k] == prev[k]);
                }
            }
            assert(r.deep_view() =~= v.deep_view().take(i as int));
        }
    }
    proof {
        assert(v.deep_view().take(v.len() as int) =~= v.deep_view());
    }
    r
}

pub fn copy_hop(h: &Hop) -> (r: Hop)
    ensures
        r@ == h@,
{
    Hop { strategy: h.strategy.clone(), nodes: copy_nodes(&h.nodes) }
}

pub fn copy_hops(v: &Vec<Hop>) -> (r: Vec<Hop>)
    ensures
        r.deep_view() == v.deep_view(),
{
    let mut r: Vec<Hop> = Vec::new();
    let mut i: usize = 0;
    while i < v.len()
        invariant
            i <= v.len(),
            r.deep_view() == v.deep_view().take(i as int),
            r@.len() == i,
        decreases v.len() - i,
    {
        let ghost prev = r@;
        r.push(copy_hop(&v[i]));
        i += 1;
        proof {
            assert forall|k: int| 0 <= k < i implies #[trigger] r.deep_view()[k] == v.deep_view().take(
                i as int,
            )[k] by {
                if k < i - 1 {
                    assert(r@[k] == prev[k]);
                }
            }
            assert(r.deep_view() =~= v.deep_view().take(i as int));
        }
    }
    proof {
        assert(v.deep_view().take(v.len() as int) =~= v.deep_view());
    }
    r
}

pub fn copy_target(t: &TargetEndpoint) -> (r: TargetEndpoint)
    ensures
        r@ == t@,
{
    TargetEndpoint { addr: t.addr.clone(), weight: t.weight }
}

pub fn copy_targets(v: &Vec<TargetEndpoint>) -> (r: Vec<TargetEndpoint>)
    ensures
        r.deep_view() == v.deep_view(),
{
    let mut r: Vec<TargetEndpoint> = Vec::new();
    let mut i: usize = 0;
    while i < v.len()
        invariant
            i <= v.len(),
            r.deep_view() == v.deep_view().take(i as int),
            r@.len() == i,
        decreases v.len() - i,
    {
        let ghost prev = r@;
        r.push(copy_target(&v[i]));
        i += 1;
        proof {
            assert forall|k: int| 0 <= k < i implies #[trigger] r.deep_view()[k] == v.deep_view().take(
                i as int,
            )[k] by {
                if k < i - 1 {
                    assert(r@[k] == prev[k]);
                }
            }
            assert(r.deep_view() =~= v.deep_view().take(i as int));
        }
    }
    proof {
        assert(v.deep_view().take(v.len() as int) =~= v.deep_view());
    }
    r
}

// ───────────────────────── protocol ─────────────────────────

/// The canonical protocol (`tcp`, `udp` or `tcp+udp`) that a user's spelling
/// names: its trimmed, lower-cased text is `tcp`, `udp`, or one of `tcp+udp`,
/// `both`, `tcp,udp` and `udp+tcp`; any other text names none.
pub open spec fn protocol_of(raw: Seq<char>) -> Option<Seq<char>> {
    let s = to_ascii_lower(trim(raw));
    if s == "tcp"@ {
        Some("tcp"@)
    } else if s == "udp"@ {
        Some("udp"@)
    } else if s == "tcp+udp"@ || s == "both"@ || s == "tcp,udp"@ || s == "udp+tcp"@ {
        Some("tcp+udp"@)
    } else {
        None
    }
}

/// Normalises a protocol spelling (`tcp`, `udp`, `tcp+udp`, `both`, `tcp,udp`,
/// `udp+tcp`, any case, surrounding white space ignored) to `tcp`, `udp` or
/// `tcp+udp`; `None` for any other value.
pub fn parse_protocol(raw: &str) -> (r: Option<String>)
    ensures
        r matches Some(p) ==> protocol_of(raw@) == Some(p@),
        r is None ==> protocol_of(raw@) is None,
{
    let rc = chars_of(raw);
    let t = trim_chars(rc.as_slice());
    let s = lower_chars(t.as_slice());
    let s = s.as_slice();
    if is_lit(s, "tcp") {
        Some(String::from_str("tcp"))
    } else if is_lit(s, "udp") {
        Some(String::from_str("udp"))
    } else if is_lit(s, "tcp+udp") || is_lit(s, "both") || is_lit(s, "tcp,udp") || is_lit(s, "udp+tcp") {
        Some(String::from_str("tcp+udp"))
    } else {
        None
    }
}

/// Protocol spellings ignore ASCII case: two texts that differ only in the
/// case of their letters name the same protocol.
pub proof fn law_protocol_ignores_case(a: Seq<char>, b: Seq<char>)
    requires
        to_ascii_lower(a) == to_ascii_lower(b),
    ensures
        protocol_of(a) == protocol_of(b),
{
    lemma_lower_trim(a);
    lemma_lower_trim(b);
    lemma_lower_trim(trim(a));
    lemma_lower_trim(trim(b));
}

/// The canonical form is a fixed point: a protocol that a spelling names is
/// named by its own canonical text, and only the three canonical values come out.
pub proof fn law_protocol_canonical(raw: Seq<char>)
    ensures
        protocol_of(raw) matches Some(c) ==> {
            &&& (c == "tcp"@ || c == "udp"@ || c == "tcp+udp"@)
            &&& protocol_of(c) == Some(c)
        },
{
    reveal_strlit("tcp");
    reveal_strlit("udp");
    reveal_strlit("tcp+udp");
    lemma_canonical_fixed("tcp"@);
    lemma_canonical_fixed("udp"@);
    lemma_canonical_fixed("tcp+udp"@);
}

proof fn lemma_canonical_fixed(c: Seq<char>)
    requires
        forall|i: int| 0 <= i < c.len() ==> ('a' <= #[trigger] c[i] <= 'z' || c[i] == '+'),
    ensures
        trim(c) == c,
        to_ascii_lower(c) == c,
{
    assert(to_ascii_lower(c) =~= c);
    if c.len() > 0 {
        assert(!is_ws(c[0]));
        assert(!is_ws(c.last()));
    }
}

// ───────────────────────── forward requests ─────────────────────────

/// A forward as a user creates or edits it. Old clients send `path` (one node
/// per hop) and `target` (one address); new ones send `hops` and `targets`.
pub struct ForwardCreate {
    pub name: String,
    pub listen_port: i64,
    pub protocol: String,
    pub hops: Option<Vec<Hop>>,
    pub path: Option<Vec<String>>,
    pub target: Option<String>,
    pub targets: Option<Vec<TargetEndpoint>>,
    pub target_strategy: String,
    pub quota_in_bytes: Option<i64>,
    pub quota_out_bytes: Option<i64>,
    pub rate_in_bps: Option<i64>,
    pub rate_out_bps: Option<i64>,
    pub quota_reset: Option<String>,
    pub link_encryption: Option<String>,
}

/// A hop of one node, picked the weighted way.
pub open spec fn single_node_hop(id: Seq<char>) -> (Seq<char>, Seq<(Seq<char>, u32)>) {
    ("weighted"@, seq![(id, 1u32)])
}

/// The hops of a request: `hops` when given, else one single-node hop per
/// entry of `path` (none without a path).
pub open spec fn normalized_hops_of(f: ForwardCreate) -> Seq<(Seq<char>, Seq<(Seq<char>, u32)>)> {
    match f.hops {
        Some(h) => h.deep_view(),
        None => match f.path {
            Some(p) => Seq::new(p@.len(), |i: int| single_node_hop(p@[i]@)),
            None => Seq::empty(),
        },
    }
}

/// The targets of a request: `targets` when given, else the trimmed `target`
/// with weight 1 when it is not blank, else none.
pub open spec fn normalized_targets_of(f: ForwardCreate) -> Seq<(Seq<char>, u32)> {
    match f.targets {
        Some(t) => t.deep_view(),
        None => match f.target {
            Some(t) => if trim(t@).len() > 0 {
                seq![(trim(t@), 1u32)]
            } else {
                Seq::empty()
            },
            None => Seq::empty(),
        },
    }
}

impl ForwardCreate {
    /// The hops of the request, old `path` input turned into single-node hops.
    pub fn normalized_hops(&self) -> (r: Vec<Hop>)
        ensures
            r.deep_view() == normalized_hops_of(*self),
    {
        match &self.hops {
            Some(h) => copy_hops(h),
            None => {
                let mut r: Vec<Hop> = Vec::new();
                match &self.path {
                    Some(p) => {
                        let mut i: usize = 0;
                        while i < p.len()
                            invariant
                                i <= p.len(),
                                self.hops is None,
                                self.path == Some(*p),
                                r.deep_view() == Seq::new(
                                    i as nat,
                                    |j: int| single_node_hop(p@[j]@),
                                ),
                                r@.len() == i,
                            decreases p.len() - i,
                        {
                            let mut nodes: Vec<HopNode> = Vec::new();
                            nodes.push(HopNode { id: p[i].clone(), weight: 1 });
                            let h = Hop { strategy: String::from_str("weighted"), nodes };
                            proof {
                                assert(h.nodes.deep_view() =~= seq![(p@[i as int]@, 1u32)]);
                            }
                            let ghost prev = r@;
                            let ghost prev_dv = r.deep_view();
                            let ghost hv = h@;
                            assert(hv == single_node_hop(p@[i as int]@));
                            r.push(h);
                            assert(r@[i as int]@ == hv);
                            i += 1;
                            proof {
                                assert forall|k: int| 0 <= k < i implies #[trigger] r.deep_view()[k]
                                    == single_node_hop(p@[k]@) by {
                                    if k < i - 1 {
                                        assert(r@[k] == prev[k]);
                                        assert(prev_dv[k] == single_node_hop(p@[k]@));
                                        assert(prev_dv[k] == prev[k].deep_view());
                                    } else {
                                        assert(r@[k]@ == hv);
                                    }
                                }
                                assert(r.deep_view() =~= Seq::new(
                                    i as nat,
                                    |j: int| single_node_hop(p@[j]@),
                                ));
                            }
                        }
                    },
                    None => {
                        proof {
                            assert(r.deep_view() =~= Seq::empty());
                        }
                    },
                }
                r
            },
        }
    }

    /// The targets of the request, an old single `target` string turned into
    /// one target of weight 1.
    pub fn normalized_targets(&self) -> (r: Vec<TargetEndpoint>)
        ensures
            r.deep_view() == normalized_targets_of(*self),
    {
        match &self.targets {
            Some(t) => copy_targets(t),
            None => {
                let mut r: Vec<TargetEndpoint> = Vec::new();
                match &self.target {
                    Some(t) => {
                        let tc = chars_of(t.as_str());
                        let tt = trim_chars(tc.as_slice());
                        if tt.len() > 0 {
                            r.push(TargetEndpoint { addr: string_of(tt.as_slice()), weight: 1 });
                            proof {
                                assert(r.deep_view() =~= seq![(trim(t@), 1u32)]);
                            }
                        } else {
                            proof {
                                assert(r.deep_view() =~= Seq::empty());
                            }
                        }
                    },
                    None => {
                        proof {
                            assert(r.deep_view() =~= Seq::empty());
                        }
                    },
                }
                r
            },
        }
    }
}

} // verus!
