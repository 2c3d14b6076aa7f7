//! The command line's short form of a path: hops separated by `|`, each a
//! comma-separated list of `node[:weight]`, optionally followed by
//! `@strategy`, e.g. `a:3,b | c @source_hash`.
use vstd::prelude::*;
use crate::model::{Hop, HopNode};
use crate::rules::{clamp1000, HopView};
use crate::lb::NodeSpec;
use crate::text::{
    chars_of, parse_unsigned, parse_unsigned_chars, split, split_by, split_once, split_once_chars, string_of,
    trim, trim_chars, views, Sep,
};

verus! {

/// One `node[:weight]` entry: its trimmed id, and its weight (1 when
/// missing or not a number, clamped to `1..=1000`); nothing for an entry
/// or id that is blank.
pub open spec fn dsl_node(entry: Seq<char>) -> Option<NodeSpec> {
    let n = trim(entry);
    if n.len() == 0 {
        None
    } else {
        let (id, w) = match split_once(n, ':') {
            Some((id, w)) => (trim(id), clamp1000(
                match parse_unsigned(trim(w), u32::MAX as nat) {
                    Some(v) => v as u32,
                    None => 1u32,
                },
            )),
            None => (n, 1u32),
        };
        if id.len() == 0 {
            None
        } else {
            Some((id, w))
        }
    }
}

/// The nodes of the comma-separated entries `es`, blank ones left out.
pub open spec fn dsl_nodes(es: Seq<Seq<char>>) -> Seq<NodeSpec>
    decreases es.len(),
{
    if es.len() == 0 {
        Seq::empty()
    } else {
        let r = dsl_nodes(es.drop_last());
        match dsl_node(es.last()) {
            Some(n) => r.push(n),
            None => r,
        }
    }
}

/// One hop: its nodes, and the strategy after `@` (`weighted` without one).
pub open spec fn dsl_hop(piece: Seq<char>) -> HopView {
    let hop = trim(piece);
    let (nodes, strategy) = match split_once(hop, '@') {
        Some((n, st)) => (trim(n), trim(st)),
        None => (hop, "weighted"@),
    };
    (strategy, dsl_nodes(split_by(nodes, Sep::One(',').pred())))
}

/// The hops of a path in short form, one per `|`-separated piece.
pub open spec fn dsl_hops(s: Seq<char>) -> Seq<HopView> {
    split_by(s, Sep::One('|').pred()).map_values(|p: Seq<char>| dsl_hop(p))
}

fn dsl_node_of(entry: &[char]) -> (r: Option<HopNode>)
    ensures
        r matches Some(n) ==> dsl_node(entry@) == Some(n@),
        r is None ==> dsl_node(entry@) is None,
{
    let n = trim_chars(entry);
    if n.len() == 0 {
        return None;
    }
    let (id, w) = match split_once_chars(n.as_slice(), ':') {
        Some((id, w)) => {
            let wt = trim_chars(w.as_slice());
            let v: u32 = match parse_unsigned_chars(wt.as_slice(), 0xffff_ffff) {
                Some(v) => v as u32,
                None => 1,
            };
            let c: u32 = if v < 1 {
                1
            } else if v > 1000 {
                1000
            } else {
                v
            };
            (trim_chars(id.as_slice()), c)
        },
        None => (n, 1u32),
    };
    if id.len() == 0 {
        return None;
    }
    Some(HopNode { id: string_of(id.as_slice()), weight: w })
}

/// Reads a path in short form; every piece gives a hop, possibly without nodes.
pub fn parse_hops_dsl(s: &str) -> (r: Vec<Hop>)
    ensures
        r.deep_view() == dsl_hops(s@),
{
    let cs = chars_of(s);
    let pieces = split(cs.as_slice(), &Sep::One('|'));
    let ghost pv = views(pieces@);
    let mut out: Vec<Hop> = Vec::new();
    let mut i: usize = 0;
    while i < pieces.len()
        invariant
            pv == views(pieces@),
            pv == split_by(s@, Sep::One('|').pred()),
            i <= pieces.len(),
            out.deep_view() == pv.take(i as int).map_values(|p: Seq<char>| dsl_hop(p)),
        decreases pieces.len() - i,
    {
        let hop = trim_chars(pieces[i].as_slice());
        let (nodes_part, strategy) = match split_once_chars(hop.as_slice(), '@') {
            Some((n, st)) => (trim_chars(n.as_slice()), trim_chars(st.as_slice())),
            None => (hop, chars_of("weighted")),
        };
        assert(hop@ == trim(pv[i as int]));
        let entries = split(nodes_part.as_slice(), &Sep::One(','));
        let ghost ev = views(entries@);
        let ghost want = dsl_hop(pv[i as int]);
        assert(want.0 == strategy@);
        assert(want.1 == dsl_nodes(ev));
        let mut nodes: Vec<HopNode> = Vec::new();
        let mut k: usize = 0;
        while k < entries.len()
            invariant
                ev == views(entries@),
                want.0 == strategy@,
                want.1 == dsl_nodes(ev),
                k <= entries.len(),
                nodes.deep_view() == dsl_nodes(ev.take(k as int)),
            decreases entries.len() - k,
        {
            assert(ev.take(k + 1).drop_last() == ev.take(k as int));
            assert(ev.take(k + 1).last() == entries@[k as int]@);
            match dsl_node_of(entries[k].as_slice()) {
                Some(n) => {
                    let ghost before = nodes.deep_view();
                    nodes.push(n);
                    assert(nodes.deep_view() =~= before.push(n@));
                },
                None => {},
            }
            k += 1;
        }
        assert(ev.take(entries.len() as int) == ev);
        let ghost before = out.deep_view();
        let ghost ndv = nodes.deep_view();
        assert(ndv == want.1);
        let sv = string_of(strategy.as_slice());
        let h = Hop { strategy: sv, nodes };
        assert(h.deep_view() == want);
        out.push(h);
        assert(out.deep_view() =~= before.push(want));
        assert(out.deep_view() =~= pv.take(i + 1).map_values(|p: Seq<char>| dsl_hop(p)));
        i += 1;
    }
    assert(pv.take(pieces.len() as int) == pv);
    out
}


proof fn lemma_dsl_nodes_bounded(es: Seq<Seq<char>>)
    ensures
        forall|k: int| 0 <= k < dsl_nodes(es).len() ==> 1 <= (#[trigger] dsl_nodes(es)[k]).1 <= 1000 && dsl_nodes(
            es,
        )[k].0.len() > 0,
    decreases es.len(),
{
    if es.len() > 0 {
        lemma_dsl_nodes_bounded(es.drop_last());
        let r = dsl_nodes(es.drop_last());
        match dsl_node(es.last()) {
            Some(n) => {
                let t = trim(es.last());
                match split_once(t, ':') {
                    Some((id, w)) => {
                        let v = match parse_unsigned(trim(w), u32::MAX as nat) {
                            Some(v) => v as u32,
                            None => 1u32,
                        };
                        assert(1 <= clamp1000(v) <= 1000);
                    },
                    None => {},
                }
                assert(1 <= n.1 <= 1000 && n.0.len() > 0);
                assert forall|k: int| 0 <= k < r.push(n).len() implies 1 <= (#[trigger] r.push(n)[k]).1 <= 1000
                    && r.push(n)[k].0.len() > 0 by {
                    if k < r.len() {
                        assert(r.push(n)[k] == r[k]);
                    }
                }
            },
            None => {},
        }
    }
}

/// Every node the short form names has a non-empty id and a weight in
/// `1..=1000`, whatever the text.
pub proof fn lemma_dsl_weights_bounded(s: Seq<char>)
    ensures
        forall|h: int, k: int|
            0 <= h < dsl_hops(s).len() && 0 <= k < dsl_hops(s)[h].1.len() ==> 1 <= (#[trigger] dsl_hops(s)[h].1[k]).1
                <= 1000 && dsl_hops(s)[h].1[k].0.len() > 0,
{
    assert forall|h: int, k: int|
        0 <= h < dsl_hops(s).len() && 0 <= k < dsl_hops(s)[h].1.len() implies 1 <= (#[trigger] dsl_hops(s)[h].1[k]).1
            <= 1000 && dsl_hops(s)[h].1[k].0.len() > 0 by {
        let piece = split_by(s, Sep::One('|').pred())[h];
        let hop = trim(piece);
        let nodes = match split_once(hop, '@') {
            Some((n, st)) => trim(n),
            None => hop,
        };
        lemma_dsl_nodes_bounded(split_by(nodes, Sep::One(',').pred()));
    }
}

} // verus!
