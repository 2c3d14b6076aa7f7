//! Per-forward byte accounting of the kernel fast path.
//!
//! Each poll reads the connection-tracking table. A flow is credited to the
//! forward whose listen port is its original destination port, by what it
//! carried since the last poll that saw it. The first poll after start only
//! takes the flows present as a baseline, so that bytes carried before the
//! start are never counted. Totals never decrease.
use vstd::prelude::*;
use crate::assoc::{absent, find, keys_unique, lemma_find_absent, lemma_find_at_last, lemma_retain_props, retain};
use crate::conntrack::{parse_conntrack, parse_conntrack_line, CtEntry, CtView, flow_key_of};
use crate::text::{chars_of, split, split_by, string_of, views, Sep};

verus! {

/// Bytes in the original and in the reply direction.
pub type Bytes = (u64, u64);

/// What a forward carried since start.
pub struct CounterSnapshot {
    pub forward_id: i64,
    pub bytes_in: u64,
    pub bytes_out: u64,
}

/// The accounting state: listen port to forward, the bytes each flow had
/// at the last poll, and the totals per forward.
pub struct NftFastPath {
    initialized: bool,
    ports: Vec<(u16, i64)>,
    flows: Vec<(String, Bytes)>,
    totals: Vec<(i64, Bytes)>,
    bootstrapped: bool,
}

pub struct AccountingView {
    pub initialized: bool,
    pub ports: Seq<(u16, i64)>,
    pub flows: Seq<(Seq<char>, Bytes)>,
    pub totals: Seq<(i64, Bytes)>,
    pub bootstrapped: bool,
}

pub open spec fn flows_view(v: Seq<(String, Bytes)>) -> Seq<(Seq<char>, Bytes)> {
    v.map_values(|p: (String, Bytes)| (p.0@, p.1))
}

impl View for NftFastPath {
    type V = AccountingView;

    closed spec fn view(&self) -> AccountingView {
        AccountingView {
            initialized: self.initialized,
            ports: self.ports@,
            flows: flows_view(self.flows@),
            totals: self.totals@,
            bootstrapped: self.bootstrapped,
        }
    }
}

/// A forward appears once among the totals and a port once among the ports.
pub open spec fn accounting_wf(v: AccountingView) -> bool {
    keys_unique(v.ports) && keys_unique(v.totals)
}

/// `totals` with `d` added, saturating, to the entry of forward `fid`.
pub open spec fn credit(totals: Seq<(i64, Bytes)>, fid: i64, d: Bytes) -> Seq<(i64, Bytes)> {
    totals.map_values(
        |p: (i64, Bytes)|
            if p.0 == fid {
                (p.0, ((p.1).0.saturating_add(d.0), (p.1).1.saturating_add(d.1)))
            } else {
                p
            },
    )
}

/// The bytes a flow had at the last poll; none for a new flow.
pub open spec fn previous(last: Seq<(Seq<char>, Bytes)>, key: Seq<char>) -> Bytes {
    match find(last, key) {
        Some(b) => b,
        None => (0, 0),
    }
}

/// One connection-table entry in a poll after the first: the growth of its
/// flow since `last` goes to the totals of its forward, and the flow is
/// remembered; an entry of no known forward changes nothing.
pub open spec fn poll_entry(
    ports: Seq<(u16, i64)>,
    last: Seq<(Seq<char>, Bytes)>,
    acc: (Seq<(i64, Bytes)>, Seq<(Seq<char>, Bytes)>),
    e: CtView,
) -> (Seq<(i64, Bytes)>, Seq<(Seq<char>, Bytes)>) {
    match find(ports, e.3) {
        Some(fid) => if find(acc.0, fid) is Some {
            let prev = previous(last, flow_key_of(e));
            (
                credit(acc.0, fid, (e.4.saturating_sub(prev.0), e.5.saturating_sub(prev.1))),
                acc.1.push((flow_key_of(e), (e.4, e.5))),
            )
        } else {
            acc
        },
        None => acc,
    }
}

/// A poll after the first, over the entries `es` in order.
pub open spec fn poll_all(
    ports: Seq<(u16, i64)>,
    last: Seq<(Seq<char>, Bytes)>,
    totals: Seq<(i64, Bytes)>,
    es: Seq<CtView>,
) -> (Seq<(i64, Bytes)>, Seq<(Seq<char>, Bytes)>)
    decreases es.len(),
{
    if es.len() == 0 {
        (totals, Seq::empty())
    } else {
        poll_entry(ports, last, poll_all(ports, last, totals, es.drop_last()), es.last())
    }
}

/// The flows of known forwards that the first poll takes as its baseline.
pub open spec fn baseline(ports: Seq<(u16, i64)>, es: Seq<CtView>) -> Seq<(Seq<char>, Bytes)>
    decreases es.len(),
{
    if es.len() == 0 {
        Seq::empty()
    } else {
        let b = baseline(ports, es.drop_last());
        let e = es.last();
        if find(ports, e.3) is Some {
            b.push((flow_key_of(e), (e.4, e.5)))
        } else {
            b
        }
    }
}

/// The state after a poll over `es`.
pub open spec fn polled(s: AccountingView, es: Seq<CtView>) -> AccountingView {
    if s.bootstrapped {
        let r = poll_all(s.ports, s.flows, s.totals, es);
        AccountingView { flows: r.1, totals: r.0, bootstrapped: true, ..s }
    } else {
        AccountingView { flows: baseline(s.ports, es), bootstrapped: true, ..s }
    }
}

/// `totals2` has the forwards of `totals1`, in the same order, each with at
/// least the bytes it had.
pub open spec fn grown(totals1: Seq<(i64, Bytes)>, totals2: Seq<(i64, Bytes)>) -> bool {
    &&& totals2.len() == totals1.len()
    &&& forall|i: int|
        0 <= i < totals1.len() ==> (#[trigger] totals2[i]).0 == totals1[i].0 && (totals2[i].1).0 >= (
        totals1[i].1).0 && (totals2[i].1).1 >= (totals1[i].1).1
}

/// `r` lists `totals`, forward by forward, in order.
pub open spec fn lists_totals(r: Seq<CounterSnapshot>, totals: Seq<(i64, Bytes)>) -> bool {
    &&& r.len() == totals.len()
    &&& forall|i: int|
        0 <= i < r.len() ==> (#[trigger] r[i]).forward_id == totals[i].0 && r[i].bytes_in == (totals[i].1).0
            && r[i].bytes_out == (totals[i].1).1
}

pub open spec fn entry_views(es: Seq<CtEntry>) -> Seq<CtView> {
    es.map_values(|e: CtEntry| e@)
}

proof fn lemma_grown_trans(a: Seq<(i64, Bytes)>, b: Seq<(i64, Bytes)>, c: Seq<(i64, Bytes)>)
    requires
        grown(a, b),
        grown(b, c),
    ensures
        grown(a, c),
{
    assert forall|i: int| 0 <= i < a.len() implies (#[trigger] c[i]).0 == a[i].0 && (c[i].1).0 >= (
    a[i].1).0 && (c[i].1).1 >= (a[i].1).1 by {
        assert(b[i].0 == a[i].0);
    }
}

proof fn lemma_poll_all_grows(
    ports: Seq<(u16, i64)>,
    last: Seq<(Seq<char>, Bytes)>,
    totals: Seq<(i64, Bytes)>,
    es: Seq<CtView>,
)
    ensures
        grown(totals, poll_all(ports, last, totals, es).0),
    decreases es.len(),
{
    if es.len() > 0 {
        lemma_poll_all_grows(ports, last, totals, es.drop_last());
        let mid = poll_all(ports, last, totals, es.drop_last());
        let r = poll_entry(ports, last, mid, es.last());
        assert(grown(mid.0, r.0));
        lemma_grown_trans(totals, mid.0, r.0);
    } else {
        assert(grown(totals, totals));
    }
}

/// Keys stay unique through `credit`.
proof fn lemma_credit_keys(totals: Seq<(i64, Bytes)>, fid: i64, d: Bytes)
    ensures
        credit(totals, fid, d).len() == totals.len(),
        forall|i: int| 0 <= i < totals.len() ==> (#[trigger] credit(totals, fid, d)[i]).0 == totals[i].0,
        keys_unique(totals) ==> keys_unique(credit(totals, fid, d)),
        forall|q: i64| (find(credit(totals, fid, d), q) is Some) == (#[trigger] find(totals, q) is Some),
    decreases totals.len(),
{
    let c = credit(totals, fid, d);
    if keys_unique(totals) {
        assert forall|i: int, j: int| 0 <= i < j < c.len() implies #[trigger] c[i].0 != #[trigger] c[j].0 by {
            assert(totals[i].0 != totals[j].0);
        }
    }
    if totals.len() > 0 {
        lemma_credit_keys(totals.drop_last(), fid, d);
        assert(c.drop_last() =~= credit(totals.drop_last(), fid, d));
        assert(c.last().0 == totals.last().0);
        assert forall|q: i64| (find(c, q) is Some) == (#[trigger] find(totals, q) is Some) by {
            if totals.last().0 != q {
                assert(find(c, q) == find(c.drop_last(), q));
                assert(find(totals, q) == find(totals.drop_last(), q));
            }
        }
    }
}

proof fn lemma_poll_all_keys(
    ports: Seq<(u16, i64)>,
    last: Seq<(Seq<char>, Bytes)>,
    totals: Seq<(i64, Bytes)>,
    es: Seq<CtView>,
)
    requires
        keys_unique(totals),
    ensures
        keys_unique(poll_all(ports, last, totals, es).0),
        forall|q: i64| (find(poll_all(ports, last, totals, es).0, q) is Some) == (#[trigger] find(totals, q) is Some),
    decreases es.len(),
{
    if es.len() > 0 {
        lemma_poll_all_keys(ports, last, totals, es.drop_last());
        let mid = poll_all(ports, last, totals, es.drop_last());
        let e = es.last();
        match find(ports, e.3) {
            Some(fid) => {
                let prev = previous(last, flow_key_of(e));
                lemma_credit_keys(mid.0, fid, (e.4.saturating_sub(prev.0), e.5.saturating_sub(prev.1)));
            },
            None => {},
        }
    }
}

/// `s` with `k` bound to `v`: the entry of `k` replaced, or a new entry
/// at the end.
pub open spec fn put<K, V>(s: Seq<(K, V)>, k: K, v: V) -> Seq<(K, V)> {
    if find(s, k) is Some {
        s.map_values(|p: (K, V)| if p.0 == k { (k, v) } else { p })
    } else {
        s.push((k, v))
    }
}

/// The state after forward `fid` starts listening on `port`: the port
/// maps to it, and its totals start at zero unless it has some already.
pub open spec fn registered(s: AccountingView, port: u16, fid: i64) -> AccountingView {
    AccountingView {
        ports: put(s.ports, port, fid),
        totals: if find(s.totals, fid) is Some {
            s.totals
        } else {
            s.totals.push((fid, (0u64, 0u64)))
        },
        ..s
    }
}

pub open spec fn port_kept(fid: i64) -> spec_fn((u16, i64)) -> bool {
    |p: (u16, i64)| p.1 != fid
}

pub open spec fn total_kept(fid: i64) -> spec_fn((i64, Bytes)) -> bool {
    |p: (i64, Bytes)| p.0 != fid
}

/// The state after forward `fid` is removed: no port maps to it and its
/// totals are gone; the flows are left for the next poll to drop.
pub open spec fn unregistered(s: AccountingView, fid: i64) -> AccountingView {
    AccountingView {
        ports: retain(s.ports, port_kept(fid)),
        totals: retain(s.totals, total_kept(fid)),
        ..s
    }
}

/// The entries of the lines of a connection-tracking table that parse.
pub open spec fn entries_of(lines: Seq<Seq<char>>) -> Seq<CtView>
    decreases lines.len(),
{
    if lines.len() == 0 {
        Seq::empty()
    } else {
        let r = entries_of(lines.drop_last());
        match parse_conntrack(lines.last()) {
            Some(e) => r.push(e),
            None => r,
        }
    }
}

/// The entries of a connection-tracking table, line by line.
pub open spec fn table_entries(table: Seq<char>) -> Seq<CtView> {
    entries_of(split_by(table, Sep::One('\n').pred()))
}

proof fn lemma_put_keys<K, V>(s: Seq<(K, V)>, k: K, v: V)
    requires
        keys_unique(s),
    ensures
        keys_unique(put(s, k, v)),
{
    let r = put(s, k, v);
    if find(s, k) is Some {
        assert forall|i: int, j: int| 0 <= i < j < r.len() implies #[trigger] r[i].0 != #[trigger] r[j].0 by {
            assert(s[i].0 != s[j].0);
        }
    } else {
        assert forall|i: int, j: int| 0 <= i < j < r.len() implies #[trigger] r[i].0 != #[trigger] r[j].0 by {
            if j == s.len() {
                if s[i].0 == k {
                    assert forall|t: int| i < t < s.len() implies #[trigger] s[t].0 != k by {
                        assert(s[i].0 != s[t].0);
                    }
                    lemma_find_at_last(s, k, i);
                }
            } else {
                assert(s[i].0 != s[j].0);
            }
        }
    }
}

pub(crate) proof fn lemma_retain_all<K, V>(s: Seq<(K, V)>, p: spec_fn((K, V)) -> bool)
    requires
        forall|i: int| 0 <= i < s.len() ==> p(#[trigger] s[i]),
    ensures
        retain(s, p) == s,
    decreases s.len(),
{
    if s.len() > 0 {
        assert(p(s[s.len() - 1]));
        lemma_retain_all(s.drop_last(), p);
        assert(s.drop_last().push(s.last()) =~= s);
    }
}

proof fn lemma_find_none<K, V>(s: Seq<(K, V)>, k: K)
    requires
        find(s, k) is None,
    ensures
        absent(s, k),
    decreases s.len(),
{
    if s.len() > 0 {
        lemma_find_none(s.drop_last(), k);
        assert forall|t: int| 0 <= t < s.len() implies #[trigger] s[t].0 != k by {
            if t < s.len() - 1 {
                assert(s.drop_last()[t] == s[t]);
            }
        }
    }
}

/// Removing a forward undoes adding it: on a state where neither its port
/// nor the forward is known, adding forward `fid` on `port` and removing it
/// again gives back the ports and the totals.
/// The first poll only takes a baseline: no forward's total moves, and every
/// later poll counts from it.
pub proof fn law_first_poll_is_baseline(s: AccountingView, es: Seq<CtView>)
    requires
        !s.bootstrapped,
    ensures
        polled(s, es).totals == s.totals,
        polled(s, es).bootstrapped,
        polled(s, es).flows == baseline(s.ports, es),
{
}

/// Totals never shrink over any number of polls: after a later poll every
/// forward keeps at least the bytes it had.
pub proof fn law_polls_only_grow(s: AccountingView, es1: Seq<CtView>, es2: Seq<CtView>)
    requires
        accounting_wf(s),
    ensures
        grown(s.totals, polled(polled(s, es1), es2).totals),
{
    if s.bootstrapped {
        lemma_poll_all_grows(s.ports, s.flows, s.totals, es1);
    } else {
        assert(grown(s.totals, s.totals));
    }
    let s1 = polled(s, es1);
    lemma_poll_all_grows(s1.ports, s1.flows, s1.totals, es2);
    lemma_grown_trans(s.totals, s1.totals, polled(s1, es2).totals);
}

pub proof fn lemma_unregister_undoes_register(s: AccountingView, port: u16, fid: i64)
    requires
        accounting_wf(s),
        absent(s.ports, port),
        forall|i: int| 0 <= i < s.ports.len() ==> (#[trigger] s.ports[i]).1 != fid,
        absent(s.totals, fid),
    ensures
        unregistered(registered(s, port, fid), fid) == s,
{
    lemma_find_absent(s.ports, port);
    lemma_find_absent(s.totals, fid);
    let r = registered(s, port, fid);
    let u = unregistered(r, fid);
    assert(r.ports == s.ports.push((port, fid)));
    assert(r.totals == s.totals.push((fid, (0u64, 0u64))));
    assert(r.ports.drop_last() == s.ports);
    assert(r.totals.drop_last() == s.totals);
    assert(u.ports == retain(s.ports, port_kept(fid)));
    assert(u.totals == retain(s.totals, total_kept(fid)));
    lemma_retain_all(s.ports, port_kept(fid));
    lemma_retain_all(s.totals, total_kept(fid));
    assert(u.ports == s.ports);
    assert(u.totals == s.totals);
}

// ───────────────────────── lookups ─────────────────────────

fn port_forward(ports: &Vec<(u16, i64)>, port: u16) -> (r: Option<i64>)
    ensures
        r == find(ports@, port),
{
    let mut i = ports.len();
    assert(ports@.take(i as int) == ports@);
    while i > 0
        invariant
            i <= ports.len(),
            find(ports@, port) == find(ports@.take(i as int), port),
        decreases i,
    {
        i -= 1;
        assert(ports@.take(i + 1).drop_last() == ports@.take(i as int));
        assert(ports@.take(i + 1).last() == ports@[i as int]);
        if ports[i].0 == port {
            return Some(ports[i].1);
        }
    }
    None
}

fn has_total(totals: &Vec<(i64, Bytes)>, fid: i64) -> (r: bool)
    ensures
        r == (find(totals@, fid) is Some),
{
    let mut i = totals.len();
    assert(totals@.take(i as int) == totals@);
    while i > 0
        invariant
            i <= totals.len(),
            find(totals@, fid) == find(totals@.take(i as int), fid),
        decreases i,
    {
        i -= 1;
        assert(totals@.take(i + 1).drop_last() == totals@.take(i as int));
        assert(totals@.take(i + 1).last() == totals@[i as int]);
        if totals[i].0 == fid {
            return true;
        }
    }
    false
}

fn previous_bytes(flows: &Vec<(String, Bytes)>, key: &String) -> (r: Bytes)
    ensures
        r == previous(flows_view(flows@), key@),
{
    let ghost s = flows_view(flows@);
    let mut i = flows.len();
    assert(s.take(i as int) == s);
    while i > 0
        invariant
            s == flows_view(flows@),
            i <= flows.len(),
            find(s, key@) == find(s.take(i as int), key@),
        decreases i,
    {
        i -= 1;
        assert(s.take(i + 1).drop_last() == s.take(i as int));
        assert(s.take(i + 1).last() == s[i as int]);
        if flows[i].0 == *key {
            return flows[i].1;
        }
    }
    (0, 0)
}

fn credit_in_place(totals: &mut Vec<(i64, Bytes)>, fid: i64, d: Bytes)
    ensures
        final(totals)@ == credit(old(totals)@, fid, d),
{
    let ghost target = credit(old(totals)@, fid, d);
    let mut i: usize = 0;
    while i < totals.len()
        invariant
            target == credit(old(totals)@, fid, d),
            totals.len() == old(totals).len(),
            i <= totals.len(),
            forall|k: int| 0 <= k < i ==> totals@[k] == target[k],
            forall|k: int| i <= k < totals.len() ==> totals@[k] == old(totals)@[k],
        decreases totals.len() - i,
    {
        let p = totals[i];
        if p.0 == fid {
            totals.set(i, (p.0, ((p.1).0.saturating_add(d.0), (p.1).1.saturating_add(d.1))));
        }
        i += 1;
    }
    assert(totals@ =~= target);
}

/// The entries of the lines of `table` that parse, in order.
pub fn parse_conntrack_table(table: &str) -> (r: Vec<CtEntry>)
    ensures
        entry_views(r@) == table_entries(table@),
{
    let cs = chars_of(table);
    let lines = split(cs.as_slice(), &Sep::One('\n'));
    let ghost lv = views(lines@);
    let mut out: Vec<CtEntry> = Vec::new();
    let mut i: usize = 0;
    assert(entry_views(out@) =~= Seq::<CtView>::empty());
    while i < lines.len()
        invariant
            lv == views(lines@),
            lv == split_by(table@, Sep::One('\n').pred()),
            i <= lines.len(),
            entry_views(out@) == entries_of(lv.take(i as int)),
        decreases lines.len() - i,
    {
        assert(lv.take(i + 1).drop_last() == lv.take(i as int));
        assert(lv.take(i + 1).last() == lines@[i as int]@);
        let line = string_of(lines[i].as_slice());
        match parse_conntrack_line(line.as_str()) {
            Some(e) => {
                let ghost before = entry_views(out@);
                out.push(e);
                assert(entry_views(out@) =~= before.push(out@.last()@));
            },
            None => {},
        }
        i += 1;
    }
    assert(lv.take(lines.len() as int) == lv);
    out
}

impl NftFastPath {
    /// No forward, no flow, before the first poll.
    pub fn new() -> (r: Self)
        ensures
            r@.ports.len() == 0,
            r@.flows.len() == 0,
            r@.totals.len() == 0,
            !r@.bootstrapped,
            !r@.initialized,
            accounting_wf(r@),
    {
        let r = NftFastPath { initialized: false, ports: Vec::new(), flows: Vec::new(), totals: Vec::new(), bootstrapped: false };
        assert(flows_view(r.flows@) =~= Seq::<(Seq<char>, Bytes)>::empty());
        r
    }

    /// One poll over the parsed entries of the connection-tracking table.
    pub fn poll(&mut self, entries: &Vec<CtEntry>)
        requires
            accounting_wf(old(self)@),
        ensures
            final(self)@ == polled(old(self)@, entry_views(entries@)),
            accounting_wf(final(self)@),
            grown(old(self)@.totals, final(self)@.totals),
    {
        let ghost ev = entry_views(entries@);
        let ghost s0 = self@;
        if !self.bootstrapped {
            let mut base: Vec<(String, Bytes)> = Vec::new();
            let mut i: usize = 0;
            while i < entries.len()
                invariant
                    ev == entry_views(entries@),
                    s0 == self@,
                    i <= entries.len(),
                    flows_view(base@) == baseline(s0.ports, ev.take(i as int)),
                decreases entries.len() - i,
            {
                proof {
                    assert(ev.take(i + 1).drop_last() =~= ev.take(i as int));
                    assert(ev.take(i + 1).last() == entries@[i as int]@);
                }
                let e = &entries[i];
                match port_forward(&self.ports, e.dport) {
                    Some(_) => {
                        let key = e.flow_key();
                        let ghost before = flows_view(base@);
                        base.push((key, (e.orig_bytes, e.reply_bytes)));
                        assert(flows_view(base@) =~= before.push((flow_key_of(e@), (e@.4, e@.5))));
                    },
                    None => {},
                }
                i += 1;
            }
            assert(ev.take(entries.len() as int) =~= ev);
            self.flows = base;
            self.bootstrapped = true;
            assert(grown(s0.totals, self@.totals));
            return;
        }
        let mut fresh: Vec<(String, Bytes)> = Vec::new();
        let mut i: usize = 0;
        assert(flows_view(fresh@) =~= Seq::<(Seq<char>, Bytes)>::empty());
        while i < entries.len()
            invariant
                ev == entry_views(entries@),
                s0.bootstrapped,
                self.initialized == s0.initialized,
                self.ports@ == s0.ports,
                flows_view(self.flows@) == s0.flows,
                self.bootstrapped,
                i <= entries.len(),
                (self.totals@, flows_view(fresh@)) == poll_all(s0.ports, s0.flows, s0.totals, ev.take(i as int)),
            decreases entries.len() - i,
        {
            proof {
                assert(ev.take(i + 1).drop_last() =~= ev.take(i as int));
                assert(ev.take(i + 1).last() == entries@[i as int]@);
            }
            let e = &entries[i];
            match port_forward(&self.ports, e.dport) {
                Some(fid) => {
                    if has_total(&self.totals, fid) {
                        let key = e.flow_key();
                        let prev = previous_bytes(&self.flows, &key);
                        let d = (e.orig_bytes.saturating_sub(prev.0), e.reply_bytes.saturating_sub(prev.1));
                        credit_in_place(&mut self.totals, fid, d);
                        let ghost before = flows_view(fresh@);
                        fresh.push((key, (e.orig_bytes, e.reply_bytes)));
                        assert(flows_view(fresh@) =~= before.push((flow_key_of(e@), (e@.4, e@.5))));
                    }
                },
                None => {},
            }
            i += 1;
        }
        assert(ev.take(entries.len() as int) =~= ev);
        self.flows = fresh;
        proof {
            lemma_poll_all_grows(s0.ports, s0.flows, s0.totals, ev);
            lemma_poll_all_keys(s0.ports, s0.flows, s0.totals, ev);
        }
    }

    /// The table is installed: the fast path can take rules.
    pub fn mark_initialized(&mut self)
        ensures
            final(self)@ == (AccountingView { initialized: true, ..old(self)@ }),
    {
        self.initialized = true;
    }

    /// Whether the table is installed.
    pub fn is_available(&self) -> (r: bool)
        ensures
            r == self@.initialized,
    {
        self.initialized
    }

    /// Forward `fid` starts listening on `listen_port`.
    pub fn track_rule(&mut self, listen_port: u16, fid: i64)
        requires
            accounting_wf(old(self)@),
        ensures
            final(self)@ == registered(old(self)@, listen_port, fid),
            accounting_wf(final(self)@),
    {
        let ghost s0 = self@;
        match port_forward(&self.ports, listen_port) {
            Some(_) => {
                let ghost target = put(s0.ports, listen_port, fid);
                let mut i: usize = 0;
                while i < self.ports.len()
                    invariant
                        target == s0.ports.map_values(
                            |p: (u16, i64)| if p.0 == listen_port { (listen_port, fid) } else { p },
                        ),
                        self.ports.len() == s0.ports.len(),
                        self.totals@ == s0.totals,
                        flows_view(self.flows@) == s0.flows,
                        self.bootstrapped == s0.bootstrapped,
                        self.initialized == s0.initialized,
                        i <= self.ports.len(),
                        forall|k: int| 0 <= k < i ==> self.ports@[k] == target[k],
                        forall|k: int| i <= k < self.ports.len() ==> self.ports@[k] == s0.ports[k],
                    decreases self.ports.len() - i,
                {
                    if self.ports[i].0 == listen_port {
                        self.ports.set(i, (listen_port, fid));
                    }
                    i += 1;
                }
                assert(self.ports@ =~= target);
            },
            None => {
                self.ports.push((listen_port, fid));
            },
        }
        if !has_total(&self.totals, fid) {
            proof {
                lemma_find_none(s0.totals, fid);
            }
            self.totals.push((fid, (0, 0)));
            assert forall|i: int, j: int| 0 <= i < j < self.totals@.len() implies #[trigger] self.totals@[i].0
                != #[trigger] self.totals@[j].0 by {
                if j < s0.totals.len() {
                    assert(s0.totals[i].0 != s0.totals[j].0);
                }
            }
        }
        proof {
            lemma_put_keys(s0.ports, listen_port, fid);
        }
    }

    /// Forward `fid` is removed: its port and its totals are dropped.
    pub fn untrack_rule(&mut self, fid: i64)
        requires
            accounting_wf(old(self)@),
        ensures
            final(self)@ == unregistered(old(self)@, fid),
            accounting_wf(final(self)@),
    {
        let ghost s0 = self@;
        let mut ports: Vec<(u16, i64)> = Vec::new();
        let mut i: usize = 0;
        while i < self.ports.len()
            invariant
                self@ == s0,
                i <= self.ports.len(),
                ports@ == retain(s0.ports.take(i as int), port_kept(fid)),
            decreases self.ports.len() - i,
        {
            assert(s0.ports.take(i + 1).drop_last() == s0.ports.take(i as int));
            assert(s0.ports.take(i + 1).last() == s0.ports[i as int]);
            if self.ports[i].1 != fid {
                ports.push(self.ports[i]);
            }
            i += 1;
        }
        assert(s0.ports.take(s0.ports.len() as int) == s0.ports);
        let mut totals: Vec<(i64, Bytes)> = Vec::new();
        let mut j: usize = 0;
        while j < self.totals.len()
            invariant
                self@ == s0,
                j <= self.totals.len(),
                totals@ == retain(s0.totals.take(j as int), total_kept(fid)),
            decreases self.totals.len() - j,
        {
            assert(s0.totals.take(j + 1).drop_last() == s0.totals.take(j as int));
            assert(s0.totals.take(j + 1).last() == s0.totals[j as int]);
            if self.totals[j].0 != fid {
                totals.push(self.totals[j]);
            }
            j += 1;
        }
        assert(s0.totals.take(s0.totals.len() as int) == s0.totals);
        self.ports = ports;
        self.totals = totals;
        proof {
            lemma_retain_props(s0.ports, port_kept(fid));
            lemma_retain_props(s0.totals, total_kept(fid));
        }
    }

    /// After the table is taken down: not available, and every forward,
    /// flow and total forgotten; whether the first poll was made stays as
    /// it was.
    pub fn cleanup(&mut self)
        ensures
            !final(self)@.initialized,
            final(self)@.ports.len() == 0,
            final(self)@.flows.len() == 0,
            final(self)@.totals.len() == 0,
            final(self)@.bootstrapped == old(self)@.bootstrapped,
            accounting_wf(final(self)@),
    {
        self.initialized = false;
        self.ports = Vec::new();
        self.flows = Vec::new();
        self.totals = Vec::new();
        assert(flows_view(self.flows@) =~= Seq::<(Seq<char>, Bytes)>::empty());
    }

    /// One poll over the connection-tracking table `table`; returns the
    /// totals after it.
    pub fn get_counters(&mut self, table: &str) -> (r: Vec<CounterSnapshot>)
        requires
            accounting_wf(old(self)@),
        ensures
            final(self)@ == polled(old(self)@, table_entries(table@)),
            accounting_wf(final(self)@),
            grown(old(self)@.totals, final(self)@.totals),
            lists_totals(r@, final(self)@.totals),
    {
        let entries = parse_conntrack_table(table);
        self.poll(&entries);
        self.snapshot_cumulative()
    }

    /// The totals of every forward, in the order the forwards were added.
    pub fn snapshot_cumulative(&self) -> (r: Vec<CounterSnapshot>)
        ensures
            lists_totals(r@, self@.totals),
    {
        let mut out: Vec<CounterSnapshot> = Vec::new();
        let mut i: usize = 0;
        while i < self.totals.len()
            invariant
                i <= self.totals.len(),
                out@.len() == i,
                forall|k: int|
                    0 <= k < i ==> (#[trigger] out@[k]).forward_id == self.totals@[k].0 && out@[k].bytes_in == (
                    self.totals@[k].1).0 && out@[k].bytes_out == (self.totals@[k].1).1,
            decreases self.totals.len() - i,
        {
            let p = self.totals[i];
            out.push(CounterSnapshot { forward_id: p.0, bytes_in: (p.1).0, bytes_out: (p.1).1 });
            i += 1;
        }
        out
    }
}

} // verus!
