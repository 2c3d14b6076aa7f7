//! The master's node-to-node latency matrix: each node reports its row
//! (`from → {to: rtt_ms}`) in its heartbeat; the master keeps the latest
//! sample of every edge, skips samples older than the TTL when read, and
//! drops them in garbage collection.
use vstd::prelude::*;
use crate::assoc::{
    absent, find, keys_unique, last_at, lemma_find_absent, lemma_find_at_last, lemma_find_push,
    lemma_find_retain, lemma_find_update_last, lemma_retain_props, retain,
};
use crate::clock::{elapsed_ms, instant_now};

verus! {

pub type EdgeKey = (Seq<char>, Seq<char>);

/// A sample: its round-trip time and when it was recorded.
pub type EdgeVal = (u32, u64);

/// Whether a sample recorded at `at` is still fresh at `now` under `ttl`
/// (a sample from the future counts as just taken).
pub open spec fn fresh(now: u64, at: u64, ttl: u64) -> bool {
    (if now >= at {
        now - at
    } else {
        0
    }) <= ttl
}

pub open spec fn fresh_pred(now: u64, ttl: u64) -> spec_fn((EdgeKey, EdgeVal)) -> bool {
    |e: (EdgeKey, EdgeVal)| fresh(now, e.1.1, ttl)
}

pub open spec fn not_touching(id: Seq<char>) -> spec_fn((EdgeKey, EdgeVal)) -> bool {
    |e: (EdgeKey, EdgeVal)| e.0.0 != id && e.0.1 != id
}

/// The sample of edge `from → to`, if any.
pub open spec fn edge(s: Seq<(EdgeKey, EdgeVal)>, from: Seq<char>, to: Seq<char>) -> Option<EdgeVal> {
    find(s, (from, to))
}

/// The edge `from → to` after recording row `neighbors` of `from` at `now`.
pub open spec fn recorded(
    s: Seq<(EdgeKey, EdgeVal)>,
    from: Seq<char>,
    neighbors: Seq<(Seq<char>, u32)>,
    now: u64,
    f: Seq<char>,
    t: Seq<char>,
) -> Option<EdgeVal> {
    if f == from && t.len() > 0 && t != from && find(neighbors, t) is Some {
        Some((find(neighbors, t)->0, now))
    } else {
        edge(s, f, t)
    }
}

/// `after` is `before` with row `neighbors` of `from` recorded at `now`.
pub open spec fn row_recorded(
    before: Seq<(EdgeKey, EdgeVal)>,
    after: Seq<(EdgeKey, EdgeVal)>,
    from: Seq<char>,
    neighbors: Seq<(Seq<char>, u32)>,
    now: u64,
) -> bool {
    forall|f: Seq<char>, t: Seq<char>| #[trigger] edge(after, f, t) == recorded(before, from, neighbors, now, f, t)
}

/// `after` keeps exactly the samples of `before` that are fresh at `now`.
pub open spec fn collected(
    before: Seq<(EdgeKey, EdgeVal)>,
    after: Seq<(EdgeKey, EdgeVal)>,
    now: u64,
    ttl: u64,
) -> bool {
    forall|f: Seq<char>, t: Seq<char>| #[trigger] edge(after, f, t) == match edge(before, f, t) {
        Some(e) => if fresh(now, e.1, ttl) {
            Some(e)
        } else {
            None
        },
        None => None,
    }
}

/// `r` lists exactly the samples of `s` that are fresh at `now`.
pub open spec fn dumped(s: Seq<(EdgeKey, EdgeVal)>, r: Seq<(Seq<char>, Seq<char>, u32)>, now: u64, ttl: u64) -> bool {
    forall|f: Seq<char>, t: Seq<char>, v: u32| #[trigger] r.contains((f, t, v))
        <==> (edge(s, f, t) is Some && edge(s, f, t).unwrap().0 == v && fresh(now, edge(s, f, t).unwrap().1, ttl))
}

/// The fresh samples from `from` to each of `to_ids` other than itself, in order.
pub open spec fn row_of(
    s: Seq<(EdgeKey, EdgeVal)>,
    from: Seq<char>,
    to_ids: Seq<Seq<char>>,
    now: u64,
    ttl: u64,
) -> Seq<(Seq<char>, u32)>
    decreases to_ids.len(),
{
    if to_ids.len() == 0 {
        Seq::empty()
    } else {
        let prev = row_of(s, from, to_ids.drop_last(), now, ttl);
        let to = to_ids.last();
        if to != from && edge(s, from, to) is Some && fresh(now, edge(s, from, to).unwrap().1, ttl) {
            prev.push((to, edge(s, from, to).unwrap().0))
        } else {
            prev
        }
    }
}

/// Node-to-node round-trip times, kept in memory only.
pub struct LatencyMatrix {
    edges: Vec<((String, String), (u32, u64))>,
    ttl_ms: u64,
    origin: std::time::Instant,
}

impl LatencyMatrix {
    pub closed spec fn edges_view(&self) -> Seq<(EdgeKey, EdgeVal)> {
        self.edges.deep_view()
    }

    pub closed spec fn ttl(&self) -> u64 {
        self.ttl_ms
    }

    /// No edge occurs twice.
    pub closed spec fn wf(&self) -> bool {
        keys_unique(self.edges.deep_view())
    }

    /// An empty matrix whose samples stay fresh for `ttl_ms` milliseconds.
    pub fn new(ttl_ms: u64) -> (m: Self)
        ensures
            m.wf(),
            m.edges_view().len() == 0,
            m.ttl() == ttl_ms,
    {
        LatencyMatrix { edges: Vec::new(), ttl_ms, origin: instant_now() }
    }

    /// Milliseconds since the matrix was made, on the monotonic clock.
    pub fn now_ms(&self) -> (r: u64) {
        elapsed_ms(&self.origin)
    }

    fn upsert(&mut self, from: &String, to: &String, rtt: u32, now: u64)
        requires
            old(self).wf(),
        ensures
            final(self).wf(),
            final(self).ttl_ms == old(self).ttl_ms,
            forall|f: Seq<char>, t: Seq<char>| #[trigger] edge(final(self).edges_view(), f, t) == if f
                == from@ && t == to@ {
                Some((rtt, now))
            } else {
                edge(old(self).edges_view(), f, t)
            },
    {
        let ghost s = self.edges.deep_view();
        let ghost k = (from@, to@);
        let key = (from.clone(), to.clone());
        match find_edge(&self.edges, from, to) {
            Some(i) => {
                self.edges.set(i, (key, (rtt, now)));
                proof {
                    assert(self.edges.deep_view() =~= s.update(i as int, (k, (rtt, now))));
                    assert(keys_unique(self.edges.deep_view())) by {
                        let u = self.edges.deep_view();
                        assert forall|a: int, b: int| 0 <= a < b < u.len() implies #[trigger] u[a].0
                            != #[trigger] u[b].0 by {
                            assert(s[a].0 != s[b].0);
                        }
                    }
                    assert forall|f: Seq<char>, t: Seq<char>| #[trigger] edge(
                        self.edges.deep_view(),
                        f,
                        t,
                    ) == if f == from@ && t == to@ {
                        Some((rtt, now))
                    } else {
                        edge(s, f, t)
                    } by {
                        lemma_find_update_last(s, k, i as int, (rtt, now), (f, t));
                    }
                }
            },
            None => {
                self.edges.push((key, (rtt, now)));
                proof {
                    assert(self.edges.deep_view() =~= s.push((k, (rtt, now))));
                    assert(keys_unique(self.edges.deep_view())) by {
                        let u = self.edges.deep_view();
                        assert forall|a: int, b: int| 0 <= a < b < u.len() implies #[trigger] u[a].0
                            != #[trigger] u[b].0 by {
                            if b < s.len() {
                                assert(s[a].0 != s[b].0);
                            }
                        }
                    }
                    assert forall|f: Seq<char>, t: Seq<char>| #[trigger] edge(
                        self.edges.deep_view(),
                        f,
                        t,
                    ) == if f == from@ && t == to@ {
                        Some((rtt, now))
                    } else {
                        edge(s, f, t)
                    } by {
                        lemma_find_push(s, k, (rtt, now), (f, t));
                    }
                }
            },
        }
    }

    /// Records row `neighbors` of node `from`, taken at `now_ms`; entries
    /// for an empty id or for `from` itself are skipped, and a later entry
    /// for a node overrides an earlier one.
    pub fn record_row_at(&mut self, from: &str, neighbors: &Vec<(String, u32)>, now_ms: u64)
        requires
            old(self).wf(),
        ensures
            final(self).wf(),
            final(self).ttl() == old(self).ttl(),
            forall|f: Seq<char>, t: Seq<char>| #[trigger] edge(final(self).edges_view(), f, t)
                == recorded(old(self).edges_view(), from@, neighbors.deep_view(), now_ms, f, t),
    {
        let ghost s0 = self.edges.deep_view();
        let ghost nb = neighbors.deep_view();
        let from_s = String::from_str(from);
        let mut i: usize = 0;
        while i < neighbors.len()
            invariant
                self.wf(),
                self.ttl_ms == old(self).ttl_ms,
                s0 == old(self).edges.deep_view(),
                nb == neighbors.deep_view(),
                from_s@ == from@,
                i <= neighbors.len(),
                forall|f: Seq<char>, t: Seq<char>| #[trigger] edge(self.edges.deep_view(), f, t)
                    == recorded(s0, from@, nb.take(i as int), now_ms, f, t),
            decreases neighbors.len() - i,
        {
            let ghost before = self.edges.deep_view();
            let to = &neighbors[i].0;
            let rtt = neighbors[i].1;
            proof {
                assert(nb.take(i + 1).drop_last() == nb.take(i as int));
                assert(nb.take(i + 1).last() == nb[i as int]);
                assert forall|t: Seq<char>| #[trigger] find(nb.take(i + 1), t) == if t == to@ {
                    Some(rtt)
                } else {
                    find(nb.take(i as int), t)
                } by {}
            }
            if to.as_str().unicode_len() > 0 && !(*to == from_s) {
                self.upsert(&from_s, to, rtt, now_ms);
            }
            i += 1;
        }
        assert(nb.take(neighbors.len() as int) == nb);
    }

    /// Records row `neighbors` of node `from`, taken now.
    pub fn record_row(&mut self, from: &str, neighbors: &Vec<(String, u32)>)
        requires
            old(self).wf(),
        ensures
            final(self).wf(),
            final(self).ttl() == old(self).ttl(),
            exists|now: u64| #[trigger]
                row_recorded(old(self).edges_view(), final(self).edges_view(), from@, neighbors.deep_view(), now),
    {
        let now = self.now_ms();
        self.record_row_at(from, neighbors, now);
        assert(row_recorded(old(self).edges_view(), self.edges_view(), from@, neighbors.deep_view(), now));
    }

    /// The fresh round-trip times from `from` to each of `to_ids` (itself
    /// left out) at `now_ms`.
    pub fn row_at(&self, from: &str, to_ids: &Vec<String>, now_ms: u64) -> (r: Vec<(String, u32)>)
        requires
            self.wf(),
        ensures
            r.deep_view() == row_of(self.edges_view(), from@, to_ids.deep_view(), now_ms, self.ttl()),
    {
        let ghost s = self.edges.deep_view();
        let ghost ids = to_ids.deep_view();
        let from_s = String::from_str(from);
        let mut out: Vec<(String, u32)> = Vec::new();
        let mut i: usize = 0;
        while i < to_ids.len()
            invariant
                s == self.edges.deep_view(),
                ids == to_ids.deep_view(),
                from_s@ == from@,
                i <= to_ids.len(),
                out.deep_view() == row_of(s, from@, ids.take(i as int), now_ms, self.ttl_ms),
            decreases to_ids.len() - i,
        {
            assert(ids.take(i + 1).drop_last() == ids.take(i as int));
            assert(ids.take(i + 1).last() == ids[i as int]);
            let to = &to_ids[i];
            if !(*to == from_s) {
                let hit = find_edge(&self.edges, &from_s, to);
                proof {
                    if hit is None {
                        lemma_find_absent::<EdgeKey, EdgeVal>(s, (from@, to@));
                    }
                }
                match hit {
                    Some(k) => {
                        proof {
                            lemma_find_at_last(s, (from@, to@), k as int);
                        }
                        let (rtt, at) = self.edges[k].1;
                        let age = if now_ms >= at {
                            now_ms - at
                        } else {
                            0
                        };
                        if age <= self.ttl_ms {
                            let ghost prev = out.deep_view();
                            out.push((to.clone(), rtt));
                            assert(out.deep_view() =~= prev.push((to@, rtt)));
                        }
                    },
                    None => {},
                }
            }
            i += 1;
        }
        assert(ids.take(to_ids.len() as int) == ids);
        out
    }

    /// The fresh round-trip times from `from` to each of `to_ids`, now.
    pub fn row(&self, from: &str, to_ids: &Vec<String>) -> (r: Vec<(String, u32)>)
        requires
            self.wf(),
        ensures
            exists|now: u64| r.deep_view() == #[trigger] row_of(self.edges_view(), from@, to_ids.deep_view(), now, self.ttl()),
    {
        let now = self.now_ms();
        self.row_at(from, to_ids, now)
    }

    /// Forgets every edge from or to `node_id` (the node went offline).
    pub fn drop_node(&mut self, node_id: &str)
        requires
            old(self).wf(),
        ensures
            final(self).wf(),
            final(self).ttl() == old(self).ttl(),
            forall|f: Seq<char>, t: Seq<char>| #[trigger] edge(final(self).edges_view(), f, t)
                == if f == node_id@ || t == node_id@ {
                None
            } else {
                edge(old(self).edges_view(), f, t)
            },
    {
        let ghost s = self.edges.deep_view();
        let ghost p = not_touching(node_id@);
        let id = String::from_str(node_id);
        let mut kept: Vec<((String, String), (u32, u64))> = Vec::new();
        let mut i: usize = 0;
        while i < self.edges.len()
            invariant
                s == self.edges.deep_view(),
                p == not_touching(node_id@),
                id@ == node_id@,
                i <= self.edges.len(),
                kept.deep_view() == retain(s.take(i as int), p),
            decreases self.edges.len() - i,
        {
            assert(s.take(i + 1).drop_last() == s.take(i as int));
            assert(s.take(i + 1).last() == s[i as int]);
            if !(self.edges[i].0.0 == id) && !(self.edges[i].0.1 == id) {
                let ghost prev = kept.deep_view();
                let e = ((self.edges[i].0.0.clone(), self.edges[i].0.1.clone()), self.edges[i].1);
                kept.push(e);
                assert(kept.deep_view() =~= prev.push(s[i as int]));
            }
            i += 1;
        }
        assert(s.take(self.edges.len() as int) == s);
        proof {
            lemma_retain_props(s, p);
            assert forall|f: Seq<char>, t: Seq<char>| #[trigger] edge(retain(s, p), f, t) == if f
                == node_id@ || t == node_id@ {
                None
            } else {
                edge(s, f, t)
            } by {
                lemma_find_retain(s, p, (f, t));
            }
        }
        self.edges = kept;
    }

    /// Drops the samples that are stale at `now_ms` and returns how many.
    pub fn gc_at(&mut self, now_ms: u64) -> (removed: usize)
        requires
            old(self).wf(),
        ensures
            final(self).wf(),
            final(self).ttl() == old(self).ttl(),
            forall|f: Seq<char>, t: Seq<char>| #[trigger] edge(final(self).edges_view(), f, t)
                == match edge(old(self).edges_view(), f, t) {
                Some(e) => if fresh(now_ms, e.1, old(self).ttl()) {
                    Some(e)
                } else {
                    None
                },
                None => None,
            },
            removed == old(self).edges_view().len() - final(self).edges_view().len(),
    {
        let ghost s = self.edges.deep_view();
        let ghost p = fresh_pred(now_ms, self.ttl_ms);
        let mut kept: Vec<((String, String), (u32, u64))> = Vec::new();
        let mut i: usize = 0;
        while i < self.edges.len()
            invariant
                s == self.edges.deep_view(),
                p == fresh_pred(now_ms, self.ttl_ms),
                i <= self.edges.len(),
                kept.deep_view() == retain(s.take(i as int), p),
                kept.len() <= i,
            decreases self.edges.len() - i,
        {
            assert(s.take(i + 1).drop_last() == s.take(i as int));
            assert(s.take(i + 1).last() == s[i as int]);
            let at = self.edges[i].1.1;
            let age = if now_ms >= at {
                now_ms - at
            } else {
                0
            };
            if age <= self.ttl_ms {
                let ghost prev = kept.deep_view();
                let e = ((self.edges[i].0.0.clone(), self.edges[i].0.1.clone()), self.edges[i].1);
                kept.push(e);
                assert(kept.deep_view() =~= prev.push(s[i as int]));
            }
            i += 1;
        }
        assert(s.take(self.edges.len() as int) == s);
        proof {
            lemma_retain_props(s, p);
            assert forall|f: Seq<char>, t: Seq<char>| #[trigger] edge(retain(s, p), f, t)
                == match edge(s, f, t) {
                Some(e) => if fresh(now_ms, e.1, self.ttl_ms) {
                    Some(e)
                } else {
                    None
                },
                None => None,
            } by {
                lemma_find_retain(s, p, (f, t));
            }
        }
        let removed = self.edges.len() - kept.len();
        self.edges = kept;
        removed
    }

    /// Drops the samples that are stale now and returns how many.
    pub fn gc(&mut self) -> (removed: usize)
        requires
            old(self).wf(),
        ensures
            final(self).wf(),
            final(self).ttl() == old(self).ttl(),
            removed == old(self).edges_view().len() - final(self).edges_view().len(),
            exists|now: u64| #[trigger] collected(old(self).edges_view(), final(self).edges_view(), now, old(self).ttl()),
    {
        let now = self.now_ms();
        let r = self.gc_at(now);
        assert(collected(old(self).edges_view(), self.edges_view(), now, old(self).ttl()));
        r
    }

    /// Every fresh edge at `now_ms` as `(from, to, rtt_ms)`.
    pub fn dump_at(&self, now_ms: u64) -> (r: Vec<(String, String, u32)>)
        requires
            self.wf(),
        ensures
            forall|f: Seq<char>, t: Seq<char>, v: u32| #[trigger] r.deep_view().contains((f, t, v))
                <==> (edge(self.edges_view(), f, t) is Some && edge(self.edges_view(), f, t).unwrap().0 == v
                && fresh(now_ms, edge(self.edges_view(), f, t).unwrap().1, self.ttl())),
    {
        let ghost s = self.edges.deep_view();
        let ghost p = fresh_pred(now_ms, self.ttl_ms);
        let mut out: Vec<(String, String, u32)> = Vec::new();
        let mut i: usize = 0;
        while i < self.edges.len()
            invariant
                s == self.edges.deep_view(),
                p == fresh_pred(now_ms, self.ttl_ms),
                i <= self.edges.len(),
                out.deep_view() == retain(s.take(i as int), p).map_values(
                    |e: (EdgeKey, EdgeVal)| (e.0.0, e.0.1, e.1.0),
                ),
            decreases self.edges.len() - i,
        {
            assert(s.take(i + 1).drop_last() == s.take(i as int));
            assert(s.take(i + 1).last() == s[i as int]);
            let at = self.edges[i].1.1;
            let age = if now_ms >= at {
                now_ms - at
            } else {
                0
            };
            if age <= self.ttl_ms {
                let ghost prev = out.deep_view();
                out.push((self.edges[i].0.0.clone(), self.edges[i].0.1.clone(), self.edges[i].1.0));
                assert(out.deep_view() =~= prev.push((s[i as int].0.0, s[i as int].0.1, s[i as int].1.0)));
            }
            i += 1;
        }
        assert(s.take(self.edges.len() as int) == s);
        proof {
            lemma_retain_props(s, p);
            let rs = retain(s, p);
            assert forall|f: Seq<char>, t: Seq<char>, v: u32| #[trigger] out.deep_view().contains(
                (f, t, v),
            ) <==> (edge(s, f, t) is Some && edge(s, f, t).unwrap().0 == v && fresh(
                now_ms,
                edge(s, f, t).unwrap().1,
                self.ttl_ms,
            )) by {
                lemma_find_retain(s, p, (f, t));
                if out.deep_view().contains((f, t, v)) {
                    let k = choose|k: int| 0 <= k < out.deep_view().len() && out.deep_view()[k] == (
                        f,
                        t,
                        v,
                    );
                    assert(rs.contains(rs[k]));
                    crate::assoc::lemma_find_unique(rs, k);
                }
                if edge(s, f, t) is Some && edge(s, f, t).unwrap().0 == v && fresh(
                    now_ms,
                    edge(s, f, t).unwrap().1,
                    self.ttl_ms,
                ) {
                    let e = edge(rs, f, t)->0;
                    lemma_find_some_index(rs, (f, t));
                    let k = choose|k: int| 0 <= k < rs.len() && rs[k] == ((f, t), e);
                    assert(out.deep_view()[k] == (f, t, v));
                }
            }
        }
        out
    }

    /// Every fresh edge now as `(from, to, rtt_ms)`.
    pub fn dump(&self) -> (r: Vec<(String, String, u32)>)
        requires
            self.wf(),
        ensures
            exists|now: u64| #[trigger] dumped(self.edges_view(), r.deep_view(), now, self.ttl()),
    {
        let now = self.now_ms();
        let r = self.dump_at(now);
        assert(dumped(self.edges_view(), r.deep_view(), now, self.ttl()));
        r
    }
}

fn find_edge(edges: &Vec<((String, String), (u32, u64))>, from: &String, to: &String) -> (r: Option<
    usize,
>)
    ensures
        r matches Some(i) ==> last_at(edges.deep_view(), (from@, to@), i as int),
        r is None ==> absent(edges.deep_view(), (from@, to@)),
{
    let ghost s = edges.deep_view();
    let mut i = edges.len();
    while i > 0
        invariant
            s == edges.deep_view(),
            i <= edges.len(),
            forall|t: int| i <= t < edges.len() ==> #[trigger] s[t].0 != (from@, to@),
        decreases i,
    {
        i -= 1;
        if edges[i].0.0 == *from && edges[i].0.1 == *to {
            return Some(i);
        }
    }
    None
}

/// A key that `find` resolves sits at some position.
proof fn lemma_find_some_index<K, V>(s: Seq<(K, V)>, k: K)
    requires
        find(s, k) is Some,
    ensures
        exists|i: int| 0 <= i < s.len() && s[i] == (k, find(s, k)->0),
    decreases s.len(),
{
    if s.last().0 == k {
        assert(s[s.len() - 1] == (k, find(s, k)->0));
    } else {
        lemma_find_some_index(s.drop_last(), k);
        let i = choose|i: int| 0 <= i < s.drop_last().len() && s.drop_last()[i] == (k, find(s.drop_last(), k)->0);
        assert(s[i] == (k, find(s, k)->0));
    }
}


/// A row read at the time of a write gives back what was written: after
/// recording row `neighbors` of `from` at `now`, the row of `from` towards a
/// listed neighbor `t` (not `from` itself, not empty) is its round-trip time.
pub proof fn lemma_row_reads_back(
    before: Seq<(EdgeKey, EdgeVal)>,
    after: Seq<(EdgeKey, EdgeVal)>,
    from: Seq<char>,
    neighbors: Seq<(Seq<char>, u32)>,
    now: u64,
    ttl: u64,
    t: Seq<char>,
)
    requires
        forall|f: Seq<char>, u: Seq<char>| #[trigger] edge(after, f, u) == recorded(before, from, neighbors, now, f, u),
        t.len() > 0,
        t != from,
        find(neighbors, t) is Some,
    ensures
        row_of(after, from, seq![t], now, ttl) == seq![(t, find(neighbors, t)->0)],
{
    assert(edge(after, from, t) == recorded(before, from, neighbors, now, from, t));
    assert(seq![t].drop_last() =~= Seq::<Seq<char>>::empty());
    assert(row_of(after, from, Seq::<Seq<char>>::empty(), now, ttl) == Seq::<(Seq<char>, u32)>::empty());
    assert(Seq::<(Seq<char>, u32)>::empty().push((t, find(neighbors, t)->0)) =~= seq![(t, find(neighbors, t)->0)]);
}

/// Dropping a node leaves no sample from it or to it.
pub proof fn lemma_dropped_node_unreachable(
    after: Seq<(EdgeKey, EdgeVal)>,
    before: Seq<(EdgeKey, EdgeVal)>,
    node: Seq<char>,
    other: Seq<char>,
    now: u64,
    ttl: u64,
)
    requires
        forall|f: Seq<char>, u: Seq<char>| #[trigger] edge(after, f, u) == if f == node || u == node {
            None
        } else {
            edge(before, f, u)
        },
    ensures
        edge(after, node, other) is None,
        edge(after, other, node) is None,
        row_of(after, other, seq![node], now, ttl).len() == 0,
{
    assert(edge(after, node, other) is None);
    assert(edge(after, other, node) is None);
    assert(seq![node].drop_last() =~= Seq::<Seq<char>>::empty());
    assert(seq![node].last() == node);
    assert(row_of(after, other, Seq::<Seq<char>>::empty(), now, ttl).len() == 0);
}

} // verus!
