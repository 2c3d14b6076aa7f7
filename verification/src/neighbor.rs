//! A node's bookkeeping of its neighbors' probes: which neighbors to probe,
//! failures in a row, and whether a neighbor has a round-trip sample to
//! report. The smoothed round-trip value itself is kept by the caller.
use vstd::prelude::*;
use crate::assoc::{absent, find, keys_unique, last_at, lemma_find_absent, lemma_find_at_last, retain};

verus! {

/// Failures in a row after which a neighbor's sample is no longer reported.
pub const NEIGHBOR_FAIL_THRESHOLD: u32 = 3;

/// What is kept of a neighbor: failures in a row, and whether it has a sample.
pub type NeighborStat = (u32, bool);

/// A neighbor never heard of: no failures, no sample.
pub open spec fn fresh_stat() -> NeighborStat {
    (0, false)
}

/// The stat of `id`; a fresh one when it has none.
pub open spec fn stat_of(v: Seq<(Seq<char>, NeighborStat)>, id: Seq<char>) -> NeighborStat {
    match find(v, id) {
        Some(s) => s,
        None => fresh_stat(),
    }
}

/// After an answer: no failures, a sample.
pub open spec fn after_ok(s: NeighborStat) -> NeighborStat {
    (0, true)
}

/// After a failure: one more failure (saturating); the sample is dropped
/// once the failures reach `NEIGHBOR_FAIL_THRESHOLD`.
pub open spec fn after_fail(s: NeighborStat) -> NeighborStat {
    let f = if s.0 == u32::MAX {
        u32::MAX
    } else {
        (s.0 + 1) as u32
    };
    (f, if f >= NEIGHBOR_FAIL_THRESHOLD {
        false
    } else {
        s.1
    })
}

pub open spec fn known_pred(known: Seq<Seq<char>>) -> spec_fn((Seq<char>, NeighborStat)) -> bool {
    |e: (Seq<char>, NeighborStat)| known.contains(e.0)
}

pub open spec fn sampled_pred() -> spec_fn((Seq<char>, NeighborStat)) -> bool {
    |e: (Seq<char>, NeighborStat)| e.1.1
}

/// The neighbors of one probe round: every `(id, addr)` other than this
/// node and other than those without an address, in order.
pub open spec fn probe_targets_of(self_id: Seq<char>, ns: Seq<(Seq<char>, Seq<char>)>) -> Seq<
    (Seq<char>, Seq<char>),
>
    decreases ns.len(),
{
    if ns.len() == 0 {
        Seq::empty()
    } else {
        let r = probe_targets_of(self_id, ns.drop_last());
        if ns.last().0 != self_id && ns.last().1.len() > 0 {
            r.push(ns.last())
        } else {
            r
        }
    }
}

/// The probe bookkeeping of every neighbor.
pub struct NeighborBook {
    stats: Vec<(String, (u32, bool))>,
}

pub open spec fn book_view(s: Seq<(String, (u32, bool))>) -> Seq<(Seq<char>, NeighborStat)> {
    s.map_values(|e: (String, (u32, bool))| (e.0@, e.1))
}

impl NeighborBook {
    pub closed spec fn view_of(&self) -> Seq<(Seq<char>, NeighborStat)> {
        book_view(self.stats@)
    }

    /// No neighbor occurs twice.
    pub open spec fn wf(&self) -> bool {
        keys_unique(self.view_of())
    }

    pub fn new() -> (b: Self)
        ensures
            b.wf(),
            b.view_of().len() == 0,
    {
        let b = NeighborBook { stats: Vec::new() };
        assert(b.view_of() =~= Seq::<(Seq<char>, NeighborStat)>::empty());
        b
    }

    fn index_of(&self, id: &str) -> (r: Option<usize>)
        ensures
            r matches Some(i) ==> last_at(self.view_of(), id@, i as int),
            r is None ==> absent(self.view_of(), id@),
    {
        let ghost v = self.view_of();
        let key = String::from_str(id);
        let mut i = self.stats.len();
        while i > 0
            invariant
                v == book_view(self.stats@),
                key@ == id@,
                i <= self.stats.len(),
                forall|t: int| i <= t < self.stats.len() ==> #[trigger] v[t].0 != id@,
            decreases i,
        {
            i -= 1;
            if self.stats[i].0 == key {
                return Some(i);
            }
        }
        None
    }

    /// The stat of `id`.
    pub fn get(&self, id: &str) -> (r: NeighborStat)
        ensures
            r == stat_of(self.view_of(), id@),
    {
        match self.index_of(id) {
            Some(i) => {
                proof {
                    lemma_find_at_last(self.view_of(), id@, i as int);
                }
                self.stats[i].1
            },
            None => {
                proof {
                    lemma_find_absent::<Seq<char>, NeighborStat>(self.view_of(), id@);
                }
                (0, false)
            },
        }
    }

    fn set(&mut self, id: &str, st: NeighborStat)
        requires
            old(self).wf(),
        ensures
            final(self).wf(),
            forall|q: Seq<char>| #[trigger] stat_of(final(self).view_of(), q) == if q == id@ {
                st
            } else {
                stat_of(old(self).view_of(), q)
            },
    {
        let ghost s0 = self.view_of();
        match self.index_of(id) {
            Some(i) => {
                let ghost prev = self.stats@;
                self.stats.set(i, (String::from_str(id), st));
                proof {
                    assert(book_view(self.stats@) =~= s0.update(i as int, (id@, st)));
                    assert forall|a: int, b: int| 0 <= a < b < book_view(self.stats@).len() implies
                        #[trigger] book_view(self.stats@)[a].0 != #[trigger] book_view(self.stats@)[b].0 by {
                        assert(s0[a].0 != s0[b].0);
                    }
                    assert forall|q: Seq<char>| #[trigger] stat_of(book_view(self.stats@), q) == if q == id@ {
                        st
                    } else {
                        stat_of(s0, q)
                    } by {
                        crate::assoc::lemma_find_update_last(s0, id@, i as int, st, q);
                    }
                }
            },
            None => {
                self.stats.push((String::from_str(id), st));
                proof {
                    assert(book_view(self.stats@) =~= s0.push((id@, st)));
                    assert forall|a: int, b: int| 0 <= a < b < book_view(self.stats@).len() implies
                        #[trigger] book_view(self.stats@)[a].0 != #[trigger] book_view(self.stats@)[b].0 by {
                        if b < s0.len() {
                            assert(s0[a].0 != s0[b].0);
                        }
                    }
                    assert forall|q: Seq<char>| #[trigger] stat_of(book_view(self.stats@), q) == if q == id@ {
                        st
                    } else {
                        stat_of(s0, q)
                    } by {
                        crate::assoc::lemma_find_push(s0, id@, st, q);
                    }
                }
            },
        }
    }

    /// Records an answer of `peer`; returns whether it had a sample before
    /// (the caller smooths the new round trip into it, else takes it as is).
    pub fn record_ok(&mut self, peer: &str) -> (had_sample: bool)
        requires
            old(self).wf(),
        ensures
            final(self).wf(),
            had_sample == stat_of(old(self).view_of(), peer@).1,
            forall|q: Seq<char>| #[trigger] stat_of(final(self).view_of(), q) == if q == peer@ {
                after_ok(stat_of(old(self).view_of(), q))
            } else {
                stat_of(old(self).view_of(), q)
            },
    {
        let s = self.get(peer);
        self.set(peer, (0, true));
        s.1
    }

    /// Records a failed probe of `peer`.
    pub fn record_fail(&mut self, peer: &str)
        requires
            old(self).wf(),
        ensures
            final(self).wf(),
            forall|q: Seq<char>| #[trigger] stat_of(final(self).view_of(), q) == if q == peer@ {
                after_fail(stat_of(old(self).view_of(), q))
            } else {
                stat_of(old(self).view_of(), q)
            },
    {
        let s = self.get(peer);
        let f: u32 = if s.0 == u32::MAX {
            u32::MAX
        } else {
            s.0 + 1
        };
        let keep = if f >= NEIGHBOR_FAIL_THRESHOLD {
            false
        } else {
            s.1
        };
        self.set(peer, (f, keep));
    }

    /// Forgets the neighbors whose ids are not in `known`.
    pub fn gc_unknown(&mut self, known: &Vec<String>)
        requires
            old(self).wf(),
        ensures
            final(self).wf(),
            final(self).view_of() == retain(old(self).view_of(), known_pred(known.deep_view())),
    {
        let ghost s = self.view_of();
        let ghost p = known_pred(known.deep_view());
        let mut kept: Vec<(String, (u32, bool))> = Vec::new();
        let mut i: usize = 0;
        while i < self.stats.len()
            invariant
                s == book_view(self.stats@),
                p == known_pred(known.deep_view()),
                i <= self.stats.len(),
                book_view(kept@) == retain(s.take(i as int), p),
            decreases self.stats.len() - i,
        {
            assert(s.take(i + 1).drop_last() == s.take(i as int));
            assert(s.take(i + 1).last() == s[i as int]);
            if contains_id(known, &self.stats[i].0) {
                let ghost prev = kept@;
                kept.push((self.stats[i].0.clone(), self.stats[i].1));
                assert(book_view(kept@) =~= book_view(prev).push(s[i as int]));
            }
            i += 1;
        }
        assert(s.take(self.stats.len() as int) == s);
        proof {
            crate::assoc::lemma_retain_props(s, p);
        }
        self.stats = kept;
    }

    /// The neighbors with a sample to report, in the order first heard of.
    pub fn sampled(&self) -> (r: Vec<String>)
        ensures
            r.deep_view() == retain(self.view_of(), sampled_pred()).map_values(
                |e: (Seq<char>, NeighborStat)| e.0,
            ),
    {
        let ghost s = self.view_of();
        let mut out: Vec<String> = Vec::new();
        let mut i: usize = 0;
        while i < self.stats.len()
            invariant
                s == book_view(self.stats@),
                i <= self.stats.len(),
                out.deep_view() == retain(s.take(i as int), sampled_pred()).map_values(
                    |e: (Seq<char>, NeighborStat)| e.0,
                ),
            decreases self.stats.len() - i,
        {
            assert(s.take(i + 1).drop_last() == s.take(i as int));
            assert(s.take(i + 1).last() == s[i as int]);
            if self.stats[i].1.1 {
                let ghost prev = out.deep_view();
                out.push(self.stats[i].0.clone());
                assert(out.deep_view() =~= prev.push(s[i as int].0));
            }
            i += 1;
        }
        assert(s.take(self.stats.len() as int) == s);
        out
    }
}

fn contains_id(known: &Vec<String>, id: &String) -> (r: bool)
    ensures
        r == known.deep_view().contains(id@),
{
    let ghost k = known.deep_view();
    let mut i: usize = 0;
    while i < known.len()
        invariant
            k == known.deep_view(),
            i <= known.len(),
            forall|t: int| 0 <= t < i ==> k[t] != id@,
        decreases known.len() - i,
    {
        assert(k[i as int] == known@[i as int]@);
        if known[i] == *id {
            assert(k[i as int] == id@);
            return true;
        }
        i += 1;
    }
    false
}

/// The neighbors to probe this round: every `(id, addr)` but this node and
/// those without an address.
pub fn probe_targets(self_id: &str, neighbors: &Vec<(String, String)>) -> (r: Vec<(String, String)>)
    ensures
        r.deep_view() == probe_targets_of(self_id@, neighbors.deep_view()),
{
    let ghost ns = neighbors.deep_view();
    let me = String::from_str(self_id);
    let mut out: Vec<(String, String)> = Vec::new();
    let mut i: usize = 0;
    while i < neighbors.len()
        invariant
            ns == neighbors.deep_view(),
            me@ == self_id@,
            i <= neighbors.len(),
            out.deep_view() == probe_targets_of(self_id@, ns.take(i as int)),
        decreases neighbors.len() - i,
    {
        assert(ns.take(i + 1).drop_last() == ns.take(i as int));
        assert(ns.take(i + 1).last() == ns[i as int]);
        assert(ns[i as int] == (neighbors@[i as int].0@, neighbors@[i as int].1@));
        let n = &neighbors[i];
        if !(n.0 == me) && n.1.as_str().unicode_len() > 0 {
            let ghost prev = out.deep_view();
            out.push((n.0.clone(), n.1.clone()));
            assert(out.deep_view() =~= prev.push(ns[i as int]));
        }
        i += 1;
    }
    assert(ns.take(neighbors.len() as int) == ns);
    out
}

/// A neighbor's sample survives fewer than `NEIGHBOR_FAIL_THRESHOLD` failures
/// in a row, is dropped by the failure that reaches it, and comes back with
/// the next answer.
pub proof fn law_neighbor_failures(s: NeighborStat)
    requires
        s.0 == 0,
    ensures
        after_fail(s).1 == s.1,
        after_fail(after_fail(s)).1 == s.1,
        !after_fail(after_fail(after_fail(s))).1,
        after_ok(after_fail(after_fail(after_fail(s)))) == (0u32, true),
{
}

} // verus!
