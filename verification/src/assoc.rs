//! Keyed lists: a sequence of `(key, value)` entries read as a map in which a
//! later entry for a key overrides an earlier one.
use vstd::prelude::*;

verus! {

/// The value that the last entry for `k` carries, if any.
pub open spec fn find<K, V>(s: Seq<(K, V)>, k: K) -> Option<V>
    decreases s.len(),
{
    if s.len() == 0 {
        None
    } else if s.last().0 == k {
        Some(s.last().1)
    } else {
        find(s.drop_last(), k)
    }
}

/// No key occurs twice.
pub open spec fn keys_unique<K, V>(s: Seq<(K, V)>) -> bool {
    forall|i: int, j: int| 0 <= i < j < s.len() ==> #[trigger] s[i].0 != #[trigger] s[j].0
}

/// `i` is the last position of key `k` in `s`.
pub open spec fn last_at<K, V>(s: Seq<(K, V)>, k: K, i: int) -> bool {
    &&& 0 <= i < s.len()
    &&& s[i].0 == k
    &&& forall|t: int| i < t < s.len() ==> #[trigger] s[t].0 != k
}

/// `k` does not occur in `s`.
pub open spec fn absent<K, V>(s: Seq<(K, V)>, k: K) -> bool {
    forall|t: int| 0 <= t < s.len() ==> #[trigger] s[t].0 != k
}

/// The entries of `s` that satisfy `p`, in order.
pub open spec fn retain<K, V>(s: Seq<(K, V)>, p: spec_fn((K, V)) -> bool) -> Seq<(K, V)>
    decreases s.len(),
{
    if s.len() == 0 {
        s
    } else {
        let r = retain(s.drop_last(), p);
        if p(s.last()) {
            r.push(s.last())
        } else {
            r
        }
    }
}

pub proof fn lemma_find_at_last<K, V>(s: Seq<(K, V)>, k: K, i: int)
    requires
        last_at(s, k, i),
    ensures
        find(s, k) == Some(s[i].1),
    decreases s.len(),
{
    if i < s.len() - 1 {
        assert(s.last() == s[s.len() - 1]);
        lemma_find_at_last(s.drop_last(), k, i);
    }
}

pub proof fn lemma_find_absent<K, V>(s: Seq<(K, V)>, k: K)
    requires
        absent(s, k),
    ensures
        find(s, k) == None::<V>,
    decreases s.len(),
{
    if s.len() > 0 {
        assert(s.last() == s[s.len() - 1]);
        lemma_find_absent(s.drop_last(), k);
    }
}

pub proof fn lemma_find_push<K, V>(s: Seq<(K, V)>, k: K, v: V, q: K)
    ensures
        find(s.push((k, v)), q) == if q == k {
            Some(v)
        } else {
            find(s, q)
        },
{
    assert(s.push((k, v)).drop_last() == s);
}

pub proof fn lemma_find_update_last<K, V>(s: Seq<(K, V)>, k: K, i: int, v: V, q: K)
    requires
        last_at(s, k, i),
    ensures
        find(s.update(i, (k, v)), q) == if q == k {
            Some(v)
        } else {
            find(s, q)
        },
    decreases s.len(),
{
    let u = s.update(i, (k, v));
    if i == s.len() - 1 {
        assert(u.drop_last() == s.drop_last());
    } else {
        assert(u.drop_last() == s.drop_last().update(i, (k, v)));
        assert(s.last() == s[s.len() - 1]);
        lemma_find_update_last(s.drop_last(), k, i, v, q);
    }
}

/// Under unique keys, the entry at position `i` is what `find` gives for its key.
pub proof fn lemma_find_unique<K, V>(s: Seq<(K, V)>, i: int)
    requires
        keys_unique(s),
        0 <= i < s.len(),
    ensures
        find(s, s[i].0) == Some(s[i].1),
{
    assert forall|t: int| i < t < s.len() implies #[trigger] s[t].0 != s[i].0 by {
        assert(s[i].0 != s[t].0);
    }
    lemma_find_at_last(s, s[i].0, i);
}

pub proof fn lemma_retain_props<K, V>(s: Seq<(K, V)>, p: spec_fn((K, V)) -> bool)
    ensures
        forall|e: (K, V)| #[trigger] retain(s, p).contains(e) <==> s.contains(e) && p(e),
        retain(s, p).len() <= s.len(),
        keys_unique(s) ==> keys_unique(retain(s, p)),
    decreases s.len(),
{
    if s.len() > 0 {
        let r0 = retain(s.drop_last(), p);
        lemma_retain_props(s.drop_last(), p);
        assert forall|e: (K, V)| retain(s, p).contains(e) <==> s.contains(e) && p(e) by {
            if s.contains(e) {
                let t = choose|t: int| 0 <= t < s.len() && s[t] == e;
                if t < s.len() - 1 {
                    assert(s.drop_last()[t] == e);
                }
            }
            if s.drop_last().contains(e) {
                let t = choose|t: int| 0 <= t < s.drop_last().len() && s.drop_last()[t] == e;
                assert(s[t] == e);
            }
            if p(s.last()) {
                if r0.push(s.last()).contains(e) {
                    let t = choose|t: int| 0 <= t < r0.push(s.last()).len() && r0.push(s.last())[t] == e;
                    if t < r0.len() {
                        assert(r0[t] == e);
                    }
                }
                if r0.contains(e) {
                    let t = choose|t: int| 0 <= t < r0.len() && r0[t] == e;
                    assert(r0.push(s.last())[t] == e);
                }
                assert(r0.push(s.last())[r0.len() as int] == s.last());
            }
            assert(s[s.len() - 1] == s.last());
        }
        if keys_unique(s) && p(s.last()) {
            assert(keys_unique(s.drop_last())) by {
                assert forall|i: int, j: int| 0 <= i < j < s.drop_last().len() implies
                    #[trigger] s.drop_last()[i].0 != #[trigger] s.drop_last()[j].0 by {
                    assert(s[i].0 != s[j].0);
                }
            }
            let r = r0.push(s.last());
            assert forall|i: int, j: int| 0 <= i < j < r.len() implies #[trigger] r[i].0
                != #[trigger] r[j].0 by {
                if j == r.len() - 1 {
                    assert(r0.contains(r[i]));
                    assert(s.drop_last().contains(r[i]));
                    let t = choose|t: int| 0 <= t < s.drop_last().len() && s.drop_last()[t] == r[i];
                    assert(s[t].0 != s[s.len() - 1].0);
                } else {
                    assert(r[i] == r0[i] && r[j] == r0[j]);
                }
            }
        } else if keys_unique(s) {
            assert(keys_unique(s.drop_last())) by {
                assert forall|i: int, j: int| 0 <= i < j < s.drop_last().len() implies
                    #[trigger] s.drop_last()[i].0 != #[trigger] s.drop_last()[j].0 by {
                    assert(s[i].0 != s[j].0);
                }
            }
        }
    }
}

/// Under unique keys, `retain` keeps a key's value exactly when its entry passes.
pub proof fn lemma_find_retain<K, V>(s: Seq<(K, V)>, p: spec_fn((K, V)) -> bool, q: K)
    requires
        keys_unique(s),
    ensures
        find(retain(s, p), q) == match find(s, q) {
            Some(v) => if p((q, v)) {
                Some(v)
            } else {
                None
            },
            None => None,
        },
    decreases s.len(),
{
    if s.len() > 0 {
        assert(keys_unique(s.drop_last())) by {
            assert forall|i: int, j: int| 0 <= i < j < s.drop_last().len() implies
                #[trigger] s.drop_last()[i].0 != #[trigger] s.drop_last()[j].0 by {
                assert(s[i].0 != s[j].0);
            }
        }
        lemma_find_retain(s.drop_last(), p, q);
        assert(s.last() == s[s.len() - 1]);
        if s.last().0 == q {
            assert(absent(s.drop_last(), q)) by {
                assert forall|t: int| 0 <= t < s.drop_last().len() implies
                    #[trigger] s.drop_last()[t].0 != q by {
                    assert(s[t].0 != s[s.len() - 1].0);
                }
            }
            lemma_find_absent(s.drop_last(), q);
            lemma_retain_props(s.drop_last(), p);
            let r0 = retain(s.drop_last(), p);
            assert(absent(r0, q)) by {
                assert forall|t: int| 0 <= t < r0.len() implies #[trigger] r0[t].0 != q by {
                    assert(r0.contains(r0[t]));
                    assert(s.drop_last().contains(r0[t]));
                }
            }
            lemma_find_absent(r0, q);
            if p(s.last()) {
                lemma_find_push(r0, s.last().0, s.last().1, q);
            }
        } else if p(s.last()) {
            lemma_find_push(retain(s.drop_last(), p), s.last().0, s.last().1, q);
        }
    }
}

} // verus!
