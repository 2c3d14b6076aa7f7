//! Ranking candidates: a rational key `num / den` ascending, then the id in
//! string order, then the position in the input (so that ties keep their
//! input order, as a stable sort does).
use vstd::prelude::*;
use vstd::relations::{sorted_by, total_ordering};
use vstd::seq_lib::lemma_sorted_unique;

verus! {

/// String order on ids: lexicographic by Unicode scalar value, which is the
/// byte order of their UTF-8 encodings.
pub open spec fn id_lt(a: Seq<char>, b: Seq<char>) -> bool
    decreases a.len(),
{
    if a.len() == 0 {
        b.len() > 0
    } else if b.len() == 0 {
        false
    } else if a[0] != b[0] {
        a[0] < b[0]
    } else {
        id_lt(a.drop_first(), b.drop_first())
    }
}

/// A denominator read as positive.
pub open spec fn pos(d: int) -> int {
    if d > 0 {
        d
    } else {
        1
    }
}

/// `x.0 / x.1 < y.0 / y.1`.
pub open spec fn key_lt(x: (int, int), y: (int, int)) -> bool {
    x.0 * pos(y.1) < y.0 * pos(x.1)
}

/// `x.0 / x.1 == y.0 / y.1`.
pub open spec fn key_eq(x: (int, int), y: (int, int)) -> bool {
    x.0 * pos(y.1) == y.0 * pos(x.1)
}

/// Position `a` ranks no later than position `b`.
pub open spec fn rank_le(keys: Seq<(int, int)>, ids: Seq<Seq<char>>) -> spec_fn(usize, usize) -> bool {
    |a: usize, b: usize|
        key_lt(keys[a as int], keys[b as int]) || (key_eq(keys[a as int], keys[b as int]) && (
        id_lt(ids[a as int], ids[b as int]) || (ids[a as int] == ids[b as int] && a <= b)))
}

/// The positions `0..n`.
pub open spec fn positions(n: nat) -> Seq<usize> {
    Seq::new(n, |i: int| i as usize)
}

/// The positions `0..keys.len()` in rank order.
pub open spec fn ranked(keys: Seq<(int, int)>, ids: Seq<Seq<char>>) -> Seq<usize> {
    positions(keys.len()).sort_by(rank_le(keys, ids))
}

/// The ids in rank order.
pub open spec fn ranked_ids(keys: Seq<(int, int)>, ids: Seq<Seq<char>>) -> Seq<Seq<char>> {
    ranked(keys, ids).map_values(|p: usize| ids[p as int])
}

// ───────────────────────── order lemmas ─────────────────────────

proof fn lemma_id_lt_irrefl(a: Seq<char>)
    ensures
        !id_lt(a, a),
    decreases a.len(),
{
    if a.len() > 0 {
        lemma_id_lt_irrefl(a.drop_first());
    }
}

proof fn lemma_id_lt_asym(a: Seq<char>, b: Seq<char>)
    ensures
        !(id_lt(a, b) && id_lt(b, a)),
    decreases a.len(),
{
    if a.len() > 0 && b.len() > 0 && a[0] == b[0] {
        lemma_id_lt_asym(a.drop_first(), b.drop_first());
    }
}

proof fn lemma_id_lt_total(a: Seq<char>, b: Seq<char>)
    ensures
        id_lt(a, b) || id_lt(b, a) || a == b,
    decreases a.len(),
{
    if a.len() > 0 && b.len() > 0 && a[0] == b[0] {
        lemma_id_lt_total(a.drop_first(), b.drop_first());
        if a.drop_first() == b.drop_first() {
            assert(a =~= seq![a[0]] + a.drop_first());
            assert(b =~= seq![b[0]] + b.drop_first());
        }
    } else if a.len() == 0 && b.len() == 0 {
        assert(a =~= b);
    }
}

proof fn lemma_id_lt_trans(a: Seq<char>, b: Seq<char>, c: Seq<char>)
    requires
        id_lt(a, b),
        id_lt(b, c),
    ensures
        id_lt(a, c),
    decreases a.len(),
{
    if a.len() > 0 && b.len() > 0 && c.len() > 0 && a[0] == b[0] && b[0] == c[0] {
        lemma_id_lt_trans(a.drop_first(), b.drop_first(), c.drop_first());
    }
}

proof fn lemma_lt_lt(x: int, xd: int, y: int, yd: int, z: int, zd: int)
    by (nonlinear_arith)
    requires
        xd > 0,
        yd > 0,
        zd > 0,
        x * yd < y * xd,
        y * zd < z * yd,
    ensures
        x * zd < z * xd,
{
    assert(x * yd * zd < y * xd * zd);
    assert(y * zd * xd < z * yd * xd);
}

proof fn lemma_lt_eq(x: int, xd: int, y: int, yd: int, z: int, zd: int)
    by (nonlinear_arith)
    requires
        xd > 0,
        yd > 0,
        zd > 0,
        x * yd < y * xd,
        y * zd == z * yd,
    ensures
        x * zd < z * xd,
{
    assert(x * yd * zd < y * xd * zd);
    assert(y * zd * xd == z * yd * xd);
}

proof fn lemma_eq_lt(x: int, xd: int, y: int, yd: int, z: int, zd: int)
    by (nonlinear_arith)
    requires
        xd > 0,
        yd > 0,
        zd > 0,
        x * yd == y * xd,
        y * zd < z * yd,
    ensures
        x * zd < z * xd,
{
    assert(x * yd * zd == y * xd * zd);
    assert(y * zd * xd < z * yd * xd);
}

proof fn lemma_eq_eq(x: int, xd: int, y: int, yd: int, z: int, zd: int)
    by (nonlinear_arith)
    requires
        xd > 0,
        yd > 0,
        zd > 0,
        x * yd == y * xd,
        y * zd == z * yd,
    ensures
        x * zd == z * xd,
{
    assert(x * yd * zd == y * xd * zd);
    assert(y * zd * xd == z * yd * xd);
}

proof fn lemma_key_trans(x: (int, int), y: (int, int), z: (int, int))
    ensures
        key_lt(x, y) && key_lt(y, z) ==> key_lt(x, z),
        key_lt(x, y) && key_eq(y, z) ==> key_lt(x, z),
        key_eq(x, y) && key_lt(y, z) ==> key_lt(x, z),
        key_eq(x, y) && key_eq(y, z) ==> key_eq(x, z),
{
    let (xd, yd, zd) = (pos(x.1), pos(y.1), pos(z.1));
    if key_lt(x, y) && key_lt(y, z) {
        lemma_lt_lt(x.0, xd, y.0, yd, z.0, zd);
    }
    if key_lt(x, y) && key_eq(y, z) {
        lemma_lt_eq(x.0, xd, y.0, yd, z.0, zd);
    }
    if key_eq(x, y) && key_lt(y, z) {
        lemma_eq_lt(x.0, xd, y.0, yd, z.0, zd);
    }
    if key_eq(x, y) && key_eq(y, z) {
        lemma_eq_eq(x.0, xd, y.0, yd, z.0, zd);
    }
}

/// The rank order is a total order on positions.
pub proof fn lemma_rank_total(keys: Seq<(int, int)>, ids: Seq<Seq<char>>)
    ensures
        total_ordering(rank_le(keys, ids)),
{
    let le = rank_le(keys, ids);
    assert forall|a: usize| #[trigger] le(a, a) by {
        lemma_id_lt_irrefl(ids[a as int]);
    }
    assert forall|a: usize, b: usize| #[trigger] le(a, b) && #[trigger] le(b, a) implies a == b by {
        lemma_id_lt_asym(ids[a as int], ids[b as int]);
        lemma_id_lt_irrefl(ids[a as int]);
    }
    assert forall|a: usize, b: usize, c: usize| #[trigger] le(a, b) && #[trigger] le(b, c) implies le(
        a,
        c,
    ) by {
        let (ka, kb, kc) = (keys[a as int], keys[b as int], keys[c as int]);
        lemma_key_trans(ka, kb, kc);
        if key_eq(ka, kb) && key_eq(kb, kc) {
            let (ia, ib, ic) = (ids[a as int], ids[b as int], ids[c as int]);
            if id_lt(ia, ib) && id_lt(ib, ic) {
                lemma_id_lt_trans(ia, ib, ic);
            }
        }
    }
    assert forall|a: usize, b: usize| #[trigger] le(a, b) || #[trigger] le(b, a) by {
        lemma_id_lt_total(ids[a as int], ids[b as int]);
    }
    assert(vstd::relations::reflexive(le));
    assert(vstd::relations::antisymmetric(le));
    assert(vstd::relations::transitive(le));
    assert(vstd::relations::strongly_connected(le));
}

/// The first position of a rank-sorted sequence ranks no later than any other.
pub proof fn lemma_sorted_first(s: Seq<usize>, le: spec_fn(usize, usize) -> bool, t: int)
    requires
        sorted_by(s, le),
        total_ordering(le),
        0 <= t < s.len(),
    ensures
        le(s[0], s[t]),
{
    if t > 0 {
        assert(le(s[0], s[t]));
    }
}

// ───────────────────────── exec ─────────────────────────

/// Key bound that keeps the cross products within `u128`.
pub open spec fn key_fits(k: (u128, u128)) -> bool {
    k.0 <= 0x1_0000_0000_0000_0000_0000_0000 && 1 <= k.1 < 0x1_0000_0000
}

pub open spec fn key_view(k: (u128, u128)) -> (int, int) {
    (k.0 as int, k.1 as int)
}

pub open spec fn keys_view(keys: Seq<(u128, u128)>) -> Seq<(int, int)> {
    keys.map_values(|k: (u128, u128)| key_view(k))
}

/// Compares two ids in string order: negative, zero or positive.
pub fn id_order(a: &[char], b: &[char]) -> (r: i8)
    ensures
        (r < 0) == id_lt(a@, b@),
        (r == 0) == (a@ == b@),
        (r > 0) == id_lt(b@, a@),
{
    proof {
        lemma_id_lt_asym(a@, b@);
        lemma_id_lt_total(a@, b@);
        lemma_id_lt_irrefl(a@);
    }
    assert(a@.skip(0) == a@ && b@.skip(0) == b@);
    assert(a@.take(0) == b@.take(0));
    let mut i: usize = 0;
    while i < a.len() && i < b.len()
        invariant
            i <= a.len(),
            i <= b.len(),
            a@.take(i as int) == b@.take(i as int),
            id_lt(a@, b@) == id_lt(a@.skip(i as int), b@.skip(i as int)),
            id_lt(b@, a@) == id_lt(b@.skip(i as int), a@.skip(i as int)),
        decreases a.len() - i,
    {
        let x = a[i];
        let y = b[i];
        assert(a@.skip(i as int)[0] == x);
        assert(b@.skip(i as int)[0] == y);
        if x != y {
            if x < y {
                return -1;
            } else {
                assert(a@[i as int] != b@[i as int]);
                return 1;
            }
        }
        assert(a@.skip(i as int).drop_first() == a@.skip(i + 1));
        assert(b@.skip(i as int).drop_first() == b@.skip(i + 1));
        assert(a@.take(i + 1) == a@.take(i as int).push(x));
        assert(b@.take(i + 1) == b@.take(i as int).push(y));
        i += 1;
    }
    if a.len() == b.len() {
        assert(a@ == a@.take(i as int));
        assert(b@ == b@.take(i as int));
        0
    } else if i == a.len() {
        assert(a@.skip(i as int).len() == 0);
        -1
    } else {
        assert(b@.skip(i as int).len() == 0);
        assert(a@.skip(i as int).len() > 0);
        assert(a@.len() != b@.len());
        1
    }
}

/// Whether position `a` ranks no later than position `b`.
pub fn rank_before(keys: &Vec<(u128, u128)>, ids: &Vec<Vec<char>>, a: usize, b: usize) -> (r: bool)
    requires
        a < keys.len(),
        b < keys.len(),
        keys.len() == ids.len(),
        forall|k: int| 0 <= k < keys.len() ==> key_fits(#[trigger] keys@[k]),
    ensures
        r == rank_le(keys_view(keys@), ids.deep_view())(a, b),
{
    let ka = keys[a];
    let kb = keys[b];
    assert(key_fits(keys@[a as int]) && key_fits(keys@[b as int]));
    assert(ka.0 * kb.1 < 0x1_0000_0000_0000_0000_0000_0000_0000_0000) by (nonlinear_arith)
        requires
            ka.0 <= 0x1_0000_0000_0000_0000_0000_0000,
            kb.1 < 0x1_0000_0000,
    ;
    assert(kb.0 * ka.1 < 0x1_0000_0000_0000_0000_0000_0000_0000_0000) by (nonlinear_arith)
        requires
            kb.0 <= 0x1_0000_0000_0000_0000_0000_0000,
            ka.1 < 0x1_0000_0000,
    ;
    let x = ka.0 * kb.1;
    let y = kb.0 * ka.1;
    let ghost kv = keys_view(keys@);
    assert(kv[a as int] == key_view(ka) && kv[b as int] == key_view(kb));
    if x < y {
        true
    } else if x > y {
        false
    } else {
        let c = id_order(ids[a].as_slice(), ids[b].as_slice());
        assert(ids.deep_view()[a as int] == ids@[a as int]@);
        assert(ids.deep_view()[b as int] == ids@[b as int]@);
        c < 0 || (c == 0 && a <= b)
    }
}

/// The positions `0..keys.len()` in rank order (a stable insertion sort).
pub fn rank_positions(keys: &Vec<(u128, u128)>, ids: &Vec<Vec<char>>) -> (r: Vec<usize>)
    requires
        keys.len() == ids.len(),
        forall|k: int| 0 <= k < keys.len() ==> key_fits(#[trigger] keys@[k]),
    ensures
        r@ == ranked(keys_view(keys@), ids.deep_view()),
{
    let ghost le = rank_le(keys_view(keys@), ids.deep_view());
    proof {
        lemma_rank_total(keys_view(keys@), ids.deep_view());
        broadcast use vstd::seq_lib::group_to_multiset_ensures;
    }
    let n = keys.len();
    let mut r: Vec<usize> = Vec::new();
    let mut i: usize = 0;
    while i < n
        invariant
            n == keys.len(),
            keys.len() == ids.len(),
            forall|k: int| 0 <= k < keys.len() ==> key_fits(#[trigger] keys@[k]),
            le == rank_le(keys_view(keys@), ids.deep_view()),
            total_ordering(le),
            i <= n,
            r@.to_multiset() == positions(i as nat).to_multiset(),
            sorted_by(r@, le),
            forall|t: int| 0 <= t < r@.len() ==> #[trigger] r@[t] < i,
        decreases n - i,
    {
        let mut j: usize = 0;
        let mut go = r.len() > 0 && rank_before(keys, ids, r[0], i);
        while go
            invariant
                n == keys.len(),
                keys.len() == ids.len(),
                forall|k: int| 0 <= k < keys.len() ==> key_fits(#[trigger] keys@[k]),
                le == rank_le(keys_view(keys@), ids.deep_view()),
                i < n,
                j <= r.len(),
                forall|t: int| 0 <= t < r@.len() ==> #[trigger] r@[t] < i,
                forall|t: int| 0 <= t < j ==> le(#[trigger] r@[t], i),
                go ==> j < r.len() && le(r@[j as int], i),
                !go ==> j == r.len() || !le(r@[j as int], i),
            decreases r.len() - j,
        {
            j += 1;
            go = j < r.len() && rank_before(keys, ids, r[j], i);
        }
        let ghost old_r = r@;
        r.insert(j, i);
        proof {
            broadcast use vstd::seq_lib::group_to_multiset_ensures;

            assert(positions((i + 1) as nat) =~= positions(i as nat).push(i));
            vstd::seq_lib::to_multiset_insert(old_r, j as int, i);
            assert forall|p: int, q: int| 0 <= p < q < r@.len() implies #[trigger] le(
                r@[p],
                r@[q],
            ) by {
                if q < j {
                    assert(r@[p] == old_r[p] && r@[q] == old_r[q]);
                } else if q == j {
                    assert(r@[p] == old_r[p]);
                } else if p < j {
                    assert(r@[p] == old_r[p] && r@[q] == old_r[q - 1]);
                } else if p == j {
                    assert(r@[q] == old_r[q - 1]);
                    assert(!le(old_r[j as int], i));
                    assert(le(i, old_r[j as int]));
                    if q - 1 > j {
                        assert(le(old_r[j as int], old_r[q - 1]));
                    }
                } else {
                    assert(r@[p] == old_r[p - 1] && r@[q] == old_r[q - 1]);
                }
            }
        }
        i += 1;
    }
    proof {
        let s = positions(n as nat);
        s.lemma_sort_by_ensures(le);
        lemma_sorted_unique(r@, s.sort_by(le), le);
    }
    r
}

/// The ranked ids are the ids, reordered.
pub proof fn lemma_ranked_ids_members(keys: Seq<(int, int)>, ids: Seq<Seq<char>>)
    requires
        keys.len() == ids.len(),
        ids.len() <= usize::MAX,
    ensures
        ranked_ids(keys, ids).len() == ids.len(),
        forall|x: Seq<char>| ranked_ids(keys, ids).contains(x) <==> ids.contains(x),
{
    broadcast use vstd::seq_lib::group_to_multiset_ensures;

    let le = rank_le(keys, ids);
    let ps = positions(keys.len());
    lemma_rank_total(keys, ids);
    ps.lemma_sort_by_ensures(le);
    let s = ps.sort_by(le);
    let r = ranked_ids(keys, ids);
    vstd::seq_lib::to_multiset_len(s);
    vstd::seq_lib::to_multiset_len(ps);
    assert(s.len() == ps.len());
    assert forall|x: Seq<char>| r.contains(x) <==> ids.contains(x) by {
        if r.contains(x) {
            let t = choose|t: int| 0 <= t < r.len() && r[t] == x;
            assert(s.contains(s[t]));
            vstd::seq_lib::to_multiset_contains(s, s[t]);
            vstd::seq_lib::to_multiset_contains(ps, s[t]);
            assert(ps.contains(s[t]));
            assert(ids[s[t] as int] == x);
        }
        if ids.contains(x) {
            let j = choose|j: int| 0 <= j < ids.len() && ids[j] == x;
            assert(ps[j] == j as usize);
            assert(ps.contains(j as usize));
            vstd::seq_lib::to_multiset_contains(s, j as usize);
            vstd::seq_lib::to_multiset_contains(ps, j as usize);
            assert(s.contains(j as usize));
            let t = choose|t: int| 0 <= t < s.len() && s[t] == j as usize;
            assert(r[t] == x);
        }
    }
}

/// Ranking reorders without repeating: distinct ids stay distinct.
pub proof fn lemma_ranked_ids_distinct(keys: Seq<(int, int)>, ids: Seq<Seq<char>>)
    requires
        keys.len() == ids.len(),
        ids.len() <= usize::MAX,
        ids.no_duplicates(),
    ensures
        ranked_ids(keys, ids).no_duplicates(),
{
    broadcast use vstd::seq_lib::group_to_multiset_ensures;

    let le = rank_le(keys, ids);
    let ps = positions(keys.len());
    lemma_rank_total(keys, ids);
    ps.lemma_sort_by_ensures(le);
    let s = ps.sort_by(le);
    vstd::seq_lib::to_multiset_len(s);
    vstd::seq_lib::to_multiset_len(ps);
    assert(ps.no_duplicates());
    ps.lemma_multiset_has_no_duplicates();
    s.lemma_multiset_has_no_duplicates_conv();
    let r = ranked_ids(keys, ids);
    assert forall|i: int, j: int| 0 <= i < r.len() && 0 <= j < r.len() && i != j implies r[i] != r[j] by {
        assert(s.contains(s[i]) && s.contains(s[j]));
        vstd::seq_lib::to_multiset_contains(s, s[i]);
        vstd::seq_lib::to_multiset_contains(ps, s[i]);
        vstd::seq_lib::to_multiset_contains(s, s[j]);
        vstd::seq_lib::to_multiset_contains(ps, s[j]);
        assert(ps.contains(s[i]) && ps.contains(s[j]));
        assert(s[i] != s[j]);
    }
}

/// Ranking puts keys in ascending order: of two ranked ids, the earlier one's
/// key is no greater than the later one's.
pub proof fn lemma_ranked_keys_ascending(keys: Seq<(int, int)>, ids: Seq<Seq<char>>, i: int, j: int)
    requires
        keys.len() == ids.len(),
        ids.len() <= usize::MAX,
        0 <= i < j < ids.len(),
    ensures
        ranked(keys, ids).len() == ids.len(),
        (ranked(keys, ids)[i] as int) < keys.len(),
        (ranked(keys, ids)[j] as int) < keys.len(),
        ranked_ids(keys, ids)[i] == ids[ranked(keys, ids)[i] as int],
        ranked_ids(keys, ids)[j] == ids[ranked(keys, ids)[j] as int],
        key_lt(keys[ranked(keys, ids)[i] as int], keys[ranked(keys, ids)[j] as int]) || key_eq(
            keys[ranked(keys, ids)[i] as int],
            keys[ranked(keys, ids)[j] as int],
        ),
{
    broadcast use vstd::seq_lib::group_to_multiset_ensures;

    let le = rank_le(keys, ids);
    let ps = positions(keys.len());
    lemma_rank_total(keys, ids);
    ps.lemma_sort_by_ensures(le);
    let s = ps.sort_by(le);
    vstd::seq_lib::to_multiset_len(s);
    vstd::seq_lib::to_multiset_len(ps);
    assert(s.contains(s[i]) && s.contains(s[j]));
    vstd::seq_lib::to_multiset_contains(s, s[i]);
    vstd::seq_lib::to_multiset_contains(ps, s[i]);
    vstd::seq_lib::to_multiset_contains(s, s[j]);
    vstd::seq_lib::to_multiset_contains(ps, s[j]);
    assert(ps.contains(s[i]) && ps.contains(s[j]));
    assert(le(s[i], s[j]));
}

} // verus!
