//! Users of the master: token claims and roles, password hashing, and the
//! per-client rate limit on login and registration.
use vstd::prelude::*;
use crate::assoc::{find, keys_unique, last_at, absent, lemma_find_at_last, lemma_find_absent};
use crate::clock::{elapsed_ms, instant_now};

verus! {

/// What a session token carries.
pub struct Claims {
    pub sub: i64,
    pub username: String,
    pub role: String,
    pub exp: u64,
}

impl Claims {
    pub fn is_admin(&self) -> (r: bool)
        ensures
            r == (self.role@ == "admin"@),
    {
        let admin = String::from_str("admin");
        self.role == admin
    }
}

/// Claims of a caller that was checked to be an admin.
pub struct AdminClaims(pub Claims);

/// Whether `password` matches the PHC string `hash` under Argon2.
pub uninterp spec fn argon2_verifies(password: Seq<char>, hash: Seq<char>) -> bool;

/// `PasswordHash::new(hash)` then `Argon2::default().verify_password`: true
/// when the hash parses and the password matches it.
#[verifier::external_body]
pub fn verify_password(pw: &str, hash: &str) -> (r: bool)
    ensures
        r == argon2_verifies(pw@, hash@),
{
    match argon2::PasswordHash::new(hash) {
        Ok(h) => argon2::PasswordVerifier::verify_password(&argon2::Argon2::default(), pw.as_bytes(), &h).is_ok(),
        Err(_) => false,
    }
}

/// `Argon2::default().hash_password` with a fresh random salt, as a PHC
/// string. The salt is random, so nothing is promised of the text.
#[verifier::external_body]
pub fn hash_password(pw: &str) -> (r: Result<String, String>) {
    let salt = argon2::password_hash::SaltString::generate(&mut argon2::password_hash::rand_core::OsRng);
    match argon2::PasswordHasher::hash_password(&argon2::Argon2::default(), pw.as_bytes(), &salt) {
        Ok(h) => Ok(h.to_string()),
        Err(e) => Err(format!("argon2: {e}")),
    }
}

/// How long a login token is valid: 7 days.
pub const JWT_TTL_SECS: u64 = 604800;

/// The claims of a token issued at `now_secs` (Unix seconds) to a user.
pub fn token_claims(user_id: i64, username: &str, role: &str, now_secs: u64) -> (c: Claims)
    requires
        now_secs <= u64::MAX - JWT_TTL_SECS,
    ensures
        c.sub == user_id,
        c.username@ == username@,
        c.role@ == role@,
        c.exp == now_secs + JWT_TTL_SECS,
{
    Claims {
        sub: user_id,
        username: String::from_str(username),
        role: String::from_str(role),
        exp: now_secs + JWT_TTL_SECS,
    }
}

/// The token of an `Authorization` header value `Bearer <token>`.
pub fn bearer_token(header: Option<&str>) -> (r: Option<String>)
    ensures
        match header {
            Some(h) => match crate::text::strip_prefix(h@, "Bearer "@) {
                Some(t) => r matches Some(s) && s@ == t,
                None => r is None,
            },
            None => r is None,
        },
{
    match header {
        Some(h) => {
            let cs = crate::text::chars_of(h);
            match crate::text::strip_prefix_chars(cs.as_slice(), "Bearer ") {
                Some(t) => Some(crate::text::string_of(t.as_slice())),
                None => None,
            }
        },
        None => None,
    }
}

/// Why an admin endpoint refuses a caller whose token is valid.
pub enum AdminDenied {
    /// The token is not an admin's.
    NotAdmin,
    /// The user is no longer an admin.
    RoleDowngraded,
    /// The user no longer exists.
    UserRemoved,
}

impl AdminDenied {
    pub fn message(&self) -> (r: String)
        ensures
            match self {
                AdminDenied::NotAdmin => r@ == "admin only"@,
                AdminDenied::RoleDowngraded => r@ == "role downgraded"@,
                AdminDenied::UserRemoved => r@ == "user removed"@,
            },
    {
        match self {
            AdminDenied::NotAdmin => String::from_str("admin only"),
            AdminDenied::RoleDowngraded => String::from_str("role downgraded"),
            AdminDenied::UserRemoved => String::from_str("user removed"),
        }
    }
}

/// An admin endpoint admits a caller whose token names an admin and whose
/// stored role (`None` when the user is gone) is still `admin`.
pub fn admin_verdict(claims: &Claims, stored_role: Option<&str>) -> (r: Result<(), AdminDenied>)
    ensures
        !(claims.role@ == "admin"@) ==> r matches Err(AdminDenied::NotAdmin),
        claims.role@ == "admin"@ ==> match stored_role {
            Some(role) => if role@ == "admin"@ {
                r is Ok
            } else {
                r matches Err(AdminDenied::RoleDowngraded)
            },
            None => r matches Err(AdminDenied::UserRemoved),
        },
{
    if !claims.is_admin() {
        return Err(AdminDenied::NotAdmin);
    }
    match stored_role {
        Some(role) => if crate::text::is_lit(crate::text::chars_of(role).as_slice(), "admin") {
            Ok(())
        } else {
            Err(AdminDenied::RoleDowngraded)
        },
        None => Err(AdminDenied::UserRemoved),
    }
}

// ───────────────────────── rate limit ─────────────────────────

/// Number of keys above which a check also forgets keys whose latest hit
/// is outside the window.
pub const MAX_KEYS: usize = 2048;

/// How many keys are stored once `key` has been recorded in `state`.
pub open spec fn keys_with(state: Seq<(Seq<char>, Seq<u64>)>, key: Seq<char>) -> int {
    if find(state, key) is Some {
        state.len() as int
    } else {
        (state.len() + 1) as int
    }
}

/// The hits recorded for `key`.
pub open spec fn hits(state: Seq<(Seq<char>, Seq<u64>)>, key: Seq<char>) -> Seq<u64> {
    match find(state, key) {
        Some(v) => v,
        None => Seq::empty(),
    }
}

/// A hit at `t` is inside the window at `now`.
pub open spec fn in_window(t: u64, now: u64, window: u64) -> bool {
    t as int + window as int >= now as int
}

pub open spec fn in_window_pred(now: u64, window: u64) -> spec_fn(u64) -> bool {
    |t: u64| in_window(t, now, window)
}

/// The hits of `v` inside the window.
pub open spec fn recent(v: Seq<u64>, now: u64, window: u64) -> Seq<u64> {
    v.filter(in_window_pred(now, window))
}

/// Sliding-window rate limit: at most `max_hits` allowed checks per key
/// within any `window_ms`.
pub struct RateLimiter {
    window_ms: u64,
    max_hits: u32,
    state: Vec<(String, Vec<u64>)>,
    origin: std::time::Instant,
}

pub open spec fn state_view(s: Seq<(String, Vec<u64>)>) -> Seq<(Seq<char>, Seq<u64>)> {
    s.map_values(|e: (String, Vec<u64>)| (e.0@, e.1@))
}

impl RateLimiter {
    pub closed spec fn window(&self) -> u64 {
        self.window_ms
    }

    pub closed spec fn limit(&self) -> u32 {
        self.max_hits
    }

    pub closed spec fn state(&self) -> Seq<(Seq<char>, Seq<u64>)> {
        state_view(self.state@)
    }

    pub closed spec fn wf(&self) -> bool {
        keys_unique(state_view(self.state@))
    }

    pub fn new(window_ms: u64, max_hits: u32) -> (r: Self)
        ensures
            r.wf(),
            r.window() == window_ms,
            r.limit() == max_hits,
            r.state().len() == 0,
    {
        RateLimiter { window_ms, max_hits, state: Vec::new(), origin: instant_now() }
    }

    fn key_index(&self, key: &String) -> (r: Option<usize>)
        ensures
            r matches Some(i) ==> last_at(self.state(), key@, i as int),
            r is None ==> absent(self.state(), key@),
    {
        let ghost s = self.state();
        let mut i = self.state.len();
        while i > 0
            invariant
                s == state_view(self.state@),
                i <= self.state.len(),
                forall|t: int| i <= t < self.state.len() ==> #[trigger] s[t].0 != key@,
            decreases i,
        {
            i -= 1;
            if self.state[i].0 == *key {
                return Some(i);
            }
        }
        None
    }

    /// Records a request under `key` at `now_ms` if fewer than `max_hits`
    /// requests under it are within the window; returns whether it is
    /// allowed. The key keeps only its hits within the window. Other keys are
    /// left alone, except that an allowed check that leaves more than
    /// `MAX_KEYS` keys stored forgets every key with no hit in the window.
    pub fn check_at(&mut self, key: &str, now_ms: u64) -> (allowed: bool)
        requires
            old(self).wf(),
        ensures
            final(self).wf(),
            final(self).window() == old(self).window(),
            final(self).limit() == old(self).limit(),
            allowed == (recent(hits(old(self).state(), key@), now_ms, old(self).window()).len()
                < old(self).limit()),
            hits(final(self).state(), key@) == if allowed {
                recent(hits(old(self).state(), key@), now_ms, old(self).window()).push(now_ms)
            } else {
                recent(hits(old(self).state(), key@), now_ms, old(self).window())
            },
            !(allowed && keys_with(old(self).state(), key@) > MAX_KEYS) ==> forall|k: Seq<char>|
                k != key@ ==> #[trigger] hits(final(self).state(), k) == hits(old(self).state(), k),
            forall|k: Seq<char>| k != key@ ==> #[trigger] hits(final(self).state(), k) == hits(
                old(self).state(),
                k,
            ) || (allowed && hits(final(self).state(), k).len() == 0 && !(hits(old(self).state(), k).len()
                > 0 && in_window(hits(old(self).state(), k).last(), now_ms, old(self).window()))),
    {
        let ghost s0 = self.state();
        let k = String::from_str(key);
        let i = match self.key_index(&k) {
            Some(i) => {
                proof {
                    lemma_find_at_last(s0, key@, i as int);
                }
                i
            },
            None => {
                proof {
                    lemma_find_absent::<Seq<char>, Seq<u64>>(s0, key@);
                }
                let ghost prev = self.state@;
                self.state.push((k.clone(), Vec::new()));
                proof {
                    assert(state_view(self.state@) =~= s0.push((key@, Seq::<u64>::empty())));
                    crate::assoc::lemma_find_push(s0, key@, Seq::<u64>::empty(), key@);
                    assert forall|a: int, b: int| 0 <= a < b < state_view(self.state@).len() implies
                        #[trigger] state_view(self.state@)[a].0 != #[trigger] state_view(self.state@)[b].0 by {
                        if b < s0.len() {
                            assert(s0[a].0 != s0[b].0);
                        }
                    }
                    assert forall|q: Seq<char>| q != key@ implies #[trigger] hits(state_view(self.state@), q)
                        == hits(s0, q) by {
                        crate::assoc::lemma_find_push(s0, key@, Seq::<u64>::empty(), q);
                    }
                }
                self.state.len() - 1
            },
        };
        let ghost s1 = self.state();
        assert(forall|q: Seq<char>| q != key@ ==> #[trigger] hits(s1, q) == hits(s0, q));
        assert(s1.len() == keys_with(s0, key@));
        proof {
            assert(last_at(s1, key@, i as int)) by {
                if i < s0.len() {
                    assert(s1[i as int] == s0[i as int]);
                }
            }
            lemma_find_at_last(s1, key@, i as int);
        }
        // keep only the hits inside the window
        let old_hits = self.state[i].1.clone();
        let ghost oh = old_hits@;
        assert(oh == hits(s0, key@));
        let mut kept: Vec<u64> = Vec::new();
        let mut j: usize = 0;
        while j < old_hits.len()
            invariant
                oh == old_hits@,
                j <= old_hits.len(),
                kept@ == oh.take(j as int).filter(in_window_pred(now_ms, self.window_ms)),
            decreases old_hits.len() - j,
        {
            proof {
                reveal(Seq::filter);
                assert(oh.take(j + 1).drop_last() == oh.take(j as int));
            }
            let t = old_hits[j];
            if (t as u128) + (self.window_ms as u128) >= (now_ms as u128) {
                kept.push(t);
            }
            j += 1;
        }
        assert(oh.take(old_hits.len() as int) == oh);
        let allowed = (kept.len() as u64) < (self.max_hits as u64);
        if allowed {
            kept.push(now_ms);
        }
        let ghost nv = kept@;
        self.state.set(i, (k, kept));
        proof {
            assert(state_view(self.state@) =~= s1.update(i as int, (key@, nv)));
            crate::assoc::lemma_find_update_last(s1, key@, i as int, nv, key@);
            assert forall|a: int, b: int| 0 <= a < b < state_view(self.state@).len() implies
                #[trigger] state_view(self.state@)[a].0 != #[trigger] state_view(self.state@)[b].0 by {
                assert(s1[a].0 != s1[b].0);
            }
            assert forall|q: Seq<char>| q != key@ implies #[trigger] hits(state_view(self.state@), q)
                == hits(s0, q) by {
                crate::assoc::lemma_find_update_last(s1, key@, i as int, nv, q);
                assert(hits(s1, q) == hits(s0, q));
                assert(state_view(self.state@) == s1.update(i as int, (key@, nv)));
            }
        }
        if allowed && self.state.len() > MAX_KEYS {
            self.forget_idle(now_ms, &k_of(key));
        }
        allowed
    }

    /// Forgets every key other than `keep` whose latest hit is outside the window.
    fn forget_idle(&mut self, now_ms: u64, keep: &String)
        requires
            old(self).wf(),
            hits(old(self).state(), keep@).len() > 0,
            in_window(hits(old(self).state(), keep@).last(), now_ms, old(self).window()),
        ensures
            final(self).wf(),
            final(self).window() == old(self).window(),
            final(self).limit() == old(self).limit(),
            final(self).state() == crate::assoc::retain(old(self).state(), idle_pred(now_ms, old(self).window())),
            hits(final(self).state(), keep@) == hits(old(self).state(), keep@),
            forall|k: Seq<char>| #[trigger] hits(final(self).state(), k) == hits(old(self).state(), k) || (
            hits(final(self).state(), k).len() == 0 && !(hits(old(self).state(), k).len() > 0
                && in_window(hits(old(self).state(), k).last(), now_ms, old(self).window()))),
    {
        let ghost s = self.state();
        let ghost p = idle_pred(now_ms, self.window_ms);
        let mut kept: Vec<(String, Vec<u64>)> = Vec::new();
        let mut i: usize = 0;
        while i < self.state.len()
            invariant
                s == state_view(self.state@),
                p == idle_pred(now_ms, self.window_ms),
                i <= self.state.len(),
                state_view(kept@) == crate::assoc::retain(s.take(i as int), p),
            decreases self.state.len() - i,
        {
            assert(s.take(i + 1).drop_last() == s.take(i as int));
            assert(s.take(i + 1).last() == s[i as int]);
            let n = self.state[i].1.len();
            assert(s[i as int].1 == self.state@[i as int].1@);
            if n > 0 && (self.state[i].1[n - 1] as u128) + (self.window_ms as u128) >= (now_ms as u128) {
                let ghost prev = kept@;
                kept.push((self.state[i].0.clone(), self.state[i].1.clone()));
                assert(state_view(kept@) =~= state_view(prev).push(s[i as int]));
            }
            i += 1;
        }
        assert(s.take(self.state.len() as int) == s);
        proof {
            crate::assoc::lemma_retain_props(s, p);
            assert forall|k: Seq<char>| #[trigger] hits(crate::assoc::retain(s, p), k) == hits(s, k) || (
            hits(crate::assoc::retain(s, p), k).len() == 0 && !(hits(s, k).len() > 0 && in_window(
                hits(s, k).last(),
                now_ms,
                self.window_ms,
            ))) by {
                crate::assoc::lemma_find_retain(s, p, k);
            }
            crate::assoc::lemma_find_retain(s, p, keep@);
        }
        self.state = kept;
    }

    /// Milliseconds since the limiter was made, on the monotonic clock.
    pub fn now_ms(&self) -> u64 {
        elapsed_ms(&self.origin)
    }

    /// `check_at` now.
    pub fn check(&mut self, key: &str) -> (allowed: bool)
        requires
            old(self).wf(),
        ensures
            final(self).wf(),
            final(self).window() == old(self).window(),
            final(self).limit() == old(self).limit(),
            exists|now: u64|
                #[trigger] checked(
                    old(self).state(),
                    final(self).state(),
                    key@,
                    now,
                    old(self).window(),
                    old(self).limit(),
                    allowed,
                ),
    {
        let now = self.now_ms();
        let allowed = self.check_at(key, now);
        assert(checked(old(self).state(), self.state(), key@, now, self.window(), self.limit(), allowed));
        allowed
    }
}

/// What a check of `key` at `now` did to the stored hits `s0`, leaving `s1`:
/// it is allowed when fewer than `limit` hits of the key are in the window;
/// the key keeps its recent hits, plus this one when allowed; other keys
/// keep theirs, except that an allowed check that leaves more than
/// `MAX_KEYS` keys stored forgets those with no hit in the window.
pub open spec fn checked(
    s0: Seq<(Seq<char>, Seq<u64>)>,
    s1: Seq<(Seq<char>, Seq<u64>)>,
    key: Seq<char>,
    now: u64,
    window: u64,
    limit: u32,
    allowed: bool,
) -> bool {
    &&& allowed == (recent(hits(s0, key), now, window).len() < limit)
    &&& hits(s1, key) == if allowed {
        recent(hits(s0, key), now, window).push(now)
    } else {
        recent(hits(s0, key), now, window)
    }
    &&& !(allowed && keys_with(s0, key) > MAX_KEYS) ==> forall|k: Seq<char>|
        k != key ==> #[trigger] hits(s1, k) == hits(s0, k)
    &&& forall|k: Seq<char>|
        k != key ==> #[trigger] hits(s1, k) == hits(s0, k) || (allowed && hits(s1, k).len() == 0
            && !(hits(s0, k).len() > 0 && in_window(hits(s0, k).last(), now, window)))
}

pub open spec fn idle_pred(now: u64, window: u64) -> spec_fn((Seq<char>, Seq<u64>)) -> bool {
    |e: (Seq<char>, Seq<u64>)| e.1.len() > 0 && in_window(e.1.last(), now, window)
}

fn k_of(key: &str) -> (r: String)
    ensures
        r@ == key@,
{
    String::from_str(key)
}


/// An allowed check never leaves more than `max_hits` hits of its key in
/// the window: the hits kept after it (the recent ones and this one) are
/// within the limit at its time.
pub proof fn lemma_allowed_within_limit(v: Seq<u64>, now: u64, window: u64, limit: u32)
    requires
        recent(v, now, window).len() < limit,
    ensures
        recent(recent(v, now, window).push(now), now, window).len() <= limit,
{
    let r = recent(v, now, window);
    let p = in_window_pred(now, window);
    reveal(Seq::filter);
    assert(r.push(now).drop_last() == r);
    assert(r.push(now).last() == now);
    assert(p(now));
    r.lemma_filter_len(p);
}

} // verus!
