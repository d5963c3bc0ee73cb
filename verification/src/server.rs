//! Decisions of the HTTP API server: per-client rate limiting, request
//! checks, bearer-token authentication and trimming of the LLM context.
//!
//! Routing, sockets and handlers belong to the caller; this module holds
//! what they decide.
use vstd::prelude::*;
use std::collections::VecDeque;
use std::time::Instant;
use crate::text::{
    byte_len, char_byte_len, char_len_utf8, chars_of, concat3, decimal, decimal_string, has_prefix, has_substring, join,
    lemma_byte_len_push, lemma_byte_len_empty, replace_all, starts_with, string_of, str_eq, trim_chars, trimmed,
};
use crate::json::{element, json_document_of, member, parse_json_document, string_of_value, JsonValue};

verus! {

#[verifier::external_type_specification]
#[verifier::external_body]
pub struct MonotonicInstant(std::time::Instant);

/// Reads the monotonic clock (`Instant::now`).
#[verifier::external_body]
fn clock_now() -> Instant {
    Instant::now()
}

/// Nanoseconds elapsed on the monotonic clock since `start`
/// (`Instant::elapsed`, then `Duration::as_nanos`); nothing is stated of
/// the value, which depends on the time of the call.
#[verifier::external_body]
fn nanos_since(start: &Instant) -> u64 {
    start.elapsed().as_nanos() as u64
}

/// Nanoseconds in one second.
pub const NANOS_PER_SEC: u64 = 1_000_000_000;

/// Length of the rate-limiting window, in seconds.
pub const WINDOW_SECS: u64 = 60;

/// Sliding-window rate limiter: tracks request times per client key.
pub struct RateLimiter {
    /// Each client key with the times (nanoseconds on the limiter's clock)
    /// of its requests in the current window, oldest first; no key twice.
    clients: Vec<(String, VecDeque<u64>)>,
    max_per_window: usize,
    window_secs: u64,
    clock: Instant,
    /// The latest time a check has used (nanoseconds on the clock).
    latest: u64,
}

/// The client map of a list of entries, later entries winning.
pub open spec fn client_map(entries: Seq<(String, VecDeque<u64>)>) -> Map<Seq<char>, Seq<u64>>
    decreases entries.len(),
{
    if entries.len() == 0 {
        Map::empty()
    } else {
        client_map(entries.drop_last()).insert(entries.last().0@, entries.last().1@)
    }
}

/// Time from `t` to `now`, zero when `t` is later.
pub open spec fn elapsed(now: u64, t: u64) -> nat {
    if now >= t { (now - t) as nat } else { 0 }
}

/// The request times of `q` that are still inside the window at `now`:
/// times are dropped from the front while they are a whole window old.
pub open spec fn pruned(q: Seq<u64>, now: u64, window: nat) -> Seq<u64>
    decreases q.len(),
{
    if q.len() > 0 && elapsed(now, q[0]) >= window {
        pruned(q.drop_first(), now, window)
    } else {
        q
    }
}

/// A client's request times after a check at `now`, and whether the request is allowed.
pub open spec fn after_check(q: Option<Seq<u64>>, now: u64, window: nat, max: nat) -> (Seq<u64>, bool) {
    match q {
        None => if 0 < max { (seq![now], true) } else { (Seq::empty(), false) },
        Some(q) => {
            let p = pruned(q, now, window);
            if p.len() < max { (p.push(now), true) } else { (p, false) }
        },
    }
}

/// The entry of `key` in a map, if any.
pub open spec fn entry_of(m: Map<Seq<char>, Seq<u64>>, key: Seq<char>) -> Option<Seq<u64>> {
    if m.contains_key(key) { Some(m[key]) } else { None }
}

impl RateLimiter {
    /// No key twice, and the window is at most a minute.
    pub closed spec fn wf(&self) -> bool {
        &&& forall|i: int, j: int|
            0 <= i < j < self.clients@.len() ==> (#[trigger] self.clients@[i]).0@ != (#[trigger] self.clients@[j]).0@
        &&& self.window_secs <= WINDOW_SECS
    }

    /// Each client's request times in the current window.
    pub closed spec fn clients(&self) -> Map<Seq<char>, Seq<u64>> {
        client_map(self.clients@)
    }

    /// The request budget per window.
    pub closed spec fn budget(&self) -> nat {
        self.max_per_window as nat
    }

    /// The latest time a clock-read check has used.
    pub closed spec fn latest(&self) -> u64 {
        self.latest
    }

    /// The window length in nanoseconds.
    pub closed spec fn window(&self) -> nat {
        (self.window_secs * NANOS_PER_SEC) as nat
    }

    /// A rate limiter with the given requests-per-minute budget.
    pub fn new(per_minute: u32) -> (r: Self)
        ensures
            r.wf(),
            r.budget() == per_minute,
            r.window() == WINDOW_SECS * NANOS_PER_SEC,
            r.clients() == Map::<Seq<char>, Seq<u64>>::empty(),
            r.latest() == 0,
    {
        RateLimiter {
            clients: Vec::new(),
            max_per_window: per_minute as usize,
            window_secs: WINDOW_SECS,
            clock: clock_now(),
            latest: 0,
        }
    }

    /// Whether the client `key` may make a request now; an allowed request
    /// is recorded. Stale request times are dropped first. The time used is
    /// never earlier than that of the previous check, so successive checks
    /// come at times that never decrease (see [`lemma_budget_per_window`]).
    pub fn check(&mut self, key: &str) -> (allowed: bool)
        requires
            old(self).wf(),
        ensures
            final(self).wf(),
            final(self).budget() == old(self).budget(),
            final(self).window() == old(self).window(),
            final(self).latest() >= old(self).latest(),
            ({
                let now = final(self).latest();
                let (q, ok) = after_check(entry_of(old(self).clients(), key@), now, old(self).window(), old(self).budget());
                &&& allowed == ok
                &&& final(self).clients() == old(self).clients().insert(key@, q)
            }),
    {
        let reading = nanos_since(&self.clock);
        let now = if reading < self.latest { self.latest } else { reading };
        self.latest = now;
        self.check_at(key, now)
    }

    /// Whether the client `key` may make a request at time `now`
    /// (nanoseconds on the limiter's clock); an allowed request is recorded.
    pub fn check_at(&mut self, key: &str, now: u64) -> (allowed: bool)
        requires
            old(self).wf(),
        ensures
            final(self).wf(),
            final(self).budget() == old(self).budget(),
            final(self).window() == old(self).window(),
            final(self).latest() == old(self).latest(),
            ({
                let (q, ok) = after_check(entry_of(old(self).clients(), key@), now, old(self).window(), old(self).budget());
                &&& allowed == ok
                &&& final(self).clients() == old(self).clients().insert(key@, q)
            }),
    {
        let window = self.window_secs * NANOS_PER_SEC;
        let mut i: usize = 0;
        while i < self.clients.len()
            invariant
                self.wf(),
                *self == *old(self),
                window == self.window_secs * NANOS_PER_SEC,
                i <= self.clients@.len(),
                forall|k: int| 0 <= k < i ==> (#[trigger] self.clients@[k]).0@ != key@,
            decreases self.clients@.len() - i,
        {
            if crate::text::str_eq(self.clients[i].0.as_str(), key) {
                let ghost before = self.clients@;
                proof {
                    lemma_client_map_at(before, i as int);
                }
                let (name, mut q) = self.clients.remove(i);
                let ghost q0 = q@;
                while q.len() > 0 && now.saturating_sub(q[0]) >= window
                    invariant
                        pruned(q0, now, window as nat) == pruned(q@, now, window as nat),
                    decreases q@.len(),
                {
                    proof {
                        assert(q@.drop_first() =~= q@.subrange(1, q@.len() as int));
                    }
                    q.pop_front();
                }
                proof {
                    assert(pruned(q@, now, window as nat) == q@);
                }
                let ghost p = q@;
                let allowed = q.len() < self.max_per_window;
                if allowed {
                    q.push_back(now);
                }
                let ghost entry = (name, q);
                proof {
                    assert(q0 == before[i as int].1@);
                    assert(entry_of(old(self).clients(), key@) == Some(q0));
                    assert(after_check(Some(q0), now, window as nat, self.max_per_window as nat) == (q@, allowed));
                }
                self.clients.insert(i, (name, q));
                proof {
                    assert(self.clients@ =~= before.update(i as int, entry));
                    lemma_client_map_update(before, i as int, entry);
                    assert(entry.0@ == key@);
                    assert(old(self).window() == window as nat);
                    assert(old(self).clients() == client_map(before));
                    assert(self.clients() == old(self).clients().insert(key@, q@));
                    assert forall|a: int, b: int| 0 <= a < b < self.clients@.len()
                        implies (#[trigger] self.clients@[a]).0@ != (#[trigger] self.clients@[b]).0@ by {
                        if a != i && b != i {
                            assert(before[a] == self.clients@[a] && before[b] == self.clients@[b]);
                        } else if a == i {
                            assert(before[b] == self.clients@[b]);
                        } else {
                            assert(before[a] == self.clients@[a]);
                        }
                    }
                }
                return allowed;
            }
            i += 1;
        }
        let ghost before = self.clients@;
        proof {
            lemma_client_map_absent(before, key@);
        }
        let mut q: VecDeque<u64> = VecDeque::new();
        let allowed = 0 < self.max_per_window;
        if allowed {
            q.push_back(now);
        }
        self.clients.push((key.to_owned(), q));
        proof {
            assert(self.clients@.drop_last() =~= before);
            if allowed {
                assert(q@ =~= seq![now]);
            } else {
                assert(q@ =~= Seq::<u64>::empty());
            }
            assert forall|a: int, b: int| 0 <= a < b < self.clients@.len()
                implies (#[trigger] self.clients@[a]).0@ != (#[trigger] self.clients@[b]).0@ by {
                assert(before[a] == self.clients@[a]);
                if b < before.len() {
                    assert(before[b] == self.clients@[b]);
                }
            }
        }
        allowed
    }
}

/// With distinct keys, the entry at `i` gives the map's value for its key.
proof fn lemma_client_map_at(entries: Seq<(String, VecDeque<u64>)>, i: int)
    requires
        0 <= i < entries.len(),
        forall|a: int, b: int| 0 <= a < b < entries.len() ==> (#[trigger] entries[a]).0@ != (#[trigger] entries[b]).0@,
    ensures
        client_map(entries).contains_key(entries[i].0@),
        client_map(entries)[entries[i].0@] == entries[i].1@,
    decreases entries.len(),
{
    if i < entries.len() - 1 {
        assert(entries.drop_last()[i] == entries[i]);
        assert(entries[entries.len() - 1] == entries.last());
        lemma_client_map_at(entries.drop_last(), i);
    }
}

/// A key that no entry has is not in the map.
proof fn lemma_client_map_absent(entries: Seq<(String, VecDeque<u64>)>, key: Seq<char>)
    requires
        forall|k: int| 0 <= k < entries.len() ==> (#[trigger] entries[k]).0@ != key,
    ensures
        !client_map(entries).contains_key(key),
    decreases entries.len(),
{
    if entries.len() > 0 {
        assert(entries[entries.len() - 1] == entries.last());
        lemma_client_map_absent(entries.drop_last(), key);
    }
}

/// Replacing the entry at `i` by one with the same key updates that key.
proof fn lemma_client_map_update(entries: Seq<(String, VecDeque<u64>)>, i: int, e: (String, VecDeque<u64>))
    requires
        0 <= i < entries.len(),
        e.0@ == entries[i].0@,
        forall|a: int, b: int| 0 <= a < b < entries.len() ==> (#[trigger] entries[a]).0@ != (#[trigger] entries[b]).0@,
    ensures
        client_map(entries.update(i, e)) == client_map(entries).insert(e.0@, e.1@),
    decreases entries.len(),
{
    let u = entries.update(i, e);
    if i == entries.len() - 1 {
        assert(u.drop_last() =~= entries.drop_last());
        assert(client_map(u) =~= client_map(entries).insert(e.0@, e.1@));
    } else {
        assert(u.drop_last() =~= entries.drop_last().update(i, e));
        assert(entries.drop_last()[i] == entries[i]);
        lemma_client_map_update(entries.drop_last(), i, e);
        assert(entries[entries.len() - 1] == entries.last());
        assert(entries.last().0@ != e.0@);
        assert(client_map(u) =~= client_map(entries).insert(e.0@, e.1@));
    }
}

/// Request times that are all younger than the window are all kept.
proof fn lemma_pruned_recent(q: Seq<u64>, now: u64, window: nat)
    requires
        forall|k: int| 0 <= k < q.len() ==> elapsed(now, #[trigger] q[k]) < window,
    ensures
        pruned(q, now, window) == q,
{
    if q.len() > 0 {
        assert(elapsed(now, q[0]) < window);
    }
}

/// A client that has used its whole budget within the window is refused,
/// and its request times stay as they were.
pub proof fn lemma_exhausted_client_refused(q: Seq<u64>, now: u64, window: nat, max: nat)
    requires
        q.len() >= max,
        forall|k: int| 0 <= k < q.len() ==> elapsed(now, #[trigger] q[k]) < window,
    ensures
        after_check(Some(q), now, window, max) == (q, false),
{
    lemma_pruned_recent(q, now, window);
}

/// A client with room left in its budget within the window is allowed, and
/// the request is recorded.
pub proof fn lemma_client_with_room_allowed(q: Seq<u64>, now: u64, window: nat, max: nat)
    requires
        q.len() < max,
        forall|k: int| 0 <= k < q.len() ==> elapsed(now, #[trigger] q[k]) < window,
    ensures
        after_check(Some(q), now, window, max) == (q.push(now), true),
{
    lemma_pruned_recent(q, now, window);
}

/// A client's first request is allowed exactly when the budget is not zero,
/// and is then the one request on record.
pub proof fn lemma_first_request_allowed(now: u64, window: nat, max: nat)
    ensures
        after_check(None, now, window, max).1 <==> max >= 1,
        max >= 1 ==> after_check(None, now, window, max).0 == seq![now],
{
}

/// Pruning only drops request times.
proof fn lemma_pruned_shorter(q: Seq<u64>, now: u64, window: nat)
    ensures
        pruned(q, now, window).len() <= q.len(),
    decreases q.len(),
{
    if q.len() > 0 && elapsed(now, q[0]) >= window {
        lemma_pruned_shorter(q.drop_first(), now, window);
    }
}

/// A client never has more request times on record than the budget: a check
/// keeps that true, whatever the time.
pub proof fn lemma_recorded_within_budget(q: Option<Seq<u64>>, now: u64, window: nat, max: nat)
    requires
        q matches Some(times) ==> times.len() <= max,
    ensures
        after_check(q, now, window, max).0.len() <= max,
{
    match q {
        Some(times) => lemma_pruned_shorter(times, now, window),
        None => {},
    }
}

// ---------------------------------------------------------------------------
// A client's checks over time
// ---------------------------------------------------------------------------

/// A client's request times on record after its first `n` checks at the
/// times `ts` (nothing before the first).
pub open spec fn record_after(ts: Seq<u64>, n: int, window: nat, max: nat) -> Option<Seq<u64>>
    decreases n,
{
    if n <= 0 {
        None
    } else {
        Some(after_check(record_after(ts, n - 1, window, max), ts[n - 1], window, max).0)
    }
}

/// Whether the client's check number `j` (at time `ts[j]`) is allowed.
pub open spec fn allowed_at(ts: Seq<u64>, j: int, window: nat, max: nat) -> bool {
    after_check(record_after(ts, j, window, max), ts[j], window, max).1
}

/// How many of the first `n` checks were allowed at a time in `[lo, hi)`.
pub open spec fn allowed_in(ts: Seq<u64>, lo: int, hi: int, n: int, window: nat, max: nat) -> nat
    decreases n,
{
    if n <= 0 {
        0
    } else {
        allowed_in(ts, lo, hi, n - 1, window, max)
            + if allowed_at(ts, n - 1, window, max) && lo <= ts[n - 1] < hi { 1nat } else { 0nat }
    }
}

/// The times never decrease.
pub open spec fn nondecreasing(ts: Seq<u64>) -> bool {
    forall|i: int, j: int| 0 <= i <= j < ts.len() ==> ts[i] <= ts[j]
}

/// The allowed times among the first `n` checks that are younger than the
/// window at `now`, in order.
pub open spec fn recent_allowed(ts: Seq<u64>, now: u64, n: int, window: nat, max: nat) -> Seq<u64>
    decreases n,
{
    if n <= 0 {
        seq![]
    } else {
        recent_allowed(ts, now, n - 1, window, max)
            + if allowed_at(ts, n - 1, window, max) && elapsed(now, ts[n - 1]) < window { seq![ts[n - 1]] } else { seq![] }
    }
}

/// The times of `s` younger than the window at `now`, in order.
pub open spec fn young(s: Seq<u64>, now: u64, window: nat) -> Seq<u64>
    decreases s.len(),
{
    if s.len() == 0 {
        s
    } else {
        young(s.drop_last(), now, window) + if elapsed(now, s.last()) < window { seq![s.last()] } else { seq![] }
    }
}

proof fn lemma_young_concat(a: Seq<u64>, b: Seq<u64>, now: u64, window: nat)
    ensures
        young(a + b, now, window) == young(a, now, window) + young(b, now, window),
    decreases b.len(),
{
    if b.len() == 0 {
        assert(a + b =~= a);
        assert(young(b, now, window) =~= Seq::<u64>::empty());
        assert(young(a, now, window) + young(b, now, window) =~= young(a, now, window));
    } else {
        assert((a + b).drop_last() =~= a + b.drop_last());
        assert((a + b).last() == b.last());
        lemma_young_concat(a, b.drop_last(), now, window);
        let m = if elapsed(now, b.last()) < window { seq![b.last()] } else { Seq::<u64>::empty() };
        assert(young(a, now, window) + young(b.drop_last(), now, window) + m
            =~= young(a, now, window) + (young(b.drop_last(), now, window) + m));
    }
}

proof fn lemma_young_all(s: Seq<u64>, now: u64, window: nat)
    requires
        forall|i: int| 0 <= i < s.len() ==> elapsed(now, #[trigger] s[i]) < window,
    ensures
        young(s, now, window) == s,
    decreases s.len(),
{
    if s.len() > 0 {
        lemma_young_all(s.drop_last(), now, window);
        assert(s[s.len() - 1] == s.last());
        assert(s.drop_last() + seq![s.last()] =~= s);
    }
}

/// Sorted times no later than `now` are pruned to exactly their young ones.
proof fn lemma_pruned_young(s: Seq<u64>, now: u64, window: nat)
    requires
        nondecreasing(s),
        forall|i: int| 0 <= i < s.len() ==> #[trigger] s[i] <= now,
    ensures
        pruned(s, now, window) == young(s, now, window),
    decreases s.len(),
{
    if s.len() > 0 {
        assert(s =~= seq![s[0]] + s.drop_first());
        lemma_young_concat(seq![s[0]], s.drop_first(), now, window);
        assert(seq![s[0]].drop_last() =~= Seq::<u64>::empty());
        assert(young(Seq::<u64>::empty(), now, window) =~= Seq::<u64>::empty());
        if elapsed(now, s[0]) >= window {
            assert(young(seq![s[0]], now, window) =~= Seq::<u64>::empty());
            assert(nondecreasing(s.drop_first()));
            lemma_pruned_young(s.drop_first(), now, window);
            assert(Seq::<u64>::empty() + young(s.drop_first(), now, window) =~= young(s.drop_first(), now, window));
        } else {
            assert forall|i: int| 0 <= i < s.len() implies elapsed(now, #[trigger] s[i]) < window by {
                assert(s[0] <= s[i]);
            }
            lemma_young_all(s, now, window);
        }
    }
}

/// The recent allowed times are sorted and no later than the last check.
proof fn lemma_recent_sorted(ts: Seq<u64>, now: u64, n: int, window: nat, max: nat)
    requires
        nondecreasing(ts),
        0 < n <= ts.len(),
    ensures
        nondecreasing(recent_allowed(ts, now, n, window, max)),
        forall|i: int| 0 <= i < recent_allowed(ts, now, n, window, max).len()
            ==> #[trigger] recent_allowed(ts, now, n, window, max)[i] <= ts[n - 1],
    decreases n,
{
    let r = recent_allowed(ts, now, n, window, max);
    let p = recent_allowed(ts, now, n - 1, window, max);
    if n > 1 {
        lemma_recent_sorted(ts, now, n - 1, window, max);
        assert(ts[n - 2] <= ts[n - 1]);
    } else {
        assert(p =~= Seq::<u64>::empty());
    }
    assert forall|i: int| 0 <= i < r.len() implies #[trigger] r[i] <= ts[n - 1] by {
        if i < p.len() {
            assert(r[i] == p[i]);
        }
    }
    assert forall|i: int, j: int| 0 <= i <= j < r.len() implies r[i] <= r[j] by {
        if j < p.len() {
            assert(r[i] == p[i] && r[j] == p[j]);
        } else if i < p.len() {
            assert(r[i] == p[i]);
        }
    }
}

/// Keeping the times young at a later `now` of the times young at `prev`
/// gives the times young at `now`.
proof fn lemma_young_recent(ts: Seq<u64>, prev: u64, now: u64, n: int, window: nat, max: nat)
    requires
        0 <= n <= ts.len(),
        prev <= now,
        forall|j: int| 0 <= j < n ==> #[trigger] ts[j] <= prev,
    ensures
        young(recent_allowed(ts, prev, n, window, max), now, window) == recent_allowed(ts, now, n, window, max),
    decreases n,
{
    if n <= 0 {
        assert(young(Seq::<u64>::empty(), now, window) =~= Seq::<u64>::empty());
    } else {
        lemma_young_recent(ts, prev, now, n - 1, window, max);
        let t = ts[n - 1];
        let m = if allowed_at(ts, n - 1, window, max) && elapsed(prev, t) < window { seq![t] } else { Seq::<u64>::empty() };
        lemma_young_concat(recent_allowed(ts, prev, n - 1, window, max), m, now, window);
        assert(seq![t].drop_last() =~= Seq::<u64>::empty());
        assert(young(Seq::<u64>::empty(), now, window) =~= Seq::<u64>::empty());
        assert(young(m, now, window) =~= if allowed_at(ts, n - 1, window, max) && elapsed(now, t) < window {
            seq![t]
        } else {
            Seq::<u64>::empty()
        });
    }
}

/// With times that never decrease, a client's record after `n` checks is
/// exactly its allowed times younger than the window at the last check.
proof fn lemma_record_is_recent(ts: Seq<u64>, n: int, window: nat, max: nat)
    requires
        nondecreasing(ts),
        window > 0,
        0 < n <= ts.len(),
    ensures
        record_after(ts, n, window, max) == Some(recent_allowed(ts, ts[n - 1], n, window, max)),
    decreases n,
{
    let t = ts[n - 1];
    assert(recent_allowed(ts, t, 0, window, max) =~= Seq::<u64>::empty());
    if n == 1 {
        assert(elapsed(t, t) == 0);
        assert(recent_allowed(ts, t, 1, window, max) =~= if 0 < max { seq![t] } else { Seq::<u64>::empty() });
    } else {
        lemma_record_is_recent(ts, n - 1, window, max);
        let prev = ts[n - 2];
        assert(prev <= t);
        let r = recent_allowed(ts, prev, n - 1, window, max);
        lemma_recent_sorted(ts, prev, n - 1, window, max);
        assert forall|i: int| 0 <= i < r.len() implies #[trigger] r[i] <= t by {
            assert(r[i] <= prev);
        }
        lemma_pruned_young(r, t, window);
        assert forall|j: int| 0 <= j < n - 1 implies #[trigger] ts[j] <= prev by {
            assert(ts[j] <= ts[n - 2]);
        }
        lemma_young_recent(ts, prev, t, n - 1, window, max);
        assert(elapsed(t, t) == 0);
        let p = recent_allowed(ts, t, n - 1, window, max);
        assert(p.push(t) =~= p + seq![t]);
        assert(p + Seq::<u64>::empty() =~= p);
    }
}

/// The allowed checks within a window ending after `now` are all younger
/// than the window at `now`, so they are no more than the recent ones.
proof fn lemma_window_count_recent(ts: Seq<u64>, lo: int, now: u64, n: int, window: nat, max: nat)
    requires
        0 <= n <= ts.len(),
        now < lo + window,
        forall|j: int| 0 <= j < n ==> #[trigger] ts[j] <= now,
    ensures
        allowed_in(ts, lo, lo + window, n, window, max) <= recent_allowed(ts, now, n, window, max).len(),
    decreases n,
{
    if n > 0 {
        lemma_window_count_recent(ts, lo, now, n - 1, window, max);
    }
}

/// One check steps a client's record along its sequence of checks: when the
/// client's entry is its record after `n` checks at the times `ts`, the
/// check at `ts[n]` answers `allowed_at(ts, n)` and leaves the record after
/// `n + 1` checks; every other client's entry stays as it was. So the
/// limiter's checks of one client, whatever other clients do in between,
/// are the run that [`lemma_budget_per_window`] speaks of.
pub proof fn lemma_check_steps_record(
    clients: Map<Seq<char>, Seq<u64>>,
    key: Seq<char>,
    other: Seq<char>,
    ts: Seq<u64>,
    n: int,
    window: nat,
    max: nat,
)
    requires
        0 <= n < ts.len(),
        entry_of(clients, key) == record_after(ts, n, window, max),
        other != key,
    ensures
        ({
            let (q, ok) = after_check(entry_of(clients, key), ts[n], window, max);
            &&& ok == allowed_at(ts, n, window, max)
            &&& entry_of(clients.insert(key, q), key) == record_after(ts, n + 1, window, max)
            &&& entry_of(clients.insert(key, q), other) == entry_of(clients, other)
        }),
{
}

/// Within every window of the limiter's length, a client whose checks come
/// at times that never decrease is allowed at most its budget of requests:
/// of its checks at times `ts`, those allowed at a time in `[lo, lo + window)`
/// number at most `max`. (A check of another client leaves this client's
/// record as it is, so its own checks alone decide.)
pub proof fn lemma_budget_per_window(ts: Seq<u64>, lo: int, window: nat, max: nat)
    requires
        nondecreasing(ts),
        window > 0,
    ensures
        allowed_in(ts, lo, lo + window, ts.len() as int, window, max) <= max,
{
    lemma_budget_upto(ts, lo, ts.len() as int, window, max);
}

proof fn lemma_budget_upto(ts: Seq<u64>, lo: int, n: int, window: nat, max: nat)
    requires
        nondecreasing(ts),
        window > 0,
        0 <= n <= ts.len(),
    ensures
        allowed_in(ts, lo, lo + window, n, window, max) <= max,
    decreases n,
{
    if n > 0 {
        lemma_budget_upto(ts, lo, n - 1, window, max);
        let t = ts[n - 1];
        if allowed_at(ts, n - 1, window, max) && lo <= t < lo + window {
            if n == 1 {
                assert(allowed_in(ts, lo, lo + window, 0, window, max) == 0);
            } else {
                lemma_record_is_recent(ts, n - 1, window, max);
                let prev = ts[n - 2];
                let r = recent_allowed(ts, prev, n - 1, window, max);
                lemma_recent_sorted(ts, prev, n - 1, window, max);
                assert(prev <= t);
                assert forall|i: int| 0 <= i < r.len() implies #[trigger] r[i] <= t by {
                    assert(r[i] <= prev);
                }
                lemma_pruned_young(r, t, window);
                assert forall|j: int| 0 <= j < n - 1 implies #[trigger] ts[j] <= prev by {
                    assert(ts[j] <= ts[n - 2]);
                }
                lemma_young_recent(ts, prev, t, n - 1, window, max);
                assert forall|j: int| 0 <= j < n - 1 implies #[trigger] ts[j] <= t by {
                    assert(ts[j] <= ts[n - 1]);
                }
                lemma_window_count_recent(ts, lo, t, n - 1, window, max);
            }
        }
    }
}

// ---------------------------------------------------------------------------
// Context trimming
// ---------------------------------------------------------------------------

/// The blocks of `s` from position `k` on, `cur` being the block read so
/// far: `s` split at each blank-line separator `"\n\n"`, left to right.
pub open spec fn blocks_from(s: Seq<char>, k: int, cur: Seq<char>) -> Seq<Seq<char>>
    decreases s.len() - k,
{
    if k >= s.len() {
        seq![cur]
    } else if k + 1 < s.len() && s[k] == '\n' && s[k + 1] == '\n' {
        seq![cur] + blocks_from(s, k + 2, seq![])
    } else {
        blocks_from(s, k + 1, cur.push(s[k]))
    }
}

/// `s` split at each `"\n\n"` (what `str::split("\n\n")` yields).
pub open spec fn blocks(s: Seq<char>) -> Seq<Seq<char>> {
    blocks_from(s, 0, seq![])
}

/// The blank-line separator between blocks.
pub open spec fn block_sep() -> Seq<char> {
    seq!['\n', '\n']
}

/// Blocks taken in order onto `acc` while they fit in `max` bytes: a block
/// joins with a separator; the first non-empty text is always taken.
pub open spec fn take_blocks(parts: Seq<Seq<char>>, acc: Seq<char>, max: nat) -> Seq<char>
    decreases parts.len(),
{
    if parts.len() == 0 {
        acc
    } else if acc.len() == 0 {
        take_blocks(parts.drop_first(), parts[0], max)
    } else if byte_len(acc) + 2 + byte_len(parts[0]) > max {
        acc
    } else {
        take_blocks(parts.drop_first(), acc + block_sep() + parts[0], max)
    }
}

/// The ellipsis appended to a truncated context.
pub open spec fn ellipsis() -> char {
    '\u{2026}'
}

/// Bytes taken by the ellipsis.
pub const ELLIPSIS_BYTES: usize = 3;

/// The whole blocks of `context` that fit in `max` bytes (at least one).
pub open spec fn fitting_blocks(context: Seq<char>, max: nat) -> Seq<char> {
    take_blocks(blocks(context), seq![], max)
}

/// Trimming would need to shorten the blocks below the ellipsis' size.
pub open spec fn trim_underflows(context: Seq<char>, max: nat) -> bool {
    byte_len(context) > max && byte_len(fitting_blocks(context, max)) > max && max < ELLIPSIS_BYTES
}

/// Length of the longest prefix of `s`, from its first `k` characters on,
/// whose UTF-8 encoding takes at most `n` bytes.
pub open spec fn prefix_within(s: Seq<char>, n: nat, k: int) -> int
    decreases s.len() - k,
{
    if 0 <= k < s.len() && byte_len(s.take(k + 1)) <= n {
        prefix_within(s, n, k + 1)
    } else {
        k
    }
}

/// The context cut to at most `max` bytes at block boundaries; when even the
/// first block is too long, it keeps the longest prefix of that block that
/// leaves room for the ellipsis, and ends with the ellipsis.
pub open spec fn trimmed_context(context: Seq<char>, max: nat) -> Seq<char> {
    if byte_len(context) <= max {
        context
    } else {
        let r = fitting_blocks(context, max);
        if byte_len(r) > max {
            r.take(prefix_within(r, (max - ELLIPSIS_BYTES) as nat, 0)).push(ellipsis())
        } else {
            r
        }
    }
}

/// The byte length of `v`, or `usize::MAX` when it is larger.
fn saturating_bytes(v: &Vec<char>) -> (n: usize)
    ensures
        n == (if byte_len(v@) < usize::MAX { byte_len(v@) } else { usize::MAX as nat }),
{
    let mut n: usize = 0;
    let mut i: usize = 0;
    proof {
        lemma_byte_len_empty();
        assert(v@.take(0) =~= Seq::<char>::empty());
    }
    while i < v.len()
        invariant
            i <= v@.len(),
            n == (if byte_len(v@.take(i as int)) < usize::MAX { byte_len(v@.take(i as int)) } else { usize::MAX as nat }),
            byte_len(v@.take(i as int)) <= byte_len(v@),
        decreases v@.len() - i,
    {
        let c = v[i];
        proof {
            assert(v@.take(i + 1) =~= v@.take(i as int).push(c));
            lemma_byte_len_push(v@.take(i as int), c);
            assert(v@ =~= v@.take(i + 1) + v@.skip(i + 1));
            crate::text::lemma_byte_len_concat(v@.take(i + 1), v@.skip(i + 1));
        }
        n = n.saturating_add(char_len_utf8(c));
        i += 1;
    }
    proof {
        assert(v@.take(v@.len() as int) =~= v@);
    }
    n
}

/// The blocks of `s` split at each `"\n\n"`.
fn split_blocks(s: &Vec<char>) -> (parts: Vec<Vec<char>>)
    ensures
        parts@.map_values(|p: Vec<char>| p@) == blocks(s@),
{
    let mut parts: Vec<Vec<char>> = Vec::new();
    let mut cur: Vec<char> = Vec::new();
    let mut k: usize = 0;
    while k < s.len()
        invariant
            k <= s@.len(),
            blocks(s@) == parts@.map_values(|p: Vec<char>| p@) + blocks_from(s@, k as int, cur@),
        decreases s@.len() - k,
    {
        if k + 1 < s.len() && s[k] == '\n' && s[k + 1] == '\n' {
            let ghost before = parts@;
            let ghost c = cur@;
            parts.push(cur);
            proof {
                assert(parts@.map_values(|p: Vec<char>| p@) =~= before.map_values(|p: Vec<char>| p@).push(c));
                assert(before.map_values(|p: Vec<char>| p@) + (seq![c] + blocks_from(s@, k + 2, seq![]))
                    =~= parts@.map_values(|p: Vec<char>| p@) + blocks_from(s@, k + 2, seq![]));
            }
            cur = Vec::new();
            proof {
                assert(cur@ =~= Seq::<char>::empty());
            }
            k += 2;
        } else {
            cur.push(s[k]);
            k += 1;
        }
    }
    let ghost before = parts@;
    let ghost c = cur@;
    parts.push(cur);
    proof {
        assert(parts@.map_values(|p: Vec<char>| p@) =~= before.map_values(|p: Vec<char>| p@) + seq![c]);
    }
    parts
}

/// The whole blocks of `chars` that fit in `max` bytes (at least one).
fn fit_blocks(chars: &Vec<char>, max: usize) -> (r: Vec<char>)
    requires
        byte_len(chars@) > max,
        byte_len(chars@) <= usize::MAX,
    ensures
        r@ == take_blocks(blocks(chars@), seq![], max as nat),
{
    let parts = split_blocks(chars);
    let ghost ps = parts@.map_values(|p: Vec<char>| p@);
    let mut result: Vec<char> = Vec::new();
    let mut total: usize = 0;
    let mut p: usize = 0;
    proof {
        assert(ps.skip(0) =~= ps);
        lemma_byte_len_empty();
    }
    while p < parts.len()
        invariant_except_break
            take_blocks(blocks(chars@), seq![], max as nat) == take_blocks(ps.skip(p as int), result@, max as nat),
        invariant
            ps == parts@.map_values(|p: Vec<char>| p@),
            ps == blocks(chars@),
            max < usize::MAX,
            p <= ps.len(),
            total == (if byte_len(result@) < usize::MAX { byte_len(result@) } else { usize::MAX as nat }),
        ensures
            take_blocks(blocks(chars@), seq![], max as nat) == result@,
        decreases ps.len() - p,
    {
        proof {
            assert(ps.skip(p as int)[0] == parts@[p as int]@);
            assert(ps.skip(p as int).drop_first() =~= ps.skip(p + 1));
        }
        let part_bytes = saturating_bytes(&parts[p]);
        if result.len() == 0 {
            result = parts[p].clone();
            total = part_bytes;
        } else {
            let block = part_bytes.saturating_add(2);
            if total.saturating_add(block) > max {
                break;
            }
            let ghost before = result@;
            result.push('\n');
            result.push('\n');
            let mut piece = parts[p].clone();
            result.append(&mut piece);
            proof {
                assert(result@ =~= before + block_sep() + parts@[p as int]@);
                crate::text::lemma_byte_len_concat(before + block_sep(), parts@[p as int]@);
                crate::text::lemma_byte_len_concat(before, block_sep());
                assert(block_sep() =~= Seq::<char>::empty().push('\n').push('\n'));
                lemma_byte_len_push(Seq::<char>::empty(), '\n');
                lemma_byte_len_push(Seq::<char>::empty().push('\n'), '\n');
            }
            total = total + block;
        }
        p += 1;
    }
    proof {
        if p == ps.len() {
            assert(ps.skip(p as int) =~= Seq::<Seq<char>>::empty());
        }
    }
    result
}

/// Length of the longest prefix of `v` that takes at most `n` bytes.
fn prefix_len_within(v: &Vec<char>, n: usize) -> (k: usize)
    ensures
        k == prefix_within(v@, n as nat, 0),
        k <= v@.len(),
{
    let mut k: usize = 0;
    let mut bytes: usize = 0;
    proof {
        lemma_byte_len_empty();
        assert(v@.take(0) =~= Seq::<char>::empty());
    }
    while k < v.len() && char_len_utf8(v[k]) <= n - bytes
        invariant
            k <= v@.len(),
            bytes == byte_len(v@.take(k as int)),
            bytes <= n,
            prefix_within(v@, n as nat, 0) == prefix_within(v@, n as nat, k as int),
        decreases v@.len() - k,
    {
        proof {
            assert(v@.take(k + 1) =~= v@.take(k as int).push(v@[k as int]));
            lemma_byte_len_push(v@.take(k as int), v@[k as int]);
        }
        bytes = bytes + char_len_utf8(v[k]);
        k += 1;
    }
    proof {
        if k < v@.len() {
            assert(v@.take(k + 1) =~= v@.take(k as int).push(v@[k as int]));
            lemma_byte_len_push(v@.take(k as int), v@[k as int]);
        }
    }
    k
}

/// Truncates `context` to fit in `max_context_size` bytes, keeping whole
/// blocks (each block starts with `[file_path:line]`, blocks are separated
/// by a blank line); the first block is always kept, cut and ended with an
/// ellipsis when it alone is too long.
pub fn trim_context(context: String, max_context_size: usize) -> (r: String)
    requires
        byte_len(context@) <= usize::MAX,
        !trim_underflows(context@, max_context_size as nat),
    ensures
        r@ == trimmed_context(context@, max_context_size as nat),
{
    let max = max_context_size;
    let chars = chars_of(context.as_str());
    if saturating_bytes(&chars) <= max {
        return context;
    }
    let mut result = fit_blocks(&chars, max);
    let rb = saturating_bytes(&result);
    if rb > max {
        let target = max - ELLIPSIS_BYTES;
        let keep = prefix_len_within(&result, target);
        result.truncate(keep);
        result.push('\u{2026}');
    }
    string_of(result.as_slice())
}

/// Trims `context` as [`trim_context`] does, or gives `None` when the budget
/// is smaller than the ellipsis and the first block does not fit it.
pub fn trim_context_checked(context: String, max_context_size: usize) -> (r: Option<String>)
    requires
        byte_len(context@) <= usize::MAX,
    ensures
        r is None <==> trim_underflows(context@, max_context_size as nat),
        r matches Some(t) ==> t@ == trimmed_context(context@, max_context_size as nat),
{
    let chars = chars_of(context.as_str());
    if saturating_bytes(&chars) <= max_context_size {
        return Some(context);
    }
    let fitted = fit_blocks(&chars, max_context_size);
    if saturating_bytes(&fitted) > max_context_size && max_context_size < ELLIPSIS_BYTES {
        return None;
    }
    Some(trim_context(context, max_context_size))
}

// ---------------------------------------------------------------------------
// Request checks
// ---------------------------------------------------------------------------

/// Longest accepted search query or question, in bytes.
pub const MAX_QUERY_LENGTH_CHARS: usize = 4096;

/// HTTP status of a rejected request.
pub const BAD_REQUEST: u16 = 400;

/// HTTP status of an unauthenticated request.
pub const UNAUTHORIZED: u16 = 401;

/// The message for a field that is too long.
pub open spec fn too_long_message(field: Seq<char>, len: nat) -> Seq<char> {
    "Field '"@ + field + "' exceeds maximum length of "@ + decimal(MAX_QUERY_LENGTH_CHARS as nat)
        + " characters (got "@ + decimal(len) + ")"@
}

/// Checks that a request field is at most 4096 bytes long.
pub fn validate_query_length(value: &str, field_name: &str) -> (r: Result<(), (u16, String)>)
    requires
        byte_len(value@) <= usize::MAX,
    ensures
        byte_len(value@) <= MAX_QUERY_LENGTH_CHARS ==> r is Ok,
        byte_len(value@) > MAX_QUERY_LENGTH_CHARS ==> (r matches Err((code, msg))
            && code == BAD_REQUEST && msg@ == too_long_message(field_name@, byte_len(value@))),
{
    let n = value.len();
    if n > MAX_QUERY_LENGTH_CHARS {
        let a = concat3("Field '", field_name, "' exceeds maximum length of ");
        let b = concat3(a.as_str(), decimal_string(MAX_QUERY_LENGTH_CHARS).as_str(), " characters (got ");
        let c = concat3(b.as_str(), decimal_string(n).as_str(), ")");
        return Err((BAD_REQUEST, c));
    }
    Ok(())
}

/// The token of an `Authorization` value of the form `Bearer <token>`.
pub open spec fn bearer_of(auth: Option<Seq<char>>) -> Option<Seq<char>> {
    match auth {
        Some(a) => if has_prefix(a, "Bearer "@) { Some(a.skip(7)) } else { None },
        None => None,
    }
}

/// The bearer token of the `Authorization` header value, if it has one.
pub fn extract_bearer_token(authorization: Option<&str>) -> (r: Option<String>)
    ensures
        match r {
            Some(t) => bearer_of(match authorization { Some(a) => Some(a@), None => None }) == Some(t@),
            None => bearer_of(match authorization { Some(a) => Some(a@), None => None }) is None,
        },
{
    match authorization {
        Some(a) => {
            let chars = chars_of(a);
            let prefix = chars_of("Bearer ");
            proof {
                reveal_strlit("Bearer ");
            }
            if starts_with(chars.as_slice(), prefix.as_slice()) {
                let mut rest: Vec<char> = Vec::new();
                let mut i: usize = 7;
                while i < chars.len()
                    invariant
                        7 <= i <= chars@.len(),
                        rest@ == chars@.subrange(7, i as int),
                    decreases chars@.len() - i,
                {
                    rest.push(chars[i]);
                    proof {
                        assert(chars@.subrange(7, i + 1) =~= chars@.subrange(7, i as int).push(chars@[i as int]));
                    }
                    i += 1;
                }
                proof {
                    assert(chars@.subrange(7, chars@.len() as int) =~= a@.skip(7));
                }
                Some(string_of(rest.as_slice()))
            } else {
                None
            }
        },
        None => None,
    }
}

/// The status a request is refused with, if any: `/status` is public, no
/// key means no authentication, otherwise the bearer token must equal the key.
pub open spec fn auth_refusal(auth: Option<Seq<char>>, api_key: Option<Seq<char>>, path: Seq<char>) -> Option<u16> {
    if path == "/status"@ {
        None
    } else {
        match api_key {
            None => None,
            Some(k) => if bearer_of(auth) == Some(k) { None } else { Some(UNAUTHORIZED) },
        }
    }
}

/// Enforces bearer-token authentication: the status to refuse with, or
/// `None` when the request may go on.
pub fn enforce_auth(authorization: Option<&str>, api_key: &Option<String>, path: &str) -> (r: Option<u16>)
    ensures
        r == auth_refusal(
            match authorization { Some(a) => Some(a@), None => None },
            match api_key { Some(k) => Some(k@), None => None },
            path@,
        ),
{
    if str_eq(path, "/status") {
        return None;
    }
    let expected = match api_key {
        Some(k) => k,
        None => {
            return None;
        },
    };
    match extract_bearer_token(authorization) {
        Some(t) => {
            if t == *expected {
                None
            } else {
                Some(UNAUTHORIZED)
            }
        },
        None => Some(UNAUTHORIZED),
    }
}

/// The characters of `s` up to its first `,`.
pub open spec fn before_comma(s: Seq<char>) -> Seq<char> {
    if exists|i: int| 0 <= i < s.len() && s[i] == ',' {
        s.take(choose|i: int| 0 <= i < s.len() && s[i] == ',' && forall|j: int| 0 <= j < i ==> s[j] != ',')
    } else {
        s
    }
}

/// The client key of a request: the first address of `X-Forwarded-For`,
/// else `X-Real-Ip`, trimmed, else the fallback.
pub open spec fn client_key(forwarded_for: Option<Seq<char>>, real_ip: Option<Seq<char>>, fallback: Seq<char>) -> Seq<char> {
    match forwarded_for {
        Some(f) => trimmed(before_comma(f)),
        None => match real_ip {
            Some(r) => trimmed(r),
            None => fallback,
        },
    }
}

impl RateLimiter {
    /// The client key from the `X-Forwarded-For` and `X-Real-Ip` header
    /// values (those that are readable text), or the fallback.
    pub fn resolve_key(forwarded_for: Option<&str>, real_ip: Option<&str>, fallback: &str) -> (k: String)
        ensures
            k@ == client_key(
                match forwarded_for { Some(f) => Some(f@), None => None },
                match real_ip { Some(r) => Some(r@), None => None },
                fallback@,
            ),
    {
        match forwarded_for {
            Some(f) => {
                let chars = chars_of(f);
                let mut first: Vec<char> = Vec::new();
                let mut i: usize = 0;
                while i < chars.len() && chars[i] != ','
                    invariant
                        i <= chars@.len(),
                        first@ == chars@.take(i as int),
                        forall|j: int| 0 <= j < i ==> chars@[j] != ',',
                    decreases chars@.len() - i,
                {
                    first.push(chars[i]);
                    proof {
                        assert(chars@.take(i + 1) =~= chars@.take(i as int).push(chars@[i as int]));
                    }
                    i += 1;
                }
                proof {
                    if i < chars@.len() {
                        let c = choose|c: int| 0 <= c < f@.len() && f@[c] == ',' && forall|j: int| 0 <= j < c ==> f@[j] != ',';
                        assert(c == i as int);
                    } else {
                        assert(chars@.take(i as int) =~= f@);
                    }
                }
                string_of(trim_chars(&first).as_slice())
            },
            None => match real_ip {
                Some(r) => string_of(trim_chars(&chars_of(r)).as_slice()),
                None => fallback.to_owned(),
            },
        }
    }
}

// ---------------------------------------------------------------------------
// Handling a request
// ---------------------------------------------------------------------------

/// HTTP status of a client over its rate limit.
pub const TOO_MANY_REQUESTS: u16 = 429;

/// The client key used when no proxy header names one.
pub open spec fn local_client() -> Seq<char> {
    "127.0.0.1"@
}

/// The outcome of the checks on a request at time `now`, and the client's
/// request times afterwards (`None` when the limiter is not consulted).
pub open spec fn admission(
    clients: Map<Seq<char>, Seq<u64>>,
    window: nat,
    budget: nat,
    auth: Option<Seq<char>>,
    api_key: Option<Seq<char>>,
    path: Seq<char>,
    client: Seq<char>,
    now: u64,
    value: Seq<char>,
    field: Seq<char>,
) -> (Result<(), (u16, Seq<char>)>, Option<Seq<u64>>) {
    match auth_refusal(auth, api_key, path) {
        Some(code) => (Err((code, "Unauthorized"@)), None),
        None => {
            let (q, ok) = after_check(entry_of(clients, client), now, window, budget);
            if !ok {
                (Err((TOO_MANY_REQUESTS, "Rate limit exceeded"@)), Some(q))
            } else if byte_len(value) > MAX_QUERY_LENGTH_CHARS {
                (Err((BAD_REQUEST, too_long_message(field, byte_len(value)))), Some(q))
            } else {
                (Ok(()), Some(q))
            }
        },
    }
}

/// Authentication: `/status` is always open and, without an API key, so is
/// every path; with a key, any other path is open exactly to a request whose
/// `Authorization` header is `Bearer ` followed by the key, and a refusal is
/// a 401.
pub proof fn lemma_auth_rules(auth: Option<Seq<char>>, api_key: Option<Seq<char>>, path: Seq<char>)
    ensures
        path == "/status"@ ==> auth_refusal(auth, api_key, path) is None,
        api_key is None ==> auth_refusal(auth, api_key, path) is None,
        forall|k: Seq<char>| api_key == Some(k) && path != "/status"@ ==>
            (auth_refusal(auth, api_key, path) is None <==> auth == Some("Bearer "@ + k)),
        auth_refusal(auth, api_key, path) is Some ==> auth_refusal(auth, api_key, path) == Some(401u16),
{
    reveal_strlit("Bearer ");
    assert("Bearer "@.len() == 7);
    assert forall|k: Seq<char>| api_key == Some(k) && path != "/status"@ implies
        (auth_refusal(auth, api_key, path) is None <==> auth == Some("Bearer "@ + k)) by {
        if let Some(a) = auth {
            if a == "Bearer "@ + k {
                assert(a.subrange(0, 7) =~= "Bearer "@);
                assert(a.skip(7) =~= k);
            }
            if has_prefix(a, "Bearer "@) && a.skip(7) == k {
                assert(a =~= "Bearer "@ + k);
            }
        }
    }
}

/// The order of a request's checks: a request refused by authentication is
/// answered 401 and does not count against the client's rate limit; any
/// other request counts, and is let through exactly when it is within the
/// rate limit and its field is at most 4096 bytes long.
pub proof fn lemma_admission_order(
    clients: Map<Seq<char>, Seq<u64>>,
    window: nat,
    budget: nat,
    auth: Option<Seq<char>>,
    api_key: Option<Seq<char>>,
    path: Seq<char>,
    client: Seq<char>,
    now: u64,
    value: Seq<char>,
    field: Seq<char>,
)
    ensures
        ({
            let (res, q) = admission(clients, window, budget, auth, api_key, path, client, now, value, field);
            let (recorded, within) = after_check(entry_of(clients, client), now, window, budget);
            &&& auth_refusal(auth, api_key, path) is Some ==> res == Err::<(), (u16, Seq<char>)>((401u16, "Unauthorized"@)) && q is None
            &&& auth_refusal(auth, api_key, path) is None ==> q == Some(recorded)
            &&& res is Ok <==> (auth_refusal(auth, api_key, path) is None && within && byte_len(value) <= 4096)
            &&& (auth_refusal(auth, api_key, path) is None && !within) ==> res == Err::<(), (u16, Seq<char>)>((429u16, "Rate limit exceeded"@))
        }),
{
    lemma_auth_rules(auth, api_key, path);
}

/// A check's result as plain values.
pub open spec fn admission_view(r: Result<(), (u16, String)>) -> Result<(), (u16, Seq<char>)> {
    match r {
        Ok(()) => Ok(()),
        Err((c, m)) => Err((c, m@)),
    }
}

impl RateLimiter {
    /// The current time on the limiter's clock, in nanoseconds, never
    /// earlier than the time of the previous reading (which it becomes); the
    /// limiter is otherwise unchanged.
    pub fn now(&mut self) -> (t: u64)
        ensures
            t >= old(self).latest(),
            final(self).latest() == t,
            final(self).clients() == old(self).clients(),
            final(self).budget() == old(self).budget(),
            final(self).window() == old(self).window(),
            old(self).wf() ==> final(self).wf(),
    {
        let reading = nanos_since(&self.clock);
        let t = if reading < self.latest { self.latest } else { reading };
        self.latest = t;
        t
    }
}

/// Admits or refuses a request to `path` at time `now` whose checked text
/// is `value` (named `field`): bearer authentication first, then the
/// client's rate limit, then the length of the text.
pub fn admit_request(
    limiter: &mut RateLimiter,
    now: u64,
    authorization: Option<&str>,
    api_key: &Option<String>,
    path: &str,
    forwarded_for: Option<&str>,
    real_ip: Option<&str>,
    value: &str,
    field: &str,
) -> (r: Result<(), (u16, String)>)
    requires
        old(limiter).wf(),
        byte_len(value@) <= usize::MAX,
    ensures
        final(limiter).wf(),
        final(limiter).budget() == old(limiter).budget(),
        final(limiter).window() == old(limiter).window(),
        ({
            let client = client_key(
                match forwarded_for { Some(f) => Some(f@), None => None },
                match real_ip { Some(x) => Some(x@), None => None },
                local_client(),
            );
            let (res, q) = admission(
                old(limiter).clients(), old(limiter).window(), old(limiter).budget(),
                match authorization { Some(a) => Some(a@), None => None },
                match api_key { Some(k) => Some(k@), None => None },
                path@, client, now, value@, field@,
            );
            &&& admission_view(r) == res
            &&& final(limiter).clients() == match q {
                Some(q) => old(limiter).clients().insert(client, q),
                None => old(limiter).clients(),
            }
        }),
{
    match enforce_auth(authorization, api_key, path) {
        Some(code) => {
            return Err((code, "Unauthorized".to_owned()));
        },
        None => {},
    }
    let client = RateLimiter::resolve_key(forwarded_for, real_ip, "127.0.0.1");
    if !limiter.check_at(client.as_str(), now) {
        return Err((TOO_MANY_REQUESTS, "Rate limit exceeded".to_owned()));
    }
    validate_query_length(value, field)
}

/// One retrieved chunk as the answer's context cites it.
pub struct ContextChunk {
    /// The chunk's file.
    pub file_path: String,
    /// The chunk's start.
    pub line_start: usize,
    /// The chunk's text.
    pub text: String,
}

/// The context block of a chunk: `[file:line]`, a newline, and its text.
pub open spec fn context_block(c: ContextChunk) -> Seq<char> {
    "["@ + c.file_path@ + ":"@ + decimal(c.line_start as nat) + "]\n"@ + c.text@
}

/// The context of the chunks: their blocks separated by blank lines.
pub open spec fn context_of(cs: Seq<ContextChunk>) -> Seq<char>
    decreases cs.len(),
{
    if cs.len() == 0 {
        seq![]
    } else if cs.len() == 1 {
        context_block(cs[0])
    } else {
        context_of(cs.drop_last()) + block_sep() + context_block(cs.last())
    }
}

/// The context blocks of the chunks, one per chunk, in order.
spec fn context_block_seq(cs: Seq<ContextChunk>) -> Seq<Seq<char>> {
    Seq::new(cs.len(), |i: int| context_block(cs[i]))
}

proof fn lemma_context_of_join(cs: Seq<ContextChunk>)
    ensures
        context_of(cs) == join(context_block_seq(cs), block_sep()),
    decreases cs.len(),
{
    if cs.len() >= 2 {
        lemma_context_of_join(cs.drop_last());
        assert(context_block_seq(cs.drop_last()) =~= context_block_seq(cs).drop_last());
    }
}

/// The LLM context is every chunk's block in order, `[file:line]`, a newline
/// and the chunk's text, joined by blank lines.
pub proof fn lemma_context_joins_all_blocks(cs: Seq<ContextChunk>)
    ensures
        context_of(cs) == join(
            Seq::new(
                cs.len(),
                |i: int| "["@ + cs[i].file_path@ + ":"@ + decimal(cs[i].line_start as nat) + "]\n"@ + cs[i].text@,
            ),
            seq!['\n', '\n'],
        ),
{
    lemma_context_of_join(cs);
    assert(context_block_seq(cs) =~= Seq::new(
        cs.len(),
        |i: int| "["@ + cs[i].file_path@ + ":"@ + decimal(cs[i].line_start as nat) + "]\n"@ + cs[i].text@,
    ));
}

/// Every chunk reaches the LLM: its block, `[file:line]`, a newline and the
/// chunk's text, stands in the context.
pub proof fn lemma_context_holds_every_chunk(cs: Seq<ContextChunk>, i: int)
    requires
        0 <= i < cs.len(),
    ensures
        has_substring(
            context_of(cs),
            "["@ + cs[i].file_path@ + ":"@ + decimal(cs[i].line_start as nat) + "]\n"@ + cs[i].text@,
        ),
{
    lemma_context_of_join(cs);
    crate::text::lemma_join_holds_each_part(context_block_seq(cs), block_sep(), i);
}

/// The context handed to the LLM: each chunk's block, separated by blank lines.
pub fn build_context(chunks: &Vec<ContextChunk>) -> (r: String)
    ensures
        r@ == context_of(chunks@),
{
    let mut out = String::new();
    let mut i: usize = 0;
    while i < chunks.len()
        invariant
            i <= chunks@.len(),
            out@ == context_of(chunks@.take(i as int)),
        decreases chunks@.len() - i,
    {
        proof {
            assert(chunks@.take(i + 1).drop_last() =~= chunks@.take(i as int));
            assert(chunks@.take(i + 1).last() == chunks@[i as int]);
        }
        let c = &chunks[i];
        let head = concat3("[", c.file_path.as_str(), ":");
        let head = concat3(head.as_str(), decimal_string(c.line_start).as_str(), "]\n");
        let block = crate::text::concat2(head.as_str(), c.text.as_str());
        if i == 0 {
            out = block;
            proof {
                assert(chunks@.take(1) =~= seq![chunks@[0]]);
            }
        } else {
            out = concat3(out.as_str(), "\n\n", block.as_str());
            proof {
                reveal_strlit("\n\n");
                assert("\n\n"@ =~= block_sep());
            }
        }
        i += 1;
    }
    proof {
        assert(chunks@.take(chunks@.len() as int) =~= chunks@);
    }
    out
}

/// The message sent to the LLM for a question and its context.
pub open spec fn question_message(question: Seq<char>, context: Seq<char>) -> Seq<char> {
    "Question: "@ + question + "\n\nRelevant code:\n"@ + context
}

/// The message sent to the LLM for a question and its context.
pub fn user_message(question: &str, context: &str) -> (r: String)
    ensures
        r@ == question_message(question@, context@),
{
    let a = concat3("Question: ", question, "\n\nRelevant code:\n");
    crate::text::concat2(a.as_str(), context)
}

/// One server-sent event carrying a piece of the answer.
pub fn sse_data_event(text: &str) -> (r: String)
    ensures
        r@ == "data: "@ + text@ + "\n\n"@,
{
    concat3("data: ", text, "\n\n")
}

/// One server-sent event carrying an error.
pub fn sse_error_event(message: &str) -> (r: String)
    ensures
        r@ == "event: error\ndata: "@ + message@ + "\n\n"@,
{
    concat3("event: error\ndata: ", message, "\n\n")
}

/// How a call of the LLM ended.
pub enum LlmOutcome {
    /// The answer text.
    Answered(String),
    /// The call failed with this message.
    Failed(String),
    /// The call did not finish in time.
    TimedOut,
}

/// The answer text of a call and whether it may be cached.
pub fn answer_text(outcome: LlmOutcome) -> (r: (String, bool))
    ensures
        match outcome {
            LlmOutcome::Answered(a) => r.0@ == a@ && r.1,
            LlmOutcome::Failed(e) => r.0@ == "LLM error: "@ + e@ && !r.1,
            LlmOutcome::TimedOut => r.0@ == "LLM server busy (request timed out)"@ && !r.1,
        },
{
    match outcome {
        LlmOutcome::Answered(a) => (a, true),
        LlmOutcome::Failed(e) => (crate::text::concat2("LLM error: ", e.as_str()), false),
        LlmOutcome::TimedOut => ("LLM server busy (request timed out)".to_owned(), false),
    }
}

/// The longest prefix within a byte budget fits that budget.
proof fn lemma_prefix_within_fits(s: Seq<char>, n: nat, k: int)
    requires
        0 <= k <= s.len(),
        byte_len(s.take(k)) <= n,
    ensures
        k <= prefix_within(s, n, k) <= s.len(),
        byte_len(s.take(prefix_within(s, n, k))) <= n,
    decreases s.len() - k,
{
    if k < s.len() && byte_len(s.take(k + 1)) <= n {
        lemma_prefix_within_fits(s, n, k + 1);
    }
}

/// Whenever trimming does not underflow, the trimmed context fits its budget
/// in bytes, whatever characters it holds.
pub proof fn lemma_trimmed_fits(context: Seq<char>, max: nat)
    requires
        !trim_underflows(context, max),
    ensures
        byte_len(trimmed_context(context, max)) <= max,
{
    if byte_len(context) > max {
        let r = fitting_blocks(context, max);
        if byte_len(r) > max {
            let n = (max - ELLIPSIS_BYTES) as nat;
            lemma_byte_len_empty();
            assert(r.take(0) =~= Seq::<char>::empty());
            lemma_prefix_within_fits(r, n, 0);
            let kept = r.take(prefix_within(r, n, 0));
            lemma_byte_len_push(kept, ellipsis());
            assert(char_byte_len(ellipsis()) == 3) by {
                assert(ellipsis() as u32 == 0x2026);
            }
        }
    }
}

/// The blank-line separator takes two bytes.
proof fn lemma_block_sep_bytes()
    ensures
        byte_len(block_sep()) == 2,
{
    assert(block_sep() =~= Seq::<char>::empty().push('\n').push('\n'));
    lemma_byte_len_empty();
    lemma_byte_len_push(Seq::<char>::empty(), '\n');
    lemma_byte_len_push(Seq::<char>::empty().push('\n'), '\n');
}

/// A split always yields at least one block.
proof fn lemma_blocks_from_nonempty(s: Seq<char>, k: int, cur: Seq<char>)
    ensures
        blocks_from(s, k, cur).len() >= 1,
    decreases s.len() - k,
{
    if k >= s.len() {
    } else if k + 1 < s.len() && s[k] == '\n' && s[k + 1] == '\n' {
    } else {
        lemma_blocks_from_nonempty(s, k + 1, cur.push(s[k]));
    }
}

/// Taking blocks onto the first `k` joined (which are not empty, and fit
/// unless `k` is one) ends at the first `m` blocks joined, for the first `m`
/// from which one more block would not fit.
proof fn lemma_take_blocks_run(bs: Seq<Seq<char>>, k: int, max: nat)
    requires
        1 <= k <= bs.len(),
        join(bs.take(k), block_sep()).len() > 0,
        k == 1 || byte_len(join(bs.take(k), block_sep())) <= max,
    ensures
        exists|m: int| {
            &&& k <= m <= bs.len()
            &&& take_blocks(bs.skip(k), join(bs.take(k), block_sep()), max) == #[trigger] join(bs.take(m), block_sep())
            &&& m > 1 ==> byte_len(join(bs.take(m), block_sep())) <= max
            &&& m < bs.len() ==> byte_len(join(bs.take(m + 1), block_sep())) > max
        },
    decreases bs.len() - k,
{
    let acc = join(bs.take(k), block_sep());
    if k == bs.len() {
        assert(bs.skip(k) =~= Seq::<Seq<char>>::empty());
        assert(take_blocks(bs.skip(k), acc, max) == join(bs.take(k), block_sep()));
    } else {
        let next = join(bs.take(k + 1), block_sep());
        assert(bs.take(k + 1).drop_last() =~= bs.take(k));
        assert(bs.take(k + 1).last() == bs[k]);
        assert(next == acc + block_sep() + bs[k]);
        lemma_block_sep_bytes();
        crate::text::lemma_byte_len_concat(acc, block_sep());
        crate::text::lemma_byte_len_concat(acc + block_sep(), bs[k]);
        assert(bs.skip(k)[0] == bs[k]);
        assert(bs.skip(k).drop_first() =~= bs.skip(k + 1));
        if byte_len(acc) + 2 + byte_len(bs[k]) > max {
            assert(take_blocks(bs.skip(k), acc, max) == join(bs.take(k), block_sep()));
        } else {
            assert(take_blocks(bs.skip(k), acc, max) == take_blocks(bs.skip(k + 1), next, max));
            lemma_take_blocks_run(bs, k + 1, max);
        }
    }
}

/// When the context does not start with a blank line, the whole blocks kept
/// are the longest run of leading blocks, joined, that fits the budget (the
/// first block alone when even it does not fit).
pub proof fn lemma_fitting_blocks_longest(context: Seq<char>, max: nat)
    requires
        blocks(context)[0].len() > 0,
    ensures
        exists|m: int| {
            &&& 1 <= m <= blocks(context).len()
            &&& fitting_blocks(context, max) == #[trigger] join(blocks(context).take(m), block_sep())
            &&& m > 1 ==> byte_len(fitting_blocks(context, max)) <= max
            &&& m < blocks(context).len() ==> byte_len(join(blocks(context).take(m + 1), block_sep())) > max
        },
{
    let bs = blocks(context);
    lemma_blocks_from_nonempty(context, 0, seq![]);
    assert(bs.take(1) =~= seq![bs[0]]);
    assert(join(bs.take(1), block_sep()) == bs[0]);
    assert(bs.drop_first() =~= bs.skip(1));
    assert(take_blocks(bs, seq![], max) == take_blocks(bs.skip(1), join(bs.take(1), block_sep()), max));
    lemma_take_blocks_run(bs, 1, max);
}

/// Trimming leaves a context that fits its budget unchanged.
pub proof fn lemma_fitting_context_unchanged(context: Seq<char>, max: nat)
    requires
        byte_len(context) <= max,
    ensures
        trimmed_context(context, max) == context,
{
}


/// The model a `/v1/models` reply offers first: `data[0].id` when it is a string.
pub open spec fn first_model_of(reply: JsonValue) -> Option<Seq<char>> {
    match member(reply, "data"@) {
        Some(d) => match element(d, 0) {
            Some(m) => match member(m, "id"@) {
                Some(id) => string_of_value(id),
                None => None,
            },
            None => None,
        },
        None => None,
    }
}

/// The model a `/v1/models` reply offers first (see [`first_model_of`]).
pub fn first_model_id(reply: &JsonValue) -> (r: Option<String>)
    ensures
        match r {
            Some(id) => first_model_of(*reply) == Some(id@),
            None => first_model_of(*reply) is None,
        },
{
    match reply.get("data") {
        Some(d) => match d.at(0) {
            Some(m) => match m.get("id") {
                Some(id) => match id.as_str() {
                    Some(text) => Some(text.to_owned()),
                    None => None,
                },
                None => None,
            },
            None => None,
        },
        None => None,
    }
}

/// Longest error message the API exposes, in characters.
pub const MAX_ERROR_MESSAGE_CHARS: usize = 512;

/// An error message as the API exposes it: its first 512 characters, with
/// the home directory `home` written as `~`.
pub open spec fn sanitized(message: Seq<char>, home: Seq<char>) -> Seq<char> {
    let cut = if message.len() > MAX_ERROR_MESSAGE_CHARS { message.take(MAX_ERROR_MESSAGE_CHARS as int) } else { message };
    replace_all(cut, home, "~"@)
}

/// An error message as the API exposes it (see [`sanitized`]); `home` is
/// the value of `HOME`, or `~` when it is unset.
pub fn sanitize_error(message: &str, home: &str) -> (r: String)
    ensures
        r@ == sanitized(message@, home@),
{
    let chars = chars_of(message);
    let mut cut: Vec<char> = Vec::new();
    let mut i: usize = 0;
    while i < chars.len() && i < MAX_ERROR_MESSAGE_CHARS
        invariant
            i <= chars@.len(),
            i <= MAX_ERROR_MESSAGE_CHARS,
            cut@ == chars@.take(i as int),
        decreases chars@.len() - i,
    {
        cut.push(chars[i]);
        proof {
            assert(chars@.take(i + 1) =~= chars@.take(i as int).push(chars@[i as int]));
        }
        i += 1;
    }
    proof {
        if chars@.len() <= MAX_ERROR_MESSAGE_CHARS {
            assert(chars@.take(i as int) =~= chars@);
        }
        reveal_strlit("~");
    }
    let tilde = chars_of("~");
    let home_chars = chars_of(home);
    string_of(crate::text::replace_chars(&cut, &home_chars, &tilde).as_slice())
}

/// The model a `/v1/models` reply's JSON text offers first: nothing when the
/// text is not JSON (see [`first_model_of`]).
pub open spec fn first_model_in_text(reply: Seq<char>) -> Option<Seq<char>> {
    match json_document_of(reply) {
        Ok(v) => first_model_of(v),
        Err(_) => None,
    }
}

/// Parses a `/v1/models` reply and gives the model it offers first (see
/// [`first_model_in_text`]).
pub fn first_model_in_reply(reply: &str) -> (r: Option<String>)
    ensures
        match r {
            Some(id) => first_model_in_text(reply@) == Some(id@),
            None => first_model_in_text(reply@) is None,
        },
{
    match parse_json_document(reply) {
        Ok(v) => first_model_id(&v),
        Err(_) => None,
    }
}

} // verus!
