//! Anti-abuse rate limiting: a fixed-window counter per (client key, action),
//! held in memory.

use vstd::prelude::*;
use crate::common::{ApiError, TOO_MANY_REQUESTS, FORBIDDEN};
use crate::id::ParticipantId;
use crate::store::now_ms;
use crate::text::str_eq;

verus! {

/// Above this many tracked windows, the expired ones are dropped on the
/// next check so the table cannot grow without bound.
pub const CLEANUP_THRESHOLD: usize = 10000;

/// One tracked window: when it started and how many events it has seen.
#[derive(Debug, Clone)]
pub struct LimitWindow {
    pub key: String,
    pub action: String,
    pub start_ms: u64,
    pub count: u32,
}

/// A window as plain values: (key, action, start, count).
pub open spec fn window_view(w: LimitWindow) -> (Seq<char>, Seq<char>, u64, u32) {
    (w.key@, w.action@, w.start_ms, w.count)
}

/// Milliseconds from `start` to `now`, zero when the clock is behind.
pub open spec fn elapsed_ms(now: u64, start: u64) -> int {
    if now >= start { now - start } else { 0 }
}

/// The windows that are still open at `now` for a window length `window_ms`.
pub open spec fn live_windows(s: Seq<(Seq<char>, Seq<char>, u64, u32)>, now: u64, window_ms: u64)
    -> Seq<(Seq<char>, Seq<char>, u64, u32)>
    decreases s.len(),
{
    if s.len() == 0 {
        s
    } else {
        let r = live_windows(s.drop_last(), now, window_ms);
        if elapsed_ms(now, s.last().2) < window_ms {
            r.push(s.last())
        } else {
            r
        }
    }
}

pub open spec fn window_matches(w: (Seq<char>, Seq<char>, u64, u32), key: Seq<char>, action: Seq<char>) -> bool {
    w.0 == key && w.1 == action
}

/// Index of the first window of (key, action), or -1.
#[verifier::opaque]
pub open spec fn find_window(s: Seq<(Seq<char>, Seq<char>, u64, u32)>, key: Seq<char>, action: Seq<char>) -> int {
    if exists|i: int| 0 <= i < s.len() && window_matches(s[i], key, action) {
        choose|i: int|
            0 <= i < s.len() && window_matches(s[i], key, action) && forall|j: int|
                0 <= j < i ==> !window_matches(#[trigger] s[j], key, action)
    } else {
        -1
    }
}

/// No two windows share a (key, action).
pub open spec fn unique_windows(s: Seq<(Seq<char>, Seq<char>, u64, u32)>) -> bool {
    forall|i: int, j: int|
        0 <= i < j < s.len() ==> !window_matches(#[trigger] s[i], (#[trigger] s[j]).0, s[j].1)
}

/// The table as seen by a check at `now`: cleaned when it is over the threshold.
pub open spec fn cleaned(s: Seq<(Seq<char>, Seq<char>, u64, u32)>, now: u64, window_ms: u64)
    -> Seq<(Seq<char>, Seq<char>, u64, u32)>
{
    if s.len() > CLEANUP_THRESHOLD { live_windows(s, now, window_ms) } else { s }
}

/// The window of (key, action) after one more event at `now`: a window
/// still open keeps its start and counts up (saturating); otherwise a new
/// one starts at `now` with this event.
pub open spec fn next_window(
    s: Seq<(Seq<char>, Seq<char>, u64, u32)>,
    key: Seq<char>,
    action: Seq<char>,
    window_ms: u64,
    now: u64,
) -> (Seq<char>, Seq<char>, u64, u32) {
    let c = cleaned(s, now, window_ms);
    let i = find_window(c, key, action);
    if i >= 0 && elapsed_ms(now, c[i].2) < window_ms {
        (key, action, c[i].2, if c[i].3 < u32::MAX { (c[i].3 + 1) as u32 } else { c[i].3 })
    } else {
        (key, action, now, 1u32)
    }
}

/// The whole table after one check at `now`.
pub open spec fn limit_after(
    s: Seq<(Seq<char>, Seq<char>, u64, u32)>,
    key: Seq<char>,
    action: Seq<char>,
    window_ms: u64,
    now: u64,
) -> Seq<(Seq<char>, Seq<char>, u64, u32)> {
    let c = cleaned(s, now, window_ms);
    let i = find_window(c, key, action);
    let w = next_window(s, key, action, window_ms, now);
    if i >= 0 { c.update(i, w) } else { c.push(w) }
}

/// Whether that event is within the allowance of `max` per window.
pub open spec fn limit_allows(
    s: Seq<(Seq<char>, Seq<char>, u64, u32)>,
    key: Seq<char>,
    action: Seq<char>,
    max: u32,
    window_ms: u64,
    now: u64,
) -> bool {
    next_window(s, key, action, window_ms, now).3 <= max
}

proof fn lemma_live_windows_sub(s: Seq<(Seq<char>, Seq<char>, u64, u32)>, now: u64, window_ms: u64)
    ensures
        live_windows(s, now, window_ms).len() <= s.len(),
        forall|j: int|
            0 <= j < live_windows(s, now, window_ms).len() ==> exists|i: int|
                0 <= i < s.len() && s[i] == #[trigger] live_windows(s, now, window_ms)[j],
        unique_windows(s) ==> unique_windows(live_windows(s, now, window_ms)),
    decreases s.len(),
{
    if s.len() > 0 {
        let t = s.drop_last();
        lemma_live_windows_sub(t, now, window_ms);
        let r = live_windows(t, now, window_ms);
        assert forall|j: int| 0 <= j < r.len() implies exists|i: int|
            0 <= i < s.len() && s[i] == #[trigger] r[j] by {
            let i = choose|i: int| 0 <= i < t.len() && t[i] == r[j];
            assert(s[i] == r[j]);
        }
        if elapsed_ms(now, s.last().2) < window_ms {
            let rr = r.push(s.last());
            assert forall|j: int| 0 <= j < rr.len() implies exists|i: int|
                0 <= i < s.len() && s[i] == #[trigger] rr[j] by {
                if j < r.len() {
                    assert(rr[j] == r[j]);
                } else {
                    assert(s[s.len() - 1] == rr[j]);
                }
            }
            if unique_windows(s) {
                assert forall|a: int, b: int| 0 <= a < b < rr.len() implies !window_matches(
                    #[trigger] rr[a],
                    (#[trigger] rr[b]).0,
                    rr[b].1,
                ) by {
                    if b == r.len() {
                        let i = choose|i: int| 0 <= i < t.len() && t[i] == r[a];
                        assert(s[i] == rr[a]);
                        assert(s[s.len() - 1] == rr[b]);
                    } else {
                        assert(rr[a] == r[a]);
                        assert(rr[b] == r[b]);
                    }
                }
            }
        }
    }
}

/// The first window of (key, action), scanning from the front.
proof fn lemma_first_match(s: Seq<(Seq<char>, Seq<char>, u64, u32)>, key: Seq<char>, action: Seq<char>, i: int)
    requires
        0 <= i < s.len(),
        window_matches(s[i], key, action),
        forall|j: int| 0 <= j < i ==> !window_matches(#[trigger] s[j], key, action),
    ensures
        find_window(s, key, action) == i,
{
    reveal(find_window);
    let c = choose|k: int|
        0 <= k < s.len() && window_matches(s[k], key, action) && forall|j: int|
            0 <= j < k ==> !window_matches(#[trigger] s[j], key, action);
    assert(0 <= c < s.len() && window_matches(s[c], key, action) && forall|j: int|
        0 <= j < c ==> !window_matches(#[trigger] s[j], key, action));
    if c < i {
        assert(!window_matches(s[c], key, action));
    } else if c > i {
        assert(!window_matches(s[i], key, action));
    }
}

/// A rate limiter keyed by (client key, action).
pub struct RateLimiter {
    windows: Vec<LimitWindow>,
}

impl RateLimiter {
    /// The tracked windows, in table order.
    pub closed spec fn table(&self) -> Seq<(Seq<char>, Seq<char>, u64, u32)> {
        self.windows@.map_values(|w: LimitWindow| window_view(w))
    }

    /// Well-formed: no (key, action) is tracked twice.
    pub open spec fn wf(&self) -> bool {
        unique_windows(self.table())
    }

    /// An empty limiter.
    pub fn new() -> (r: Self)
        ensures
            r.wf(),
            r.table() == Seq::<(Seq<char>, Seq<char>, u64, u32)>::empty(),
    {
        let r = RateLimiter { windows: Vec::new() };
        assert(r.table() =~= Seq::<(Seq<char>, Seq<char>, u64, u32)>::empty());
        r
    }

    fn retain_live(&mut self, now: u64, window_ms: u64)
        requires
            old(self).wf(),
        ensures
            final(self).table() == live_windows(old(self).table(), now, window_ms),
            final(self).wf(),
    {
        let ghost s = self.table();
        let mut out: Vec<LimitWindow> = Vec::new();
        let mut i: usize = 0;
        let n = self.windows.len();
        assert(s.take(0) =~= Seq::<(Seq<char>, Seq<char>, u64, u32)>::empty());
        while i < n
            invariant
                n == self.windows.len(),
                i <= n,
                s == self.table(),
                unique_windows(s),
                out@.map_values(|w: LimitWindow| window_view(w)) == live_windows(s.take(i as int), now, window_ms),
            decreases n - i,
        {
            let w = &self.windows[i];
            assert(s.take(i + 1).drop_last() =~= s.take(i as int));
            assert(s.take(i + 1).last() == window_view(*w));
            let elapsed: u64 = if now >= w.start_ms { now - w.start_ms } else { 0 };
            if elapsed < window_ms {
                let ghost before = out@;
                out.push(LimitWindow {
                    key: w.key.clone(),
                    action: w.action.clone(),
                    start_ms: w.start_ms,
                    count: w.count,
                });
                proof {
                    assert(out@.map_values(|w: LimitWindow| window_view(w)) =~= before.map_values(
                        |w: LimitWindow| window_view(w),
                    ).push(window_view(*w)));
                }
            }
            i += 1;
        }
        assert(s.take(n as int) =~= s);
        self.windows = out;
        proof { lemma_live_windows_sub(s, now, window_ms); }
    }

    /// Records one `action` event by `key` at `now` and allows it while the
    /// window holds at most `max` events; a window lasts `window_ms`.
    pub fn check_at(&mut self, key: &str, action: &str, max: u32, window_ms: u64, now: u64) -> (r:
        Result<(), ApiError>)
        requires
            old(self).wf(),
        ensures
            final(self).wf(),
            final(self).table() == limit_after(old(self).table(), key@, action@, window_ms, now),
            r is Ok <==> limit_allows(old(self).table(), key@, action@, max, window_ms, now),
            r matches Err(e) ==> e.0 == TOO_MANY_REQUESTS && e.1@ == "slow down — rate limit exceeded"@,
    {
        let ghost s0 = self.table();
        if self.windows.len() > CLEANUP_THRESHOLD {
            self.retain_live(now, window_ms);
        }
        let ghost c = self.table();
        assert(c == cleaned(s0, now, window_ms));
        let n = self.windows.len();
        let mut i: usize = 0;
        let mut found = false;
        while i < n
            invariant
                n == self.windows.len(),
                i <= n,
                c == self.table(),
                forall|j: int| 0 <= j < i ==> !window_matches(#[trigger] c[j], key@, action@),
                found ==> i < n && window_matches(c[i as int], key@, action@),
            ensures
                found ==> i < n && window_matches(c[i as int], key@, action@),
                !found ==> i == n,
                forall|j: int| 0 <= j < i ==> !window_matches(#[trigger] c[j], key@, action@),
            decreases n - i,
        {
            if str_eq(self.windows[i].key.as_str(), key) && str_eq(self.windows[i].action.as_str(), action) {
                found = true;
                break;
            }
            i += 1;
        }
        let ghost idx = find_window(c, key@, action@);
        if found {
            proof { lemma_first_match(c, key@, action@, i as int); }
        } else {
            proof { lemma_no_match(c, key@, action@); }
        }
        let count: u32;
        if found {
            let w = &self.windows[i];
            let elapsed: u64 = if now >= w.start_ms { now - w.start_ms } else { 0 };
            let (start, prior) = if elapsed < window_ms { (w.start_ms, w.count) } else { (now, 0u32) };
            count = if prior < u32::MAX { prior + 1 } else { prior };
            let nw = LimitWindow { key: w.key.clone(), action: w.action.clone(), start_ms: start, count };
            assert(window_view(nw) == next_window(s0, key@, action@, window_ms, now));
            self.windows.set(i, nw);
            assert(self.table() =~= c.update(i as int, window_view(nw)));
            assert forall|a: int, b: int| 0 <= a < b < self.table().len() implies !window_matches(
                #[trigger] self.table()[a],
                (#[trigger] self.table()[b]).0,
                self.table()[b].1,
            ) by {
                assert(!window_matches(c[a], c[b].0, c[b].1));
            }
        } else {
            count = 1;
            let nw = LimitWindow { key: key.to_owned(), action: action.to_owned(), start_ms: now, count: 1 };
            assert(window_view(nw) == next_window(s0, key@, action@, window_ms, now));
            self.windows.push(nw);
            assert(self.table() =~= c.push(window_view(nw)));
            assert forall|a: int, b: int| 0 <= a < b < self.table().len() implies !window_matches(
                #[trigger] self.table()[a],
                (#[trigger] self.table()[b]).0,
                self.table()[b].1,
            ) by {
                if b < c.len() {
                    assert(!window_matches(c[a], c[b].0, c[b].1));
                } else {
                    assert(!window_matches(c[a], key@, action@));
                }
            }
        }
        if count > max {
            Err(ApiError::with_status(TOO_MANY_REQUESTS, "slow down — rate limit exceeded"))
        } else {
            Ok(())
        }
    }

    /// `check_at` at the current time.
    pub fn check(&mut self, key: &str, action: &str, max: u32, window_ms: u64) -> (r: Result<(), ApiError>)
        requires
            old(self).wf(),
        ensures
            final(self).wf(),
            exists|now: u64|
                {
                    &&& final(self).table() == limit_after(old(self).table(), key@, action@, window_ms, now)
                    &&& (r is Ok <==> limit_allows(old(self).table(), key@, action@, max, window_ms, now))
                },
            r matches Err(e) ==> e.0 == TOO_MANY_REQUESTS && e.1@ == "slow down — rate limit exceeded"@,
    {
        let now = now_ms();
        self.check_at(key, action, max, window_ms, now)
    }
}

/// The admin is the local account whose local part is `admin` (not empty).
pub open spec fn admin_allowed(admin: Seq<char>, user: (Seq<char>, Seq<char>), domain: Seq<char>) -> bool {
    admin.len() > 0 && user.0 == admin && user.1 == domain
}

/// Admin-only endpoints: allowed for the configured admin of this domain.
pub fn require_admin(admin: &str, user: &ParticipantId, domain: &str) -> (r: Result<(), ApiError>)
    ensures
        r is Ok <==> admin_allowed(admin@, user@, domain@),
        r matches Err(e) ==> e.0 == FORBIDDEN && e.1@ == "admin only"@,
{
    if !admin.is_empty() && str_eq(user.local(), admin) && str_eq(user.domain(), domain) {
        Ok(())
    } else {
        Err(ApiError::forbidden("admin only"))
    }
}

proof fn lemma_min_match(s: Seq<(Seq<char>, Seq<char>, u64, u32)>, key: Seq<char>, action: Seq<char>, w: int)
    requires
        0 <= w < s.len(),
        window_matches(s[w], key, action),
    ensures
        exists|i: int|
            0 <= i < s.len() && window_matches(s[i], key, action) && forall|j: int|
                0 <= j < i ==> !window_matches(#[trigger] s[j], key, action),
    decreases w,
{
    if exists|j: int| 0 <= j < w && window_matches(s[j], key, action) {
        let j = choose|j: int| 0 <= j < w && window_matches(s[j], key, action);
        lemma_min_match(s, key, action, j);
    } else {
        assert(forall|j: int| 0 <= j < w ==> !window_matches(#[trigger] s[j], key, action));
    }
}

proof fn lemma_find_result(s: Seq<(Seq<char>, Seq<char>, u64, u32)>, key: Seq<char>, action: Seq<char>)
    ensures
        find_window(s, key, action) == -1 ==> forall|j: int|
            0 <= j < s.len() ==> !window_matches(#[trigger] s[j], key, action),
        find_window(s, key, action) != -1 ==> {
            let i = find_window(s, key, action);
            &&& 0 <= i < s.len()
            &&& window_matches(s[i], key, action)
            &&& forall|j: int| 0 <= j < i ==> !window_matches(#[trigger] s[j], key, action)
        },
{
    reveal(find_window);
    if exists|i: int| 0 <= i < s.len() && window_matches(s[i], key, action) {
        let w = choose|i: int| 0 <= i < s.len() && window_matches(s[i], key, action);
        lemma_min_match(s, key, action, w);
    }
}

proof fn lemma_no_match(s: Seq<(Seq<char>, Seq<char>, u64, u32)>, key: Seq<char>, action: Seq<char>)
    requires
        forall|j: int| 0 <= j < s.len() ==> !window_matches(#[trigger] s[j], key, action),
    ensures
        find_window(s, key, action) == -1,
{
    reveal(find_window);
}

/// The table after `n` checks of (key, action) at the same instant.
pub open spec fn checks_at(
    s: Seq<(Seq<char>, Seq<char>, u64, u32)>,
    key: Seq<char>,
    action: Seq<char>,
    window_ms: u64,
    now: u64,
    n: nat,
) -> Seq<(Seq<char>, Seq<char>, u64, u32)>
    decreases n,
{
    if n == 0 {
        s
    } else {
        limit_after(checks_at(s, key, action, window_ms, now, (n - 1) as nat), key, action, window_ms, now)
    }
}

proof fn lemma_checks_at_shape(
    s: Seq<(Seq<char>, Seq<char>, u64, u32)>,
    key: Seq<char>,
    action: Seq<char>,
    window_ms: u64,
    now: u64,
    n: nat,
)
    requires
        find_window(s, key, action) == -1,
        s.len() < CLEANUP_THRESHOLD,
        window_ms > 0,
        1 <= n < u32::MAX,
    ensures
        checks_at(s, key, action, window_ms, now, n).len() == s.len() + 1,
        find_window(checks_at(s, key, action, window_ms, now, n), key, action) == s.len(),
        checks_at(s, key, action, window_ms, now, n)[s.len() as int] == (key, action, now, n as u32),
    decreases n,
{
    if n == 1 {
        let w0 = (key, action, now, 1u32);
        assert(checks_at(s, key, action, window_ms, now, 0) == s);
        assert(cleaned(s, now, window_ms) == s);
        assert(next_window(s, key, action, window_ms, now) == w0);
        let t = s.push(w0);
        assert(checks_at(s, key, action, window_ms, now, 1) == t);
        lemma_find_result(s, key, action);
        assert forall|j: int| 0 <= j < s.len() implies !window_matches(#[trigger] t[j], key, action) by {
            assert(t[j] == s[j]);
        }
        lemma_first_match(t, key, action, s.len() as int);
    } else {
        let m = (n - 1) as nat;
        lemma_checks_at_shape(s, key, action, window_ms, now, m);
        let p = checks_at(s, key, action, window_ms, now, m);
        assert(cleaned(p, now, window_ms) == p);
        let i = s.len() as int;
        assert(elapsed_ms(now, p[i].2) == 0);
        let w = (key, action, now, n as u32);
        assert(next_window(p, key, action, window_ms, now) == w);
        let t = p.update(i, w);
        assert(checks_at(s, key, action, window_ms, now, n) == t);
        lemma_find_result(p, key, action);
        assert forall|j: int| 0 <= j < i implies !window_matches(#[trigger] t[j], key, action) by {
            assert(t[j] == p[j]);
        }
        lemma_first_match(t, key, action, i);
    }
}

/// Within one window a (key, action) gets exactly `max` events: after `n`
/// events at one instant on a key the table did not track, the next event
/// is allowed iff `n < max`.
pub proof fn law_window_allows_max(
    s: Seq<(Seq<char>, Seq<char>, u64, u32)>,
    key: Seq<char>,
    action: Seq<char>,
    max: u32,
    window_ms: u64,
    now: u64,
    n: nat,
)
    requires
        find_window(s, key, action) == -1,
        s.len() < CLEANUP_THRESHOLD,
        window_ms > 0,
        n < u32::MAX,
    ensures
        limit_allows(checks_at(s, key, action, window_ms, now, n), key, action, max, window_ms, now) <==> n < max,
{
    if n == 0 {
        assert(checks_at(s, key, action, window_ms, now, 0) == s);
        assert(cleaned(s, now, window_ms) == s);
    } else {
        lemma_checks_at_shape(s, key, action, window_ms, now, n);
        let p = checks_at(s, key, action, window_ms, now, n);
        assert(p.len() <= CLEANUP_THRESHOLD);
        assert(cleaned(p, now, window_ms) == p);
        assert(elapsed_ms(now, p[s.len() as int].2) == 0);
    }
}

/// Once a window has run out, the next event opens a fresh one and is
/// allowed (for any `max` of at least one).
pub proof fn law_window_reopens(
    s: Seq<(Seq<char>, Seq<char>, u64, u32)>,
    key: Seq<char>,
    action: Seq<char>,
    max: u32,
    window_ms: u64,
    now: u64,
)
    requires
        max >= 1,
        forall|i: int|
            0 <= i < s.len() && window_matches(#[trigger] s[i], key, action) ==> elapsed_ms(now, s[i].2)
                >= window_ms,
    ensures
        limit_allows(s, key, action, max, window_ms, now),
        next_window(s, key, action, window_ms, now) == (key, action, now, 1u32),
{
    let c = cleaned(s, now, window_ms);
    let i = find_window(c, key, action);
    lemma_find_result(c, key, action);
    if i != -1 {
        if s.len() > CLEANUP_THRESHOLD {
            lemma_live_windows_sub(s, now, window_ms);
            let k = choose|k: int| 0 <= k < s.len() && s[k] == #[trigger] live_windows(s, now, window_ms)[i];
            assert(window_matches(s[k], key, action));
        }
    }
}

proof fn lemma_live_keeps_open(s: Seq<(Seq<char>, Seq<char>, u64, u32)>, now: u64, window_ms: u64, k: int)
    requires
        0 <= k < s.len(),
        elapsed_ms(now, s[k].2) < window_ms,
    ensures
        exists|j: int| 0 <= j < live_windows(s, now, window_ms).len() && #[trigger] live_windows(s, now, window_ms)[j] == s[k],
    decreases s.len(),
{
    let t = s.drop_last();
    let r = live_windows(t, now, window_ms);
    if k == s.len() - 1 {
        assert(live_windows(s, now, window_ms)[r.len() as int] == s[k]);
    } else {
        assert(t[k] == s[k]);
        lemma_live_keeps_open(t, now, window_ms, k);
        let j = choose|j: int| 0 <= j < r.len() && #[trigger] r[j] == t[k];
        assert(live_windows(s, now, window_ms)[j] == r[j]);
    }
}

/// An event inside an open window counts in it. If (key, action) has a
/// window that started at `start` with `count` events, and `now` falls
/// within `window_ms` of `start`, the event keeps that start and makes the
/// count one more (saturating at the top), so it is allowed exactly when
/// fewer than `max` events came before it in the window.
pub proof fn law_events_in_an_open_window_count(
    s: Seq<(Seq<char>, Seq<char>, u64, u32)>,
    key: Seq<char>,
    action: Seq<char>,
    max: u32,
    window_ms: u64,
    now: u64,
    start: u64,
    count: u32,
)
    requires
        unique_windows(s),
        s.contains((key, action, start, count)),
        start <= now,
        now < start + window_ms,
    ensures
        next_window(s, key, action, window_ms, now) == (key, action, start, if count < u32::MAX {
            (count + 1) as u32
        } else {
            count
        }),
        count < u32::MAX ==> (limit_allows(s, key, action, max, window_ms, now) <==> count < max),
{
    let k = choose|k: int| 0 <= k < s.len() && s[k] == (key, action, start, count);
    let c = cleaned(s, now, window_ms);
    lemma_find_result(c, key, action);
    if s.len() > CLEANUP_THRESHOLD {
        lemma_live_keeps_open(s, now, window_ms, k);
        lemma_live_windows_sub(s, now, window_ms);
        let j = choose|j: int| 0 <= j < c.len() && #[trigger] c[j] == s[k];
        assert(window_matches(c[j], key, action));
    } else {
        assert(window_matches(c[k], key, action));
    }
    let i = find_window(c, key, action);
    assert(i >= 0);
    if s.len() > CLEANUP_THRESHOLD {
        let m = choose|m: int| 0 <= m < s.len() && s[m] == #[trigger] live_windows(s, now, window_ms)[i];
        if m < k {
            assert(!window_matches(s[m], s[k].0, s[k].1));
        } else if m > k {
            assert(!window_matches(s[k], s[m].0, s[m].1));
        }
        assert(c[i] == s[k]);
    } else {
        if i < k {
            assert(!window_matches(s[i], s[k].0, s[k].1));
        } else if i > k {
            assert(!window_matches(s[k], s[i].0, s[i].1));
        }
        assert(c[i] == s[k]);
    }
}

} // verus!
