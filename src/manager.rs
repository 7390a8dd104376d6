//! Decisions of the controller that keeps one outbound connection per known
//! peer and paces reconnection attempts.
//!
//! The controller does not run connections itself: each decision returns the
//! connections to open, and the caller reports those that died. Times are
//! milliseconds on a monotonic clock.
use crate::peer::{index_of, lemma_index_of, lemma_index_unique, Address, HostId, Info};
use vstd::prelude::*;

verus! {

/// The first retry delay after a connection dies.
pub const INITIAL_TIME: u64 = 100;

/// The longest retry delay.
pub const MAX_TIME: u64 = 15000;

/// How far ahead the timer is set when nothing waits.
pub const IDLE_WAKEUP: u64 = 86400000;

/// When a peer may next be tried, and how many attempts in a row failed.
#[derive(PartialEq, Eq, Structural, Clone, Copy, Debug)]
pub struct Throttle {
    pub timestamp: u64,
    pub num: u32,
}

/// The delay after `num` failures in a row: `INITIAL_TIME` per failure, at
/// most `MAX_TIME`.
pub open spec fn backoff(num: u32) -> u64 {
    if INITIAL_TIME * num < MAX_TIME {
        (INITIAL_TIME * num) as u64
    } else {
        MAX_TIME
    }
}

/// The throttle of a peer whose first connection just died.
pub open spec fn fresh_throttle(now: u64) -> Throttle {
    Throttle { timestamp: now.saturating_add(INITIAL_TIME), num: 1 }
}

/// `t` after one more failure at `now`.
pub open spec fn bumped(t: Throttle, now: u64) -> Throttle {
    let num = t.num.saturating_add(1);
    Throttle { timestamp: now.saturating_add(backoff(num)), num }
}

/// The throttle of a peer that was never connected: eligible at once.
pub open spec fn waiting_throttle(now: u64) -> Throttle {
    Throttle { timestamp: now.saturating_sub(INITIAL_TIME), num: 1 }
}

/// `t` with its time moved up to `now` where it has passed.
pub fn raise(t: Throttle, now: u64) -> (r: Throttle)
    ensures
        r == raised(t, now),
{
    if t.timestamp < now {
        Throttle { timestamp: now, num: t.num }
    } else {
        t
    }
}

impl Throttle {
    /// The throttle after a first failure at `now`.
    pub fn new(now: u64) -> (r: Throttle)
        ensures
            r == fresh_throttle(now),
    {
        Throttle { timestamp: now.saturating_add(INITIAL_TIME), num: 1 }
    }

    /// Counts one more failure at `now` and pushes the next attempt back.
    pub fn bump(&mut self, now: u64)
        ensures
            *final(self) == bumped(*old(self), now),
    {
        self.num = self.num.saturating_add(1);
        let delay = if INITIAL_TIME * (self.num as u64) < MAX_TIME {
            INITIAL_TIME * (self.num as u64)
        } else {
            MAX_TIME
        };
        self.timestamp = now.saturating_add(delay);
    }
}

/// A connection to open.
#[derive(PartialEq, Eq, Structural, Clone, Copy, Debug)]
pub struct Connect {
    pub id: HostId,
    pub addr: Address,
}

/// The throttle kept for `id` in `s`: the last entry with that key.
pub open spec fn lookup(s: Seq<(HostId, Throttle)>, id: HostId) -> Option<Throttle>
    decreases s.len(),
{
    if s.len() == 0 {
        None
    } else if s.last().0 == id {
        Some(s.last().1)
    } else {
        lookup(s.drop_last(), id)
    }
}

/// Whether no two entries of `s` share a key.
pub open spec fn unique_keys(s: Seq<(HostId, Throttle)>) -> bool {
    forall|i: int, j: int| 0 <= i < j < s.len() ==> s[i].0 != s[j].0
}

/// Whether no id repeats in `s`.
pub open spec fn no_repeats(s: Seq<HostId>) -> bool {
    forall|i: int, j: int| 0 <= i < j < s.len() ==> s[i] != s[j]
}

proof fn lemma_lookup_none(s: Seq<(HostId, Throttle)>, id: HostId)
    ensures
        lookup(s, id).is_none() <==> forall|k: int| 0 <= k < s.len() ==> s[k].0 != id,
    decreases s.len(),
{
    if s.len() > 0 {
        lemma_lookup_none(s.drop_last(), id);
        assert(forall|k: int| 0 <= k < s.len() - 1 ==> s.drop_last()[k] == s[k]);
    }
}

proof fn lemma_lookup_at(s: Seq<(HostId, Throttle)>, k: int)
    requires
        unique_keys(s),
        0 <= k < s.len(),
    ensures
        lookup(s, s[k].0) == Some(s[k].1),
    decreases s.len(),
{
    if k < s.len() - 1 {
        lemma_lookup_at(s.drop_last(), k);
    }
}

proof fn lemma_lookup_update(s: Seq<(HostId, Throttle)>, k: int, t: Throttle, id: HostId)
    requires
        unique_keys(s),
        0 <= k < s.len(),
    ensures
        lookup(s.update(k, (s[k].0, t)), id) == if id == s[k].0 {
            Some(t)
        } else {
            lookup(s, id)
        },
    decreases s.len(),
{
    let u = s.update(k, (s[k].0, t));
    if k == s.len() - 1 {
        assert(u.drop_last() =~= s.drop_last());
    } else {
        assert(u.drop_last() =~= s.drop_last().update(k, (s[k].0, t)));
        lemma_lookup_update(s.drop_last(), k, t, id);
        if id == s[k].0 {
            assert(s.last().0 != id);
        }
    }
}

/// The prefix of `s` before index `i` read as a step: one more entry.
proof fn lemma_lookup_take(s: Seq<(HostId, Throttle)>, i: int, id: HostId)
    requires
        0 <= i < s.len(),
    ensures
        lookup(s.take(i + 1), id) == if s[i].0 == id {
            Some(s[i].1)
        } else {
            lookup(s.take(i), id)
        },
{
    assert(s.take(i + 1).drop_last() =~= s.take(i));
}

proof fn lemma_push_contains(s: Seq<HostId>, x: HostId, y: HostId)
    ensures
        s.push(x).contains(y) == (s.contains(y) || y == x),
{
    if s.contains(y) {
        let k = choose|k: int| 0 <= k < s.len() && s[k] == y;
        assert(s.push(x)[k] == y);
    }
    if y == x {
        assert(s.push(x)[s.len() as int] == y);
    }
    if s.push(x).contains(y) {
        let k = choose|k: int| 0 <= k < s.len() + 1 && s.push(x)[k] == y;
        if k < s.len() {
            assert(s[k] == y);
        }
    }
}

proof fn lemma_occurrences_absent(s: Seq<HostId>, x: HostId)
    ensures
        !s.contains(x) ==> occurrences(s, x) == 0,
    decreases s.len(),
{
    if s.len() > 0 && !s.contains(x) {
        assert(!s.drop_last().contains(x)) by {
            if s.drop_last().contains(x) {
                let k = choose|k: int| 0 <= k < s.len() - 1 && s.drop_last()[k] == x;
                assert(s[k] == x);
            }
        }
        assert(s.last() != x) by {
            assert(s[s.len() - 1] == s.last());
        }
        lemma_occurrences_absent(s.drop_last(), x);
    }
}

/// How often `x` occurs in `s`.
pub open spec fn occurrences(s: Seq<HostId>, x: HostId) -> nat
    decreases s.len(),
{
    if s.len() == 0 {
        0
    } else {
        occurrences(s.drop_last(), x) + if s.last() == x {
            1nat
        } else {
            0nat
        }
    }
}

/// The throttle after a death at `now`: a new one, or the old one bumped.
pub open spec fn died(t: Option<Throttle>, now: u64) -> Throttle {
    match t {
        None => fresh_throttle(now),
        Some(t) => bumped(t, now),
    }
}

/// The throttle `t` after deaths at the times `times`, in order.
pub open spec fn deaths(t: Option<Throttle>, times: Seq<u64>) -> Option<Throttle>
    decreases times.len(),
{
    if times.len() == 0 {
        t
    } else {
        Some(died(deaths(t, times.drop_last()), times.last()))
    }
}

/// `n` deaths at one time `now`.
pub open spec fn times_of(now: u64, n: nat) -> Seq<u64> {
    Seq::new(n, |_i: int| now)
}

/// After `n` deaths in a row of a peer's connection, with no throttle for it
/// before, the peer has failed `n` times and may next be tried
/// `min(INITIAL_TIME * n, MAX_TIME)` after the last death.
pub proof fn lemma_throttle_growth(times: Seq<u64>)
    requires
        0 < times.len() <= u32::MAX,
        forall|i: int| 0 <= i < times.len() ==> times[i] <= u64::MAX - MAX_TIME,
    ensures
        deaths(None, times) == Some(
            Throttle {
                timestamp: (times.last() + if INITIAL_TIME * times.len() < MAX_TIME {
                    INITIAL_TIME * times.len()
                } else {
                    MAX_TIME as int
                }) as u64,
                num: times.len() as u32,
            },
        ),
    decreases times.len(),
{
    let prev = times.drop_last();
    let n = times.len();
    if n > 1 {
        assert(forall|i: int| 0 <= i < prev.len() ==> prev[i] == times[i]);
        lemma_throttle_growth(prev);
        let t = deaths(None, prev).unwrap();
        assert(t.num == n - 1);
        assert(bumped(t, times.last()).num == n);
    } else {
        assert(deaths(None, prev) == None::<Throttle>);
    }
}

/// The `n`-th failure in a row of a peer, at `now`, whether it had no
/// throttle (`n == 1`) or one counting `n - 1` failures, leaves a throttle
/// counting `n` failures and due `min(INITIAL_TIME * n, MAX_TIME)` after
/// `now`.
pub proof fn lemma_failure_delay(t: Option<Throttle>, n: u32, now: u64)
    requires
        1 <= n,
        n == 1 ==> t.is_none(),
        n > 1 ==> t.is_some() && t.unwrap().num == n - 1,
        now <= u64::MAX - MAX_TIME,
    ensures
        died(t, now).num == n,
        died(t, now).timestamp == now + if INITIAL_TIME * n < MAX_TIME {
            INITIAL_TIME * n
        } else {
            MAX_TIME as int
        },
{
}

/// The controller's bookkeeping once started.
pub struct State {
    /// Ids that hold an open or opening connection.
    pub active: Vec<HostId>,
    /// Ids waiting for their next attempt, each once.
    pub throttled: Vec<(HostId, Throttle)>,
    /// When the controller next needs a wakeup.
    pub timer: u64,
}

/// Whether `x` is due for a retry in `s` at `now`: throttled, not active,
/// and its time has passed.
pub open spec fn due(s: State, now: u64, x: HostId) -> bool {
    &&& lookup(s.throttled@, x).is_some()
    &&& !s.active@.contains(x)
    &&& lookup(s.throttled@, x).unwrap().timestamp < now
}

/// Whether gossip knows `x` with an address to connect to.
pub open spec fn reachable(info: Info, x: HostId) -> bool {
    info.knows(x) && info.peer(x).primary_addr.is_some()
}

/// Whether a retry pass at `now` opens a connection to `x`.
pub open spec fn restarts(s: State, info: Info, now: u64, x: HostId) -> bool {
    due(s, now, x) && reachable(info, x)
}

/// The throttle of `x` after a retry pass at `now`: dropped where gossip
/// forgot the peer, bumped where it still has no address, kept otherwise.
pub open spec fn after_pass(s: State, info: Info, now: u64, x: HostId) -> Option<Throttle> {
    if due(s, now, x) && !info.knows(x) {
        None
    } else if due(s, now, x) && !reachable(info, x) {
        Some(bumped(lookup(s.throttled@, x).unwrap(), now))
    } else if lookup(s.throttled@, x).is_some() && (s.active@.contains(x) || restarts(
        s,
        info,
        now,
        x,
    )) {
        Some(raised(lookup(s.throttled@, x).unwrap(), now))
    } else {
        lookup(s.throttled@, x)
    }
}

/// `t` kept for a peer that holds a connection: its count of failures stays,
/// and its time is moved up to `now` where it has passed, so that it is not
/// due while the connection lives.
pub open spec fn raised(t: Throttle, now: u64) -> Throttle {
    Throttle {
        timestamp: if t.timestamp < now {
            now
        } else {
            t.timestamp
        },
        num: t.num,
    }
}

/// Whether no id that holds a connection has a due throttle at `now`.
pub open spec fn none_active_due(s: State, now: u64) -> bool {
    forall|x: HostId|
        s.active@.contains(x) && #[trigger] lookup(s.throttled@, x).is_some() ==> lookup(
            s.throttled@,
            x,
        ).unwrap().timestamp >= now
}

/// Whether `x` still waits after a retry pass: throttled, not active and not
/// restarted.
pub open spec fn waits_after_pass(s: State, info: Info, now: u64, x: HostId) -> bool {
    after_pass(s, info, now, x).is_some() && !s.active@.contains(x) && !restarts(s, info, now, x)
}

/// The throttle of `x` after `check_connections`.
pub open spec fn after_check(s: State, info: Info, now: u64, x: HostId) -> Option<Throttle> {
    if info.knows(x) && !s.active@.contains(x) {
        if reachable(info, x) {
            None
        } else if lookup(s.throttled@, x).is_none() {
            Some(waiting_throttle(now))
        } else {
            lookup(s.throttled@, x)
        }
    } else {
        lookup(s.throttled@, x)
    }
}

/// Whether `r` opens exactly one connection to each id of `ids`, at the
/// address gossip has for it.
pub open spec fn opens_exactly(r: Seq<Connect>, info: Info, ids: Set<HostId>) -> bool {
    &&& forall|k: int|
        0 <= k < r.len() ==> ids.contains(#[trigger] r[k].id) && info.peer(r[k].id).primary_addr
            == Some(r[k].addr)
    &&& forall|x: HostId| #[trigger] ids.contains(x) ==> exists|k: int| 0 <= k < r.len() && r[k].id == x
    &&& forall|i: int, j: int| 0 <= i < j < r.len() ==> r[i].id != r[j].id
}

/// What `check_connections` does: every peer gossip knows with an address
/// and no connection gets one, and every one without an address gets a
/// throttle if it had none.
pub open spec fn checked(s0: State, s1: State, info: Info, now: u64, r: Seq<Connect>) -> bool {
    &&& s1.wf()
    &&& s1.timer == s0.timer
    &&& forall|x: HostId| #[trigger]
        s1.active@.contains(x) == (s0.active@.contains(x) || reachable(info, x))
    &&& forall|x: HostId| #[trigger] lookup(s1.throttled@, x) == after_check(s0, info, now, x)
    &&& opens_exactly(r, info, Set::new(|x: HostId| reachable(info, x) && !s0.active@.contains(x)))
}

/// What `new_connections` does: each throttled peer that is due gets a
/// connection where gossip has an address for it, a bumped throttle where it
/// has none, and is dropped where gossip forgot it; the timer is set to the
/// earliest time that a waiting peer becomes due, or a day ahead.
pub open spec fn passed(s0: State, s1: State, info: Info, now: u64, r: Seq<Connect>) -> bool {
    &&& s1.wf()
    &&& forall|x: HostId| #[trigger]
        s1.active@.contains(x) == (s0.active@.contains(x) || restarts(s0, info, now, x))
    &&& forall|x: HostId| #[trigger] lookup(s1.throttled@, x) == after_pass(s0, info, now, x)
    &&& none_active_due(s1, now)
    &&& opens_exactly(r, info, Set::new(|x: HostId| restarts(s0, info, now, x)))
    &&& s1.timer <= now.saturating_add(IDLE_WAKEUP)
    &&& forall|x: HostId|
        waits_after_pass(s0, info, now, x) ==> s1.timer <= (#[trigger] lookup(
            s1.throttled@,
            x,
        )).unwrap().timestamp
    &&& (s1.timer == now.saturating_add(IDLE_WAKEUP) || exists|x: HostId|
        waits_after_pass(s0, info, now, x) && s1.timer == (#[trigger] lookup(
            s1.throttled@,
            x,
        )).unwrap().timestamp)
}

/// What `dead_connections` does: the dead ids leave the active set and each
/// death bumps the id's throttle.
pub open spec fn buried(s0: State, s1: State, dead: Seq<HostId>, now: u64) -> bool {
    &&& s1.wf()
    &&& s1.timer == s0.timer
    &&& forall|x: HostId| #[trigger]
        s1.active@.contains(x) == (s0.active@.contains(x) && !dead.contains(x))
    &&& forall|x: HostId| #[trigger]
        lookup(s1.throttled@, x) == deaths(
            lookup(s0.throttled@, x),
            times_of(now, occurrences(dead, x)),
        )
}

impl State {
    /// Whether each id is active at most once and throttled at most once.
    pub open spec fn wf(&self) -> bool {
        no_repeats(self.active@) && unique_keys(self.throttled@)
    }

    /// Nothing active, nothing throttled.
    pub fn new(now: u64) -> (r: State)
        ensures
            r.wf(),
            r.active@.len() == 0,
            r.throttled@.len() == 0,
            r.timer == now,
    {
        State { active: Vec::new(), throttled: Vec::new(), timer: now }
    }

    /// Whether `id` holds a connection.
    pub fn is_active(&self, id: HostId) -> (r: bool)
        ensures
            r == self.active@.contains(id),
    {
        let mut i: usize = 0;
        while i < self.active.len()
            invariant
                0 <= i <= self.active@.len(),
                forall|k: int| 0 <= k < i ==> self.active@[k] != id,
            decreases self.active@.len() - i,
        {
            if self.active[i] == id {
                return true;
            }
            i = i + 1;
        }
        false
    }

    /// Where the throttle of `id` stands, if there is one.
    pub fn throttle_index(&self, id: HostId) -> (r: Option<usize>)
        requires
            self.wf(),
        ensures
            r.is_none() <==> lookup(self.throttled@, id).is_none(),
            r.is_some() ==> r.unwrap() < self.throttled@.len() && self.throttled@[r.unwrap() as int].0
                == id && lookup(self.throttled@, id) == Some(self.throttled@[r.unwrap() as int].1),
    {
        proof {
            lemma_lookup_none(self.throttled@, id);
        }
        let mut i: usize = 0;
        while i < self.throttled.len()
            invariant
                self.wf(),
                0 <= i <= self.throttled@.len(),
                forall|k: int| 0 <= k < i ==> self.throttled@[k].0 != id,
            decreases self.throttled@.len() - i,
        {
            if self.throttled[i].0 == id {
                proof {
                    lemma_lookup_at(self.throttled@, i as int);
                }
                return Some(i);
            }
            i = i + 1;
        }
        None
    }

    /// Adds a throttle, eligible at once, for `id` where it has none.
    pub fn insert_throttle(&mut self, id: HostId, now: u64)
        requires
            old(self).wf(),
        ensures
            final(self).wf(),
            final(self).active == old(self).active,
            final(self).timer == old(self).timer,
            forall|x: HostId|
                lookup(#[trigger] final(self).throttled@, x) == if x == id && lookup(
                    old(self).throttled@,
                    id,
                ).is_none() {
                    Some(waiting_throttle(now))
                } else {
                    lookup(old(self).throttled@, x)
                },
    {
        if self.throttle_index(id).is_none() {
            proof {
                lemma_lookup_none(self.throttled@, id);
            }
            self.throttled.push((id, Throttle { timestamp: now.saturating_sub(INITIAL_TIME), num: 1 }));
            proof {
                assert(self.throttled@.drop_last() =~= old(self).throttled@);
            }
        }
    }

    /// Records a failure of `id` at `now`: a new throttle, or its throttle
    /// bumped.
    pub fn bump_throttle(&mut self, id: HostId, now: u64)
        requires
            old(self).wf(),
        ensures
            final(self).wf(),
            final(self).active == old(self).active,
            final(self).timer == old(self).timer,
            forall|x: HostId|
                lookup(#[trigger] final(self).throttled@, x) == if x == id {
                    Some(died(lookup(old(self).throttled@, id), now))
                } else {
                    lookup(old(self).throttled@, x)
                },
    {
        match self.throttle_index(id) {
            None => {
                proof {
                    lemma_lookup_none(self.throttled@, id);
                }
                self.throttled.push((id, Throttle::new(now)));
                proof {
                    assert(self.throttled@.drop_last() =~= old(self).throttled@);
                }
            },
            Some(i) => {
                let (k, mut t) = self.throttled[i];
                t.bump(now);
                self.throttled.set(i, (k, t));
                proof {
                    assert forall|x: HostId|
                        lookup(self.throttled@, x) == if x == id {
                            Some(died(lookup(old(self).throttled@, id), now))
                        } else {
                            lookup(old(self).throttled@, x)
                        } by {
                        lemma_lookup_update(old(self).throttled@, i as int, t, x);
                    }
                }
            },
        }
    }

    /// Drops the throttle of `id`, if any.
    pub fn remove_throttle(&mut self, id: HostId)
        requires
            old(self).wf(),
        ensures
            final(self).wf(),
            final(self).active == old(self).active,
            final(self).timer == old(self).timer,
            forall|x: HostId|
                lookup(#[trigger] final(self).throttled@, x) == if x == id {
                    None
                } else {
                    lookup(old(self).throttled@, x)
                },
    {
        let ghost src = self.throttled@;
        let mut kept: Vec<(HostId, Throttle)> = Vec::new();
        let mut i: usize = 0;
        while i < self.throttled.len()
            invariant
                self.throttled@ == src,
                unique_keys(src),
                0 <= i <= src.len(),
                unique_keys(kept@),
                forall|k: int|
                    0 <= k < kept@.len() ==> lookup(src.take(i as int), #[trigger] kept@[k].0).is_some(),
                forall|x: HostId|
                    lookup(#[trigger] kept@, x) == if x == id {
                        None
                    } else {
                        lookup(src.take(i as int), x)
                    },
            decreases src.len() - i,
        {
            let e = self.throttled[i];
            proof {
                assert forall|x: HostId|
                    lookup(src.take(i + 1), x) == if src[i as int].0 == x {
                        Some(src[i as int].1)
                    } else {
                        lookup(src.take(i as int), x)
                    } by {
                    lemma_lookup_take(src, i as int, x);
                }
                lemma_lookup_none(src.take(i as int), e.0);
                assert forall|k: int| 0 <= k < i implies src.take(i as int)[k].0 != e.0 by {
                    assert(src[k].0 != src[i as int].0);
                }
                lemma_lookup_none(kept@, e.0);
            }
            let ghost before = kept@;
            if e.0 != id {
                kept.push(e);
                proof {
                    assert(kept@.drop_last() =~= before);
                    assert forall|k: int| 0 <= k < kept@.len() implies lookup(
                        src.take(i + 1),
                        #[trigger] kept@[k].0,
                    ).is_some() by {
                        if k < before.len() {
                            assert(kept@[k] == before[k]);
                        }
                    }
                }
            }
            proof {
                assert forall|x: HostId|
                    lookup(#[trigger] kept@, x) == if x == id {
                        None
                    } else {
                        lookup(src.take(i + 1), x)
                    } by {
                    lemma_lookup_take(src, i as int, x);
                    assert(lookup(before, x) == if x == id {
                        None
                    } else {
                        lookup(src.take(i as int), x)
                    });
                    if e.0 != id {
                        assert(kept@.drop_last() =~= before);
                    } else {
                        assert(kept@ == before);
                    }
                }
            }
            i = i + 1;
        }
        proof {
            assert(src.take(src.len() as int) =~= src);
        }
        self.throttled = kept;
    }

    /// Takes `id` out of the active set.
    pub fn remove_active(&mut self, id: HostId)
        requires
            old(self).wf(),
        ensures
            final(self).wf(),
            final(self).throttled == old(self).throttled,
            final(self).timer == old(self).timer,
            forall|x: HostId| #[trigger]
                final(self).active@.contains(x) == (old(self).active@.contains(x) && x != id),
    {
        let ghost src = self.active@;
        let mut kept: Vec<HostId> = Vec::new();
        let mut i: usize = 0;
        while i < self.active.len()
            invariant
                self.active@ == src,
                no_repeats(src),
                0 <= i <= src.len(),
                no_repeats(kept@),
                forall|x: HostId| #[trigger]
                    kept@.contains(x) == (src.take(i as int).contains(x) && x != id),
            decreases src.len() - i,
        {
            let x = self.active[i];
            let ghost before = kept@;
            proof {
                assert(src.take(i + 1) =~= src.take(i as int).push(x));
                assert forall|y: HostId| #[trigger]
                    src.take(i + 1).contains(y) == (src.take(i as int).contains(y) || y == x) by {
                    lemma_push_contains(src.take(i as int), x, y);
                }
                assert(!src.take(i as int).contains(x)) by {
                    assert forall|k: int| 0 <= k < i implies src.take(i as int)[k] != x by {
                        assert(src[k] != src[i as int]);
                    }
                }
            }
            if x != id {
                proof {
                    assert(!before.contains(x));
                }
                kept.push(x);
                proof {
                    assert forall|a: int, b: int| 0 <= a < b < kept@.len() implies kept@[a]
                        != kept@[b] by {
                        if b == before.len() {
                            assert(kept@[a] == before[a]);
                        }
                    }
                    assert forall|y: HostId| #[trigger]
                        kept@.contains(y) == (before.contains(y) || y == x) by {
                        lemma_push_contains(before, x, y);
                    }
                }
            }
            i = i + 1;
        }
        proof {
            assert(src.take(src.len() as int) =~= src);
        }
        self.active = kept;
    }

    /// Opens a connection to each peer that gossip knows with an address and
    /// that has none; gives each peer without an address a throttle.
    pub fn check_connections(&mut self, info: &Info, now: u64) -> (r: Vec<Connect>)
        requires
            old(self).wf(),
            info.wf(),
        ensures
            checked(*old(self), *final(self), *info, now, r@),
    {
        let ghost peers = info.peers@;
        let mut started: Vec<Connect> = Vec::new();
        let mut i: usize = 0;
        while i < info.peers.len()
            invariant
                peers == info.peers@,
                info.wf(),
                0 <= i <= peers.len(),
                self.wf(),
                self.timer == old(self).timer,
                forall|x: HostId| #[trigger]
                    self.active@.contains(x) == (old(self).active@.contains(x) || (0 <= index_of(
                        peers,
                        x,
                    ) < i && reachable(*info, x))),
                forall|x: HostId| #[trigger]
                    lookup(self.throttled@, x) == if 0 <= index_of(peers, x) < i {
                        after_check(*old(self), *info, now, x)
                    } else {
                        lookup(old(self).throttled@, x)
                    },
                forall|k: int|
                    0 <= k < started@.len() ==> 0 <= index_of(peers, #[trigger] started@[k].id) < i
                        && reachable(*info, started@[k].id) && !old(self).active@.contains(
                        started@[k].id,
                    ) && info.peer(started@[k].id).primary_addr == Some(started@[k].addr),
                forall|x: HostId|
                    0 <= #[trigger] index_of(peers, x) < i && reachable(*info, x) && !old(self).active@.contains(x) ==> exists|k: int|
                        0 <= k < started@.len() && started@[k].id == x,
                forall|a: int, b: int|
                    0 <= a < b < started@.len() ==> started@[a].id != started@[b].id,
            decreases peers.len() - i,
        {
            let id = info.peers[i].id;
            proof {
                lemma_index_unique(peers, i as int);
                assert forall|x: HostId| #[trigger] index_of(peers, x) == i implies x == id by {
                    lemma_index_of(peers, x);
                }
            }
            let ghost s_before = *self;
            let ghost started_before = started@;
            if self.is_active(id) {
            } else {
                match info.peers[i].primary_addr {
                    Some(addr) => {
                        started.push(Connect { id, addr });
                        proof {
                            assert(!self.active@.contains(id));
                        }
                        self.active.push(id);
                        proof {
                            assert forall|a: int, b: int|
                                0 <= a < b < self.active@.len() implies self.active@[a]
                                != self.active@[b] by {
                                if b == s_before.active@.len() {
                                    assert(self.active@[a] == s_before.active@[a]);
                                }
                            }
                            assert forall|x: HostId| #[trigger]
                                self.active@.contains(x) == (s_before.active@.contains(x) || x
                                    == id) by {
                                lemma_push_contains(s_before.active@, id, x);
                            }
                        }
                        self.remove_throttle(id);
                        proof {
                            assert forall|k: int| 0 <= k < started@.len() implies 0 <= index_of(
                                peers,
                                #[trigger] started@[k].id,
                            ) < i + 1 && reachable(*info, started@[k].id) && !old(self).active@.contains(started@[k].id) && info.peer(
                                started@[k].id,
                            ).primary_addr == Some(started@[k].addr) by {
                                if k < started_before.len() {
                                    assert(started@[k] == started_before[k]);
                                }
                            }
                            assert forall|x: HostId|
                                0 <= #[trigger] index_of(peers, x) < i + 1 && reachable(*info, x)
                                    && !old(self).active@.contains(x) implies exists|k: int|
                                0 <= k < started@.len() && started@[k].id == x by {
                                if x == id {
                                    assert(started@[started_before.len() as int].id == x);
                                } else {
                                    let k = choose|k: int|
                                        0 <= k < started_before.len() && started_before[k].id == x;
                                    assert(started@[k].id == x);
                                }
                            }
                        }
                    },
                    None => {
                        self.insert_throttle(id, now);
                    },
                }
            }
            i = i + 1;
        }
        proof {
            assert forall|x: HostId| #[trigger] info.knows(x) == (0 <= index_of(peers, x) < i) by {
                lemma_index_of(peers, x);
            }
        }
        started
    }

    /// Opens a connection to each throttled peer that is due and now has an
    /// address; bumps the throttle of each due peer still without one; drops
    /// the throttle of each due peer that gossip forgot; sets the timer.
    /// A peer restarted here keeps its count of failures, so that its next
    /// failure counts on from the last; its throttle's time, like that of
    /// every other peer holding a connection, is moved up to `now`, so that
    /// no peer holding a connection is left due. Only `check_connections`,
    /// which opens connections from gossip's table, drops a throttle.
    pub fn new_connections(&mut self, info: &Info, now: u64) -> (r: Vec<Connect>)
        requires
            old(self).wf(),
            info.wf(),
        ensures
            passed(*old(self), *final(self), *info, now, r@),
    {
        let ghost src = self.throttled@;
        let mut deadline = now.saturating_add(IDLE_WAKEUP);
        let mut kept: Vec<(HostId, Throttle)> = Vec::new();
        let mut started: Vec<Connect> = Vec::new();
        let mut i: usize = 0;
        while i < self.throttled.len()
            invariant
                self.throttled@ == src,
                src == old(self).throttled@,
                unique_keys(src),
                0 <= i <= src.len(),
                no_repeats(self.active@),
                forall|x: HostId| #[trigger]
                    self.active@.contains(x) == (old(self).active@.contains(x) || (lookup(
                        src.take(i as int),
                        x,
                    ).is_some() && restarts(*old(self), *info, now, x))),
                unique_keys(kept@),
                forall|k: int|
                    0 <= k < kept@.len() ==> lookup(src.take(i as int), #[trigger] kept@[k].0).is_some(),
                forall|x: HostId| #[trigger]
                    lookup(kept@, x) == if lookup(src.take(i as int), x).is_some() {
                        after_pass(*old(self), *info, now, x)
                    } else {
                        None
                    },
                forall|k: int|
                    0 <= k < started@.len() ==> lookup(
                        src.take(i as int),
                        #[trigger] started@[k].id,
                    ).is_some() && restarts(*old(self), *info, now, started@[k].id) && info.peer(
                        started@[k].id,
                    ).primary_addr == Some(started@[k].addr),
                forall|x: HostId|
                    #[trigger] lookup(src.take(i as int), x).is_some() && restarts(
                        *old(self),
                        *info,
                        now,
                        x,
                    ) ==> exists|k: int| 0 <= k < started@.len() && started@[k].id == x,
                forall|a: int, b: int|
                    0 <= a < b < started@.len() ==> started@[a].id != started@[b].id,
                deadline <= now.saturating_add(IDLE_WAKEUP),
                forall|x: HostId|
                    #[trigger] lookup(src.take(i as int), x).is_some() && waits_after_pass(
                        *old(self),
                        *info,
                        now,
                        x,
                    ) ==> deadline <= after_pass(*old(self), *info, now, x).unwrap().timestamp,
                deadline == now.saturating_add(IDLE_WAKEUP) || exists|x: HostId|
                    #[trigger] lookup(src.take(i as int), x).is_some() && waits_after_pass(
                        *old(self),
                        *info,
                        now,
                        x,
                    ) && deadline == after_pass(*old(self), *info, now, x).unwrap().timestamp,
            decreases src.len() - i,
        {
            let (id, t) = self.throttled[i];
            proof {
                lemma_lookup_at(src, i as int);
                lemma_lookup_none(src.take(i as int), id);
                assert forall|k: int| 0 <= k < i implies src.take(i as int)[k].0 != id by {
                    assert(src[k].0 != src[i as int].0);
                }
                assert forall|x: HostId| #[trigger]
                    lookup(src.take(i + 1), x) == if x == id {
                        Some(t)
                    } else {
                        lookup(src.take(i as int), x)
                    } by {
                    lemma_lookup_take(src, i as int, x);
                }
                lemma_lookup_none(kept@, id);
            }
            let ghost kept_before = kept@;
            let ghost active_before = self.active@;
            let ghost started_before = started@;
            let ghost deadline_before = deadline;
            if self.is_active(id) {
                kept.push((id, raise(t, now)));
            } else if t.timestamp < now {
                match info.find(id) {
                    Some(j) => {
                        proof {
                            lemma_index_of(info.peers@, id);
                        }
                        match info.peers[j].primary_addr {
                            Some(addr) => {
                                started.push(Connect { id, addr });
                                self.active.push(id);
                                kept.push((id, raise(t, now)));
                                proof {
                                    assert forall|a: int, b: int|
                                        0 <= a < b < self.active@.len() implies self.active@[a]
                                        != self.active@[b] by {
                                        if b == active_before.len() {
                                            assert(self.active@[a] == active_before[a]);
                                        }
                                    }
                                    assert forall|x: HostId| #[trigger]
                                        self.active@.contains(x) == (active_before.contains(x)
                                            || x == id) by {
                                        lemma_push_contains(active_before, id, x);
                                    }
                                    assert forall|x: HostId|
                                        #[trigger] lookup(src.take(i + 1), x).is_some() && restarts(
                                            *old(self),
                                            *info,
                                            now,
                                            x,
                                        ) implies exists|k: int|
                                        0 <= k < started@.len() && started@[k].id == x by {
                                        if x == id {
                                            assert(started@[started_before.len() as int].id == x);
                                        } else {
                                            let k = choose|k: int|
                                                0 <= k < started_before.len()
                                                    && started_before[k].id == x;
                                            assert(started@[k].id == x);
                                        }
                                    }
                                }
                            },
                            None => {
                                let mut t2 = t;
                                t2.bump(now);
                                if t2.timestamp < deadline {
                                    deadline = t2.timestamp;
                                }
                                kept.push((id, t2));
                            },
                        }
                    },
                    None => {},
                }
            } else {
                if t.timestamp < deadline {
                    deadline = t.timestamp;
                }
                kept.push((id, t));
            }
            proof {
                if kept@.len() > kept_before.len() {
                    assert(kept@.drop_last() =~= kept_before);
                    assert forall|a: int, b: int| 0 <= a < b < kept@.len() implies kept@[a].0
                        != kept@[b].0 by {
                        if b == kept_before.len() {
                            assert(kept@[a] == kept_before[a]);
                        }
                    }
                } else {
                    assert(kept@ == kept_before);
                }
                assert forall|k: int| 0 <= k < kept@.len() implies lookup(
                    src.take(i + 1),
                    #[trigger] kept@[k].0,
                ).is_some() by {
                    if k < kept_before.len() {
                        assert(kept@[k] == kept_before[k]);
                    }
                }
                assert forall|x: HostId| #[trigger]
                    lookup(kept@, x) == if lookup(src.take(i + 1), x).is_some() {
                        after_pass(*old(self), *info, now, x)
                    } else {
                        None
                    } by {
                    assert(lookup(kept_before, x) == if lookup(src.take(i as int), x).is_some() {
                        after_pass(*old(self), *info, now, x)
                    } else {
                        None
                    });
                }
                assert forall|k: int| 0 <= k < started@.len() implies lookup(
                    src.take(i + 1),
                    #[trigger] started@[k].id,
                ).is_some() && restarts(*old(self), *info, now, started@[k].id) && info.peer(
                    started@[k].id,
                ).primary_addr == Some(started@[k].addr) by {
                    if k < started_before.len() {
                        assert(started@[k] == started_before[k]);
                    }
                }
                if deadline != deadline_before {
                    assert(lookup(src.take(i + 1), id).is_some() && waits_after_pass(
                        *old(self),
                        *info,
                        now,
                        id,
                    ) && deadline == after_pass(*old(self), *info, now, id).unwrap().timestamp);
                } else if deadline != now.saturating_add(IDLE_WAKEUP) {
                    let w = choose|x: HostId|
                        #[trigger] lookup(src.take(i as int), x).is_some() && waits_after_pass(
                            *old(self),
                            *info,
                            now,
                            x,
                        ) && deadline == after_pass(*old(self), *info, now, x).unwrap().timestamp;
                    assert(lookup(src.take(i + 1), w).is_some());
                }
            }
            i = i + 1;
        }
        proof {
            assert(src.take(src.len() as int) =~= src);
            assert forall|x: HostId|
                waits_after_pass(*old(self), *info, now, x) implies deadline <= (#[trigger] lookup(
                kept@,
                x,
            )).unwrap().timestamp by {
                assert(lookup(src.take(src.len() as int), x).is_some());
            }
            if deadline != now.saturating_add(IDLE_WAKEUP) {
                let w = choose|x: HostId|
                    #[trigger] lookup(src.take(src.len() as int), x).is_some() && waits_after_pass(
                        *old(self),
                        *info,
                        now,
                        x,
                    ) && deadline == after_pass(*old(self), *info, now, x).unwrap().timestamp;
                assert(lookup(kept@, w) == after_pass(*old(self), *info, now, w));
            }
        }
        self.throttled = kept;
        self.timer = deadline;
        started
    }

    /// Takes each dead id out of the active set and records its failure.
    pub fn dead_connections(&mut self, dead: &Vec<HostId>, now: u64)
        requires
            old(self).wf(),
        ensures
            buried(*old(self), *final(self), dead@, now),
    {
        let mut i: usize = 0;
        while i < dead.len()
            invariant
                0 <= i <= dead@.len(),
                self.wf(),
                self.timer == old(self).timer,
                forall|x: HostId| #[trigger]
                    self.active@.contains(x) == (old(self).active@.contains(x) && !dead@.take(
                        i as int,
                    ).contains(x)),
                forall|x: HostId| #[trigger]
                    lookup(self.throttled@, x) == deaths(
                        lookup(old(self).throttled@, x),
                        times_of(now, occurrences(dead@.take(i as int), x)),
                    ),
            decreases dead@.len() - i,
        {
            let id = dead[i];
            proof {
                assert(dead@.take(i + 1) =~= dead@.take(i as int).push(id));
                assert(dead@.take(i + 1).drop_last() =~= dead@.take(i as int));
                assert forall|x: HostId| #[trigger]
                    dead@.take(i + 1).contains(x) == (dead@.take(i as int).contains(x) || x == id) by {
                    lemma_push_contains(dead@.take(i as int), id, x);
                }
            }
            let ghost before = self.throttled@;
            self.remove_active(id);
            self.bump_throttle(id, now);
            proof {
                assert forall|x: HostId| #[trigger]
                    lookup(self.throttled@, x) == deaths(
                        lookup(old(self).throttled@, x),
                        times_of(now, occurrences(dead@.take(i + 1), x)),
                    ) by {
                    let c = occurrences(dead@.take(i as int), x);
                    if x == id {
                        assert(times_of(now, c + 1).drop_last() =~= times_of(now, c));
                    } else {
                        assert(occurrences(dead@.take(i + 1), x) == c);
                    }
                }
            }
            i = i + 1;
        }
        proof {
            assert(dead@.take(dead@.len() as int) =~= dead@);
        }
    }
}

/// Commands to the controller.
#[derive(PartialEq, Eq, Structural, Clone, Copy, Debug)]
pub enum Message {
    /// Start managing connections, once.
    Start,
    /// Gossip's peer table changed.
    PeersUpdated,
}

/// What a start does: a connection to each peer with an address, a throttle
/// eligible at once for each peer without one.
pub open spec fn started_fresh(s1: State, info: Info, now: u64, r: Seq<Connect>) -> bool {
    &&& s1.wf()
    &&& s1.timer == now
    &&& forall|x: HostId| #[trigger] s1.active@.contains(x) == reachable(info, x)
    &&& forall|x: HostId| #[trigger]
        lookup(s1.throttled@, x) == if info.knows(x) && !reachable(info, x) {
            Some(waiting_throttle(now))
        } else {
            None
        }
    &&& opens_exactly(r, info, Set::new(|x: HostId| reachable(info, x)))
}

/// The controller: nothing until started, then its bookkeeping.
pub struct Manager {
    pub state: Option<State>,
}

impl Manager {
    /// Whether the bookkeeping, once there, is well formed.
    pub open spec fn wf(&self) -> bool {
        match self.state {
            Some(s) => s.wf(),
            None => true,
        }
    }

    /// A controller not started yet.
    pub fn new() -> (r: Manager)
        ensures
            r.state.is_none(),
    {
        Manager { state: None }
    }

    /// Handles one command; returns the connections to open.
    pub fn receive_message(&mut self, msg: Message, info: &Info, now: u64) -> (r: Vec<Connect>)
        requires
            old(self).wf(),
            info.wf(),
        ensures
            final(self).wf(),
            msg == Message::Start && old(self).state.is_none() ==> final(self).state.is_some()
                && started_fresh(final(self).state.unwrap(), *info, now, r@),
            msg == Message::PeersUpdated && old(self).state.is_some() ==> final(self).state.is_some()
                && checked(
                old(self).state.unwrap(),
                final(self).state.unwrap(),
                *info,
                now,
                r@,
            ),
            (msg == Message::Start && old(self).state.is_some()) || (msg == Message::PeersUpdated
                && old(self).state.is_none()) ==> *final(self) == *old(self) && r@.len() == 0,
    {
        match msg {
            Message::Start => {
                if self.state.is_none() {
                    let mut st = State::new(now);
                    let ghost s0 = st;
                    let r = st.check_connections(info, now);
                    proof {
                        assert forall|x: HostId| !s0.active@.contains(x) by {}
                        assert forall|x: HostId| lookup(s0.throttled@, x).is_none() by {}
                        assert(Set::new(|x: HostId| reachable(*info, x) && !s0.active@.contains(x))
                            =~= Set::new(|x: HostId| reachable(*info, x)));
                    }
                    self.state = Some(st);
                    r
                } else {
                    Vec::new()
                }
            },
            Message::PeersUpdated => {
                match self.state.take() {
                    Some(mut st) => {
                        let r = st.check_connections(info, now);
                        self.state = Some(st);
                        r
                    },
                    None => Vec::new(),
                }
            },
        }
    }

    /// One pass of the controller's loop: retries the throttled peers that
    /// are due, then takes in the connections that died since the last pass.
    /// Returns the connections to open; the caller runs another pass while
    /// one returns some.
    pub fn poll(&mut self, info: &Info, dead: &Vec<HostId>, now: u64) -> (r: Vec<Connect>)
        requires
            old(self).wf(),
            info.wf(),
        ensures
            final(self).wf(),
            old(self).state.is_none() ==> *final(self) == *old(self) && r@.len() == 0,
            old(self).state.is_some() ==> final(self).state.is_some() && exists|mid: State|
                passed(old(self).state.unwrap(), mid, *info, now, r@) && buried(
                    mid,
                    final(self).state.unwrap(),
                    dead@,
                    now,
                ),
            old(self).state.is_some() ==> none_active_due(final(self).state.unwrap(), now),
    {
        match self.state.take() {
            Some(mut st) => {
                let r = st.new_connections(info, now);
                let ghost mid = st;
                st.dead_connections(dead, now);
                self.state = Some(st);
                proof {
                    assert(passed(old(self).state.unwrap(), mid, *info, now, r@));
                    assert forall|x: HostId|
                        st.active@.contains(x) && #[trigger] lookup(st.throttled@, x).is_some()
                            implies lookup(st.throttled@, x).unwrap().timestamp >= now by {
                        lemma_occurrences_absent(dead@, x);
                        assert(times_of(now, 0) =~= Seq::<u64>::empty());
                        assert(mid.active@.contains(x));
                        assert(lookup(mid.throttled@, x).is_some());
                    }
                }
                r
            },
            None => Vec::new(),
        }
    }
}

/// The ids of the connections that `r` opens.
pub open spec fn ids(r: Seq<Connect>) -> Seq<HostId> {
    r.map_values(|c: Connect| c.id)
}

/// `open` without the ids of `dead`.
pub open spec fn without(open: Seq<HostId>, dead: Seq<HostId>) -> Seq<HostId>
    decreases open.len(),
{
    if open.len() == 0 {
        seq![]
    } else if dead.contains(open.last()) {
        without(open.drop_last(), dead)
    } else {
        without(open.drop_last(), dead).push(open.last())
    }
}

/// Whether the running connections `open` are one per active id, and none
/// for any other.
pub open spec fn one_per_active(s: State, open: Seq<HostId>) -> bool {
    forall|x: HostId| #[trigger]
        occurrences(open, x) == if s.active@.contains(x) {
            1nat
        } else {
            0nat
        }
}

proof fn lemma_occurrences_append(a: Seq<HostId>, b: Seq<HostId>, x: HostId)
    ensures
        occurrences(a + b, x) == occurrences(a, x) + occurrences(b, x),
    decreases b.len(),
{
    if b.len() == 0 {
        assert(a + b =~= a);
    } else {
        assert((a + b).drop_last() =~= a + b.drop_last());
        lemma_occurrences_append(a, b.drop_last(), x);
    }
}

proof fn lemma_occurrences_once(s: Seq<HostId>, x: HostId)
    requires
        no_repeats(s),
    ensures
        occurrences(s, x) == if s.contains(x) {
            1nat
        } else {
            0nat
        },
    decreases s.len(),
{
    if s.len() > 0 {
        let p = s.drop_last();
        assert(no_repeats(p));
        lemma_occurrences_once(p, x);
        lemma_push_contains(p, s.last(), x);
        assert(s =~= p.push(s.last()));
        if s.last() == x {
            assert(!p.contains(x)) by {
                if p.contains(x) {
                    let k = choose|k: int| 0 <= k < p.len() && p[k] == x;
                    assert(s[k] == s[s.len() - 1]);
                }
            }
        }
    }
}

proof fn lemma_occurrences_without(open: Seq<HostId>, dead: Seq<HostId>, x: HostId)
    ensures
        occurrences(without(open, dead), x) == if dead.contains(x) {
            0nat
        } else {
            occurrences(open, x)
        },
    decreases open.len(),
{
    if open.len() > 0 {
        let w = without(open.drop_last(), dead);
        lemma_occurrences_without(open.drop_last(), dead, x);
        assert(w.push(open.last()).drop_last() =~= w);
    }
}

proof fn lemma_opened_ids(r: Seq<Connect>, info: Info, opened: Set<HostId>, x: HostId)
    requires
        opens_exactly(r, info, opened),
    ensures
        occurrences(ids(r), x) == if opened.contains(x) {
            1nat
        } else {
            0nat
        },
{
    let s = ids(r);
    assert(no_repeats(s)) by {
        assert forall|a: int, b: int| 0 <= a < b < s.len() implies s[a] != s[b] by {
            assert(s[a] == r[a].id && s[b] == r[b].id);
        }
    }
    lemma_occurrences_once(s, x);
    if opened.contains(x) {
        let k = choose|k: int| 0 <= k < r.len() && r[k].id == x;
        assert(s[k] == x);
    }
    if s.contains(x) {
        let k = choose|k: int| 0 <= k < s.len() && s[k] == x;
        assert(r[k].id == x);
    }
}

/// A controller never runs two connections to one peer: where the running
/// connections are one per active id before a pass, they still are after
/// it, counting those the pass opens and leaving out those reported dead.
pub proof fn lemma_single_connection(
    s0: State,
    info: Info,
    now: u64,
    open: Seq<HostId>,
    s1: State,
    r: Seq<Connect>,
    dead: Seq<HostId>,
    s2: State,
)
    requires
        one_per_active(s0, open),
    ensures
        checked(s0, s1, info, now, r) ==> one_per_active(s1, open + ids(r)),
        passed(s0, s1, info, now, r) ==> one_per_active(s1, open + ids(r)),
        buried(s0, s2, dead, now) ==> one_per_active(s2, without(open, dead)),
{
    if checked(s0, s1, info, now, r) {
        let opened = Set::new(|x: HostId| reachable(info, x) && !s0.active@.contains(x));
        assert forall|x: HostId| #[trigger]
            occurrences(open + ids(r), x) == if s1.active@.contains(x) {
                1nat
            } else {
                0nat
            } by {
            lemma_occurrences_append(open, ids(r), x);
            lemma_opened_ids(r, info, opened, x);
            assert(occurrences(open, x) == if s0.active@.contains(x) {
                1nat
            } else {
                0nat
            });
        }
    }
    if passed(s0, s1, info, now, r) {
        let opened = Set::new(|x: HostId| restarts(s0, info, now, x));
        assert forall|x: HostId| #[trigger]
            occurrences(open + ids(r), x) == if s1.active@.contains(x) {
                1nat
            } else {
                0nat
            } by {
            lemma_occurrences_append(open, ids(r), x);
            lemma_opened_ids(r, info, opened, x);
            assert(occurrences(open, x) == if s0.active@.contains(x) {
                1nat
            } else {
                0nat
            });
        }
    }
    if buried(s0, s2, dead, now) {
        assert forall|x: HostId| #[trigger]
            occurrences(without(open, dead), x) == if s2.active@.contains(x) {
                1nat
            } else {
                0nat
            } by {
            lemma_occurrences_without(open, dead, x);
            assert(occurrences(open, x) == if s0.active@.contains(x) {
                1nat
            } else {
                0nat
            });
        }
    }
}

/// Starting with gossip knowing a single peer, which has no address yet,
/// opens no connection and leaves exactly one throttle, for that peer,
/// counting one attempt and eligible at once: `INITIAL_TIME` before the
/// start (at time zero where the clock has not run that long).
pub proof fn lemma_start_unaddressed(s1: State, info: Info, now: u64, r: Seq<Connect>)
    requires
        info.wf(),
        info.peers@.len() == 1,
        info.peers@[0].primary_addr.is_none(),
        started_fresh(s1, info, now, r),
    ensures
        r.len() == 0,
        s1.active@.len() == 0,
        s1.throttled@ == seq![(info.peers@[0].id, waiting_throttle(now))],
        now >= INITIAL_TIME ==> s1.throttled@[0].1.timestamp == now - INITIAL_TIME,
        s1.throttled@[0].1.num == 1,
{
    let id = info.peers@[0].id;
    lemma_index_unique(info.peers@, 0);
    assert forall|x: HostId| !reachable(info, x) by {
        lemma_index_of(info.peers@, x);
    }
    if r.len() > 0 {
        assert(Set::new(|x: HostId| reachable(info, x)).contains(r[0].id));
    }
    if s1.active@.len() > 0 {
        assert(s1.active@.contains(s1.active@[0]));
    }
    let t = s1.throttled@;
    assert forall|k: int| 0 <= k < t.len() implies t[k].0 == id by {
        lemma_lookup_at(t, k);
        lemma_index_of(info.peers@, t[k].0);
    }
    assert(lookup(t, id) == Some(waiting_throttle(now)));
    lemma_lookup_none(t, id);
    let k0 = choose|k: int| 0 <= k < t.len() && t[k].0 == id;
    if t.len() > 1 {
        assert(t[0].0 == t[1].0);
    }
    lemma_lookup_at(t, k0);
    assert(t =~= seq![(id, waiting_throttle(now))]);
}

} // verus!
