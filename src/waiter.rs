//! The pessimistic-lock wait table and the decisions of the wait manager.
//!
//! The manager is a single-owner state machine: each handler takes the
//! current time in milliseconds and returns the waiters to notify now. The
//! caller runs the event loop, delivers the notifications and calls
//! [`WaiterManager::handle_timeouts`] when a deadline passes.
use vstd::prelude::*;

verus! {

/// A lock that transactions wait for: its start timestamp and key hash.
#[derive(Debug, Clone, Copy, PartialEq, Eq, Structural)]
pub struct WaitLock {
    pub ts: u64,
    pub hash: u64,
}

/// What a waiter will be told when it is notified.
#[derive(Debug, Clone, Copy, PartialEq, Eq, Structural)]
pub enum WaitResult {
    /// Still blocked by the lock: the caller retries later.
    KeyIsLocked,
    /// The lock was released by a commit or rollback.
    WriteConflict { conflict_start_ts: u64, conflict_commit_ts: u64 },
    /// Waiting would close a cycle of waiting transactions.
    Deadlock { lock_ts: u64, deadlock_key_hash: u64 },
}

/// A transaction waiting for a lock.
#[derive(Debug, Clone, Copy, PartialEq, Eq, Structural)]
pub struct Waiter {
    pub start_ts: u64,
    pub lock: WaitLock,
    /// When the waiter times out, in milliseconds.
    pub deadline: u64,
    pub result: WaitResult,
}

/// How long a waiter waits: the configured default, or a number of
/// milliseconds no longer than it.
#[derive(Debug, Clone, Copy, PartialEq, Eq, Structural)]
pub enum WaitTimeout {
    Default,
    Millis(u64),
}

impl WaitTimeout {
    pub open spec fn spec_duration(self, ceiling: u64) -> u64 {
        match self {
            WaitTimeout::Default => ceiling,
            WaitTimeout::Millis(ms) => if ms < ceiling {
                ms
            } else {
                ceiling
            },
        }
    }

    /// The timeout in milliseconds, bounded by `ceiling`.
    pub fn into_duration_with_ceiling(self, ceiling: u64) -> (r: u64)
        ensures
            r == self.spec_duration(ceiling),
    {
        match self {
            WaitTimeout::Default => ceiling,
            WaitTimeout::Millis(ms) => if ms < ceiling {
                ms
            } else {
                ceiling
            },
        }
    }
}

/// One (waiting transaction, blocking transaction, lock hash) triple.
#[derive(Debug, Clone, Copy, PartialEq, Eq, Structural)]
pub struct WaitForEntry {
    pub txn: u64,
    pub wait_for_txn: u64,
    pub key_hash: u64,
}

/// The waiters, at most one per (lock hash, start timestamp).
#[derive(Debug)]
pub struct WaitTable {
    pub waiters: Vec<Waiter>,
}

/// The key under which the table holds a waiter.
pub open spec fn slot(w: Waiter) -> (u64, u64) {
    (w.lock.hash, w.start_ts)
}

impl View for WaitTable {
    type V = Map<(u64, u64), Waiter>;

    open spec fn view(&self) -> Map<(u64, u64), Waiter> {
        Map::new(
            |p: (u64, u64)| exists|i: int| 0 <= i < self.waiters@.len() && slot(self.waiters@[i]) == p,
            |p: (u64, u64)|
                self.waiters@[choose|i: int|
                    0 <= i < self.waiters@.len() && slot(self.waiters@[i]) == p],
        )
    }
}

/// The smallest start timestamp among the waiters for `hash`.
pub open spec fn is_oldest(m: Map<(u64, u64), Waiter>, hash: u64, st: u64) -> bool {
    &&& m.contains_key((hash, st))
    &&& forall|s2: u64| #[trigger] m.contains_key((hash, s2)) ==> st <= s2
}

/// The waiter `w` told of the release of lock `lock_ts` committed at `commit_ts`.
pub open spec fn conflicted(w: Waiter, lock_ts: u64, commit_ts: u64) -> Waiter {
    Waiter {
        result: WaitResult::WriteConflict { conflict_start_ts: lock_ts, conflict_commit_ts: commit_ts },
        ..w
    }
}

/// The later of no deadline: `d` moved earlier to `t` where `t` comes first.
pub open spec fn earlier(d: u64, t: u64) -> u64 {
    if t < d {
        t
    } else {
        d
    }
}

impl WaitTable {
    /// No two waiters share a slot.
    pub open spec fn wf(&self) -> bool {
        forall|i: int, j: int|
            #![trigger self.waiters@[i], self.waiters@[j]]
            0 <= i < self.waiters@.len() && 0 <= j < self.waiters@.len() && i != j ==> slot(
                self.waiters@[i],
            ) != slot(self.waiters@[j])
    }

    pub proof fn lemma_entry(&self, i: int)
        requires
            self.wf(),
            0 <= i < self.waiters@.len(),
        ensures
            self@.contains_key(slot(self.waiters@[i])),
            self@[slot(self.waiters@[i])] == self.waiters@[i],
    {
        let p = slot(self.waiters@[i]);
        let j = choose|j: int| 0 <= j < self.waiters@.len() && slot(self.waiters@[j]) == p;
        assert(j == i);
    }

    pub fn new() -> (r: WaitTable)
        ensures
            r.wf(),
            r@ == Map::<(u64, u64), Waiter>::empty(),
    {
        let r = WaitTable { waiters: Vec::new() };
        assert(r@ =~= Map::<(u64, u64), Waiter>::empty());
        r
    }

    pub fn count(&self) -> (r: usize)
        requires
            self.wf(),
        ensures
            r == self@.dom().len(),
    {
        proof {
            self.lemma_len();
        }
        self.waiters.len()
    }

    pub fn is_empty(&self) -> (r: bool)
        requires
            self.wf(),
        ensures
            r == (self@.dom().len() == 0),
            r == (self@ == Map::<(u64, u64), Waiter>::empty()),
    {
        proof {
            self.lemma_len();
            if self.waiters@.len() == 0 {
                assert(self@ =~= Map::<(u64, u64), Waiter>::empty());
            } else {
                self.lemma_entry(0);
                assert(self@.contains_key(slot(self.waiters@[0])));
            }
        }
        self.waiters.len() == 0
    }

    proof fn lemma_len(&self)
        requires
            self.wf(),
        ensures
            self@.dom().len() == self.waiters@.len(),
        decreases self.waiters@.len(),
    {
        let n = self.waiters@.len();
        if n == 0 {
            assert(self@.dom() =~= Set::<(u64, u64)>::empty());
        } else {
            let s = self.waiters@.map_values(|w: Waiter| slot(w));
            assert forall|p: (u64, u64)| #[trigger] self@.dom().contains(p) <==> s.to_set().contains(p) by {
                if self@.dom().contains(p) {
                    let i = choose|i: int| 0 <= i < n && slot(self.waiters@[i]) == p;
                    assert(s[i] == p);
                }
                if s.to_set().contains(p) {
                    let i = choose|i: int| 0 <= i < s.len() && s[i] == p;
                    assert(slot(self.waiters@[i]) == p);
                }
            }
            assert(self@.dom() =~= s.to_set());
            assert(s.no_duplicates()) by {
                assert forall|i: int, j: int| 0 <= i < s.len() && 0 <= j < s.len() && i != j implies s[i]
                    != s[j] by {
                    assert(self.waiters@[i] == self.waiters@[i]);
                    assert(self.waiters@[j] == self.waiters@[j]);
                }
            }
            s.unique_seq_to_set();
        }
    }

    fn find(&self, hash: u64, start_ts: u64) -> (r: Option<usize>)
        requires
            self.wf(),
        ensures
            r is None ==> !self@.contains_key((hash, start_ts)),
            r is Some ==> r.unwrap() < self.waiters@.len() && slot(self.waiters@[r.unwrap() as int])
                == (hash, start_ts),
    {
        let mut i: usize = 0;
        while i < self.waiters.len()
            invariant
                i <= self.waiters.len(),
                forall|j: int| 0 <= j < i ==> slot(#[trigger] self.waiters@[j]) != (hash, start_ts),
            decreases self.waiters.len() - i,
        {
            if self.waiters[i].lock.hash == hash && self.waiters[i].start_ts == start_ts {
                return Some(i);
            }
            i += 1;
        }
        None
    }

    /// Removes the waiter at index `i`.
    fn take(&mut self, i: usize) -> (r: Waiter)
        requires
            old(self).wf(),
            i < old(self).waiters@.len(),
        ensures
            final(self).wf(),
            r == old(self).waiters@[i as int],
            final(self)@ == old(self)@.remove(slot(r)),
            final(self).waiters@ == old(self).waiters@.remove(i as int),
    {
        let ghost prev = *self;
        proof {
            prev.lemma_entry(i as int);
        }
        let r = self.waiters.remove(i);
        proof {
            let p = slot(r);
            assert forall|j: int|
                0 <= j < self.waiters@.len() implies #[trigger] self.waiters@[j] == (if j < i {
                prev.waiters@[j]
            } else {
                prev.waiters@[j + 1]
            }) by {}
            assert forall|q: (u64, u64)| #[trigger]
                self@.contains_key(q) == prev@.remove(p).contains_key(q) by {
                if self@.contains_key(q) {
                    let j = choose|j: int| 0 <= j < self.waiters@.len() && slot(self.waiters@[j]) == q;
                    if j < i {
                        assert(slot(prev.waiters@[j]) == q);
                    } else {
                        assert(slot(prev.waiters@[j + 1]) == q);
                    }
                }
                if q != p && prev@.contains_key(q) {
                    let j = choose|j: int| 0 <= j < prev.waiters@.len() && slot(prev.waiters@[j]) == q;
                    if j < i {
                        assert(slot(self.waiters@[j]) == q);
                    } else {
                        assert(slot(self.waiters@[j - 1]) == q);
                    }
                }
            }
            assert forall|q: (u64, u64)| #[trigger]
                self@.contains_key(q) implies self@[q] == prev@.remove(p)[q] by {
                let j = choose|j: int| 0 <= j < self.waiters@.len() && slot(self.waiters@[j]) == q;
                self.lemma_entry(j);
                if j < i {
                    prev.lemma_entry(j);
                } else {
                    prev.lemma_entry(j + 1);
                }
            }
            assert(self@ =~= prev@.remove(p));
        }
        r
    }

    /// Adds `waiter`; returns the waiter of the same transaction on the same
    /// lock hash that it replaces, if any.
    pub fn add_waiter(&mut self, waiter: Waiter) -> (r: Option<Waiter>)
        requires
            old(self).wf(),
        ensures
            final(self).wf(),
            final(self)@ == old(self)@.insert(slot(waiter), waiter),
            r == (if old(self)@.contains_key(slot(waiter)) {
                Some(old(self)@[slot(waiter)])
            } else {
                None
            }),
    {
        let old_waiter = match self.find(waiter.lock.hash, waiter.start_ts) {
            Some(i) => Some(self.take(i)),
            None => None,
        };
        let ghost mid = *self;
        assert(!mid@.contains_key(slot(waiter)));
        self.waiters.push(waiter);
        proof {
            let n = mid.waiters@.len() as int;
            let p = slot(waiter);
            assert forall|a: int, b: int|
                0 <= a < self.waiters@.len() && 0 <= b < self.waiters@.len() && a != b implies slot(
                #[trigger] self.waiters@[a],
            ) != slot(#[trigger] self.waiters@[b]) by {
                if a == n {
                    assert(self.waiters@[b] == mid.waiters@[b]);
                    if slot(mid.waiters@[b]) == p {
                        assert(mid@.contains_key(p));
                    }
                } else if b == n {
                    assert(self.waiters@[a] == mid.waiters@[a]);
                    if slot(mid.waiters@[a]) == p {
                        assert(mid@.contains_key(p));
                    }
                } else {
                    assert(self.waiters@[a] == mid.waiters@[a]);
                    assert(self.waiters@[b] == mid.waiters@[b]);
                }
            }
            assert forall|q: (u64, u64)| #[trigger]
                self@.contains_key(q) == mid@.insert(p, waiter).contains_key(q) by {
                if q == p {
                    assert(slot(self.waiters@[n]) == q);
                } else {
                    if self@.contains_key(q) {
                        let j = choose|j: int| 0 <= j < self.waiters@.len() && slot(self.waiters@[j]) == q;
                        assert(slot(mid.waiters@[j]) == q);
                    }
                    if mid@.contains_key(q) {
                        let j = choose|j: int| 0 <= j < mid.waiters@.len() && slot(mid.waiters@[j]) == q;
                        assert(slot(self.waiters@[j]) == q);
                    }
                }
            }
            assert forall|q: (u64, u64)| #[trigger]
                self@.contains_key(q) implies self@[q] == mid@.insert(p, waiter)[q] by {
                let j = choose|j: int| 0 <= j < self.waiters@.len() && slot(self.waiters@[j]) == q;
                self.lemma_entry(j);
                if j < n {
                    mid.lemma_entry(j);
                }
            }
            assert(self@ =~= mid@.insert(p, waiter));
            assert(mid@.insert(p, waiter) =~= old(self)@.insert(p, waiter));
        }
        old_waiter
    }

    /// Removes the waiter of transaction `waiter_ts` on `lock`.
    pub fn remove_waiter(&mut self, lock: WaitLock, waiter_ts: u64) -> (r: Option<Waiter>)
        requires
            old(self).wf(),
        ensures
            final(self).wf(),
            final(self)@ == old(self)@.remove((lock.hash, waiter_ts)),
            r == (if old(self)@.contains_key((lock.hash, waiter_ts)) {
                Some(old(self)@[(lock.hash, waiter_ts)])
            } else {
                None
            }),
    {
        match self.find(lock.hash, waiter_ts) {
            Some(i) => {
                proof {
                    self.lemma_entry(i as int);
                }
                Some(self.take(i))
            },
            None => {
                assert(self@ =~= old(self)@.remove((lock.hash, waiter_ts)));
                None
            },
        }
    }

    /// Removes the waiter with the smallest start timestamp among those
    /// waiting on `lock`'s hash.
    pub fn remove_oldest_waiter(&mut self, lock: WaitLock) -> (r: Option<Waiter>)
        requires
            old(self).wf(),
        ensures
            final(self).wf(),
            r is None ==> final(self)@ == old(self)@ && forall|st: u64|
                !(#[trigger] old(self)@.contains_key((lock.hash, st))),
            r is Some ==> is_oldest(old(self)@, lock.hash, r.unwrap().start_ts) && r.unwrap() == old(
                self,
            )@[(lock.hash, r.unwrap().start_ts)] && final(self)@ == old(self)@.remove(
                (lock.hash, r.unwrap().start_ts),
            ),
    {
        let mut best: Option<usize> = None;
        let mut i: usize = 0;
        while i < self.waiters.len()
            invariant
                i <= self.waiters.len(),
                best is Some ==> best.unwrap() < i && self.waiters@[best.unwrap() as int].lock.hash
                    == lock.hash && forall|j: int|
                    0 <= j < i && (#[trigger] self.waiters@[j]).lock.hash == lock.hash
                        ==> self.waiters@[best.unwrap() as int].start_ts <= self.waiters@[j].start_ts,
                best is None ==> forall|j: int|
                    0 <= j < i ==> (#[trigger] self.waiters@[j]).lock.hash != lock.hash,
            decreases self.waiters.len() - i,
        {
            if self.waiters[i].lock.hash == lock.hash {
                match best {
                    Some(b) => {
                        if self.waiters[i].start_ts < self.waiters[b].start_ts {
                            best = Some(i);
                        }
                    },
                    None => {
                        best = Some(i);
                    },
                }
            }
            i += 1;
        }
        match best {
            Some(b) => {
                proof {
                    self.lemma_entry(b as int);
                    let st = self.waiters@[b as int].start_ts;
                    assert forall|s2: u64| #[trigger] self@.contains_key((lock.hash, s2)) implies st
                        <= s2 by {
                        let j = choose|j: int|
                            0 <= j < self.waiters@.len() && slot(self.waiters@[j]) == (lock.hash, s2);
                        assert(self.waiters@[j].lock.hash == lock.hash);
                    }
                }
                let r = self.take(b);
                Some(r)
            },
            None => {
                proof {
                    assert forall|st: u64| !(#[trigger] self@.contains_key((lock.hash, st))) by {
                        if self@.contains_key((lock.hash, st)) {
                            let j = choose|j: int|
                                0 <= j < self.waiters@.len() && slot(self.waiters@[j]) == (
                                lock.hash,
                                st,
                            );
                            assert(self.waiters@[j].lock.hash == lock.hash);
                        }
                    }
                }
                None
            },
        }
    }

    /// Tells every waiter on `hash` of the release of lock `lock_ts`
    /// committed at `commit_ts`, and moves its deadline no later than
    /// `deadline`.
    pub fn conflict_all(&mut self, hash: u64, lock_ts: u64, commit_ts: u64, deadline: u64)
        requires
            old(self).wf(),
        ensures
            final(self).wf(),
            final(self)@.dom() == old(self)@.dom(),
            forall|p: (u64, u64)| #[trigger]
                final(self)@.contains_key(p) ==> final(self)@[p] == (if p.0 == hash {
                    Waiter { deadline: earlier(old(self)@[p].deadline, deadline), ..conflicted(old(self)@[p], lock_ts, commit_ts) }
                } else {
                    old(self)@[p]
                }),
    {
        let ghost prev = *self;
        let mut i: usize = 0;
        while i < self.waiters.len()
            invariant
                i <= self.waiters.len(),
                self.waiters@.len() == prev.waiters@.len(),
                forall|j: int|
                    0 <= j < self.waiters@.len() ==> slot(#[trigger] self.waiters@[j]) == slot(
                        prev.waiters@[j],
                    ),
                forall|j: int|
                    #![trigger self.waiters@[j]]
                    0 <= j < self.waiters@.len() ==> self.waiters@[j] == (if j < i
                        && prev.waiters@[j].lock.hash == hash {
                        Waiter { deadline: earlier(prev.waiters@[j].deadline, deadline), ..conflicted(prev.waiters@[j], lock_ts, commit_ts) }
                    } else {
                        prev.waiters@[j]
                    }),
            decreases self.waiters.len() - i,
        {
            let w = self.waiters[i];
            if w.lock.hash == hash {
                let d = if deadline < w.deadline {
                    deadline
                } else {
                    w.deadline
                };
                let nw = Waiter {
                    start_ts: w.start_ts,
                    lock: w.lock,
                    deadline: d,
                    result: WaitResult::WriteConflict {
                        conflict_start_ts: lock_ts,
                        conflict_commit_ts: commit_ts,
                    },
                };
                self.waiters.set(i, nw);
            }
            i += 1;
        }
        proof {
            assert(self.wf()) by {
                assert forall|a: int, b: int|
                    0 <= a < self.waiters@.len() && 0 <= b < self.waiters@.len() && a != b implies slot(
                    #[trigger] self.waiters@[a],
                ) != slot(#[trigger] self.waiters@[b]) by {
                    assert(prev.waiters@[a] == prev.waiters@[a]);
                    assert(prev.waiters@[b] == prev.waiters@[b]);
                }
            }
            assert forall|p: (u64, u64)| #[trigger] self@.contains_key(p) == prev@.contains_key(p) by {
                if self@.contains_key(p) {
                    let j = choose|j: int| 0 <= j < self.waiters@.len() && slot(self.waiters@[j]) == p;
                    assert(slot(prev.waiters@[j]) == p);
                }
                if prev@.contains_key(p) {
                    let j = choose|j: int| 0 <= j < prev.waiters@.len() && slot(prev.waiters@[j]) == p;
                    assert(slot(self.waiters@[j]) == p);
                }
            }
            assert(self@.dom() =~= prev@.dom());
            assert forall|p: (u64, u64)| #[trigger] self@.contains_key(p) implies self@[p] == (if p.0
                == hash {
                Waiter { deadline: earlier(prev@[p].deadline, deadline), ..conflicted(prev@[p], lock_ts, commit_ts) }
            } else {
                prev@[p]
            }) by {
                let j = choose|j: int| 0 <= j < self.waiters@.len() && slot(self.waiters@[j]) == p;
                self.lemma_entry(j);
                prev.lemma_entry(j);
            }
        }
    }

    /// The (waiting, blocking, hash) triple of every waiter.
    pub fn to_wait_for_entries(&self) -> (r: Vec<WaitForEntry>)
        ensures
            r@.len() == self.waiters@.len(),
            forall|i: int|
                0 <= i < r@.len() ==> #[trigger] r@[i] == (WaitForEntry {
                    txn: self.waiters@[i].start_ts,
                    wait_for_txn: self.waiters@[i].lock.ts,
                    key_hash: self.waiters@[i].lock.hash,
                }),
    {
        let mut r: Vec<WaitForEntry> = Vec::new();
        let mut i: usize = 0;
        while i < self.waiters.len()
            invariant
                i <= self.waiters.len(),
                r@.len() == i,
                forall|j: int|
                    0 <= j < i ==> #[trigger] r@[j] == (WaitForEntry {
                        txn: self.waiters@[j].start_ts,
                        wait_for_txn: self.waiters@[j].lock.ts,
                        key_hash: self.waiters@[j].lock.hash,
                    }),
            decreases self.waiters.len() - i,
        {
            let w = &self.waiters[i];
            r.push(WaitForEntry { txn: w.start_ts, wait_for_txn: w.lock.ts, key_hash: w.lock.hash });
            i += 1;
        }
        r
    }
}

/// The table after waking the oldest waiter on `hash`: it leaves, and the
/// other waiters on `hash` are told of the conflict with their deadlines
/// moved to no later than `t`.
pub open spec fn wake_one(
    m: Map<(u64, u64), Waiter>,
    hash: u64,
    lock_ts: u64,
    commit_ts: u64,
    t: u64,
) -> Map<(u64, u64), Waiter> {
    if exists|st: u64| is_oldest(m, hash, st) {
        let st = choose|st: u64| is_oldest(m, hash, st);
        Map::new(
            |p: (u64, u64)| m.contains_key(p) && p != (hash, st),
            |p: (u64, u64)|
                if p.0 == hash {
                    Waiter { deadline: earlier(m[p].deadline, t), ..conflicted(m[p], lock_ts, commit_ts) }
                } else {
                    m[p]
                },
        )
    } else {
        m
    }
}

/// The table after waking each of `hashes` in turn.
pub open spec fn wake_all(
    m: Map<(u64, u64), Waiter>,
    hashes: Seq<u64>,
    lock_ts: u64,
    commit_ts: u64,
    t: u64,
) -> Map<(u64, u64), Waiter>
    decreases hashes.len(),
{
    if hashes.len() == 0 {
        m
    } else {
        wake_one(wake_all(m, hashes.drop_last(), lock_ts, commit_ts, t), hashes.last(), lock_ts, commit_ts, t)
    }
}

/// The waiter that waking `hash` notifies at once: the oldest one on it,
/// told of the conflict.
pub open spec fn woken(m: Map<(u64, u64), Waiter>, hash: u64, lock_ts: u64, commit_ts: u64) -> Option<Waiter> {
    if exists|st: u64| is_oldest(m, hash, st) {
        let st = choose|st: u64| is_oldest(m, hash, st);
        Some(conflicted(m[(hash, st)], lock_ts, commit_ts))
    } else {
        None
    }
}

/// The waiters that waking each of `hashes` in turn notifies at once, in
/// that order.
pub open spec fn woken_all(
    m: Map<(u64, u64), Waiter>,
    hashes: Seq<u64>,
    lock_ts: u64,
    commit_ts: u64,
    t: u64,
) -> Seq<Waiter>
    decreases hashes.len(),
{
    if hashes.len() == 0 {
        Seq::empty()
    } else {
        let prev = woken_all(m, hashes.drop_last(), lock_ts, commit_ts, t);
        match woken(wake_all(m, hashes.drop_last(), lock_ts, commit_ts, t), hashes.last(), lock_ts, commit_ts) {
            Some(w) => prev.push(w),
            None => prev,
        }
    }
}

/// Waking any hashes of an empty table leaves it empty and notifies nobody.
proof fn lemma_wake_all_empty(hashes: Seq<u64>, lock_ts: u64, commit_ts: u64, t: u64)
    ensures
        wake_all(Map::<(u64, u64), Waiter>::empty(), hashes, lock_ts, commit_ts, t) == Map::<(u64, u64), Waiter>::empty(),
        woken_all(Map::<(u64, u64), Waiter>::empty(), hashes, lock_ts, commit_ts, t) == Seq::<Waiter>::empty(),
    decreases hashes.len(),
{
    if hashes.len() > 0 {
        lemma_wake_all_empty(hashes.drop_last(), lock_ts, commit_ts, t);
    }
}

/// `a + b`, or `u64::MAX` where that does not fit.
pub open spec fn sat_add_u64(a: u64, b: u64) -> u64 {
    if a + b > u64::MAX {
        u64::MAX
    } else {
        (a + b) as u64
    }
}

/// The decisions of the wait manager over its table of waiters.
#[derive(Debug)]
pub struct WaiterManager {
    pub wait_table: WaitTable,
    /// The default, and the longest, time a waiter waits, in milliseconds.
    pub default_wait_for_lock_timeout: u64,
    /// How long waiters other than the oldest wait after a wake-up, in
    /// milliseconds.
    pub wake_up_delay_duration: u64,
}

impl WaiterManager {
    pub open spec fn wf(&self) -> bool {
        self.wait_table.wf()
    }

    pub fn new(default_wait_for_lock_timeout: u64, wake_up_delay_duration: u64) -> (r: WaiterManager)
        ensures
            r.wf(),
            r.wait_table@ == Map::<(u64, u64), Waiter>::empty(),
            r.default_wait_for_lock_timeout == default_wait_for_lock_timeout,
            r.wake_up_delay_duration == wake_up_delay_duration,
    {
        WaiterManager { wait_table: WaitTable::new(), default_wait_for_lock_timeout, wake_up_delay_duration }
    }

    /// The deadline of a waiter that starts waiting at `now`.
    pub fn normalize_deadline(&self, timeout: WaitTimeout, now: u64) -> (r: u64)
        ensures
            r == sat_add_u64(now, timeout.spec_duration(self.default_wait_for_lock_timeout)),
    {
        let d = timeout.into_duration_with_ceiling(self.default_wait_for_lock_timeout);
        if now > u64::MAX - d {
            u64::MAX
        } else {
            now + d
        }
    }

    /// Transaction `start_ts` starts waiting for `lock` at `now`, told
    /// `KeyIsLocked` until something else happens. Returns the waiter it
    /// replaces, to be notified at once.
    pub fn handle_wait_for(&mut self, start_ts: u64, lock: WaitLock, timeout: WaitTimeout, now: u64) -> (r:
        Option<Waiter>)
        requires
            old(self).wf(),
        ensures
            ({
                let w = Waiter {
                    start_ts,
                    lock,
                    deadline: sat_add_u64(now, timeout.spec_duration(old(self).default_wait_for_lock_timeout)),
                    result: WaitResult::KeyIsLocked,
                };
                &&& final(self).wf()
                &&& final(self).wait_table@ == old(self).wait_table@.insert((lock.hash, start_ts), w)
                &&& r == (if old(self).wait_table@.contains_key((lock.hash, start_ts)) {
                    Some(old(self).wait_table@[(lock.hash, start_ts)])
                } else {
                    None
                })
                &&& final(self).default_wait_for_lock_timeout == old(self).default_wait_for_lock_timeout
                &&& final(self).wake_up_delay_duration == old(self).wake_up_delay_duration
            }),
    {
        let deadline = self.normalize_deadline(timeout, now);
        let w = Waiter { start_ts, lock, deadline, result: WaitResult::KeyIsLocked };
        self.wait_table.add_waiter(w)
    }

    /// The release of the lock on `hash`, started at `lock_ts` and committed
    /// at `commit_ts`: the waiter with the smallest start timestamp on that
    /// hash is removed and returned, told of the conflict, to be notified at
    /// once; every other waiter on the hash is told of it too and its
    /// deadline moved to no later than `now` plus the wake-up delay.
    pub fn wake_up_one(&mut self, lock_ts: u64, hash: u64, commit_ts: u64, now: u64) -> (r: Option<
        Waiter,
    >)
        requires
            old(self).wf(),
        ensures
            final(self).wf(),
            final(self).default_wait_for_lock_timeout == old(self).default_wait_for_lock_timeout,
            final(self).wake_up_delay_duration == old(self).wake_up_delay_duration,
            final(self).wait_table@ == wake_one(
                old(self).wait_table@,
                hash,
                lock_ts,
                commit_ts,
                sat_add_u64(now, old(self).wake_up_delay_duration),
            ),
            r == woken(old(self).wait_table@, hash, lock_ts, commit_ts),
            r is None ==> final(self).wait_table@ == old(self).wait_table@ && forall|st: u64|
                !(#[trigger] old(self).wait_table@.contains_key((hash, st))),
            r is Some ==> {
                let st = r.unwrap().start_ts;
                let m = old(self).wait_table@;
                let t = sat_add_u64(now, old(self).wake_up_delay_duration);
                &&& is_oldest(m, hash, st)
                &&& r.unwrap() == conflicted(m[(hash, st)], lock_ts, commit_ts)
                &&& final(self).wait_table@.dom() == m.dom().remove((hash, st))
                &&& forall|p: (u64, u64)| #[trigger]
                    final(self).wait_table@.contains_key(p) ==> final(self).wait_table@[p] == (if p.0
                        == hash {
                        Waiter { deadline: earlier(m[p].deadline, t), ..conflicted(m[p], lock_ts, commit_ts) }
                    } else {
                        m[p]
                    })
            },
    {
        let lock = WaitLock { ts: lock_ts, hash };
        let ghost m = self.wait_table@;
        let ghost t = sat_add_u64(now, self.wake_up_delay_duration);
        match self.wait_table.remove_oldest_waiter(lock) {
            Some(oldest) => {
                let t = if now > u64::MAX - self.wake_up_delay_duration {
                    u64::MAX
                } else {
                    now + self.wake_up_delay_duration
                };
                self.wait_table.conflict_all(hash, lock_ts, commit_ts, t);
                proof {
                    let st = oldest.start_ts;
                    assert(exists|x: u64| is_oldest(m, hash, x));
                    let c = choose|x: u64| is_oldest(m, hash, x);
                    assert(c <= st && st <= c);
                    assert(self.wait_table@ =~= wake_one(m, hash, lock_ts, commit_ts, t));
                }
                Some(
                    Waiter {
                        start_ts: oldest.start_ts,
                        lock: oldest.lock,
                        deadline: oldest.deadline,
                        result: WaitResult::WriteConflict {
                            conflict_start_ts: lock_ts,
                            conflict_commit_ts: commit_ts,
                        },
                    },
                )
            },
            None => {
                proof {
                    assert(!exists|x: u64| is_oldest(m, hash, x));
                }
                None
            },
        }
    }

    /// The release of the lock started at `lock_ts`, committed at
    /// `commit_ts`, on each of `hashes` in turn, as
    /// [`WaiterManager::wake_up_one`] does. Returns the waiters to notify at
    /// once, one per hash that had waiters.
    pub fn handle_wake_up(&mut self, lock_ts: u64, hashes: &Vec<u64>, commit_ts: u64, now: u64) -> (r: Vec<
        Waiter,
    >)
        requires
            old(self).wf(),
        ensures
            final(self).wf(),
            final(self).wait_table@ == wake_all(
                old(self).wait_table@,
                hashes@,
                lock_ts,
                commit_ts,
                sat_add_u64(now, old(self).wake_up_delay_duration),
            ),
            r@ == woken_all(
                old(self).wait_table@,
                hashes@,
                lock_ts,
                commit_ts,
                sat_add_u64(now, old(self).wake_up_delay_duration),
            ),
            r@.len() <= hashes@.len(),
            forall|i: int| 0 <= i < r@.len() ==> hashes@.contains(#[trigger] r@[i].lock.hash),
            forall|i: int|
                0 <= i < r@.len() ==> (#[trigger] r@[i]).result == (WaitResult::WriteConflict {
                    conflict_start_ts: lock_ts,
                    conflict_commit_ts: commit_ts,
                }),
            final(self).default_wait_for_lock_timeout == old(self).default_wait_for_lock_timeout,
            final(self).wake_up_delay_duration == old(self).wake_up_delay_duration,
    {
        let mut r: Vec<Waiter> = Vec::new();
        let ghost m0 = self.wait_table@;
        let ghost t = sat_add_u64(now, self.wake_up_delay_duration);
        if self.wait_table.is_empty() {
            proof {
                lemma_wake_all_empty(hashes@, lock_ts, commit_ts, t);
            }
            return r;
        }
        let mut i: usize = 0;
        proof {
            assert(hashes@.subrange(0, 0) =~= Seq::<u64>::empty());
        }
        while i < hashes.len()
            invariant
                self.wf(),
                t == sat_add_u64(now, self.wake_up_delay_duration),
                self.wait_table@ == wake_all(m0, hashes@.subrange(0, i as int), lock_ts, commit_ts, t),
                r@ == woken_all(m0, hashes@.subrange(0, i as int), lock_ts, commit_ts, t),
                i <= hashes.len(),
                r@.len() <= i,
                forall|j: int| 0 <= j < r@.len() ==> hashes@.contains(#[trigger] r@[j].lock.hash),
                forall|j: int|
                    0 <= j < r@.len() ==> (#[trigger] r@[j]).result == (WaitResult::WriteConflict {
                        conflict_start_ts: lock_ts,
                        conflict_commit_ts: commit_ts,
                    }),
                self.default_wait_for_lock_timeout == old(self).default_wait_for_lock_timeout,
                self.wake_up_delay_duration == old(self).wake_up_delay_duration,
            decreases hashes.len() - i,
        {
            let ghost m = self.wait_table@;
            match self.wake_up_one(lock_ts, hashes[i], commit_ts, now) {
                Some(w) => {
                    proof {
                        assert(m.contains_key((hashes@[i as int], w.start_ts)));
                        assert(m[(hashes@[i as int], w.start_ts)].lock.hash == hashes@[i as int]) by {
                            let j = choose|j: int|
                                0 <= j < self.wait_table.waiters@.len() && slot(self.wait_table.waiters@[j]) == (
                                hashes@[i as int],
                                w.start_ts,
                            );
                        }
                        assert(hashes@.contains(w.lock.hash)) by {
                            assert(hashes@[i as int] == w.lock.hash);
                        }
                    }
                    r.push(w);
                },
                None => {},
            }
            proof {
                assert(hashes@.subrange(0, i + 1).drop_last() =~= hashes@.subrange(0, i as int));
                assert(hashes@.subrange(0, i + 1).last() == hashes@[i as int]);
            }
            i += 1;
        }
        proof {
            assert(hashes@.subrange(0, i as int) =~= hashes@);
        }
        r
    }

    /// Removes the waiter of transaction `waiter_ts` on `lock` and returns
    /// it told of the deadlock, to be notified at once.
    pub fn handle_deadlock(&mut self, waiter_ts: u64, lock: WaitLock, deadlock_key_hash: u64) -> (r: Option<
        Waiter,
    >)
        requires
            old(self).wf(),
        ensures
            final(self).wf(),
            final(self).wait_table@ == old(self).wait_table@.remove((lock.hash, waiter_ts)),
            r == (if old(self).wait_table@.contains_key((lock.hash, waiter_ts)) {
                Some(
                    Waiter {
                        result: WaitResult::Deadlock {
                            lock_ts: old(self).wait_table@[(lock.hash, waiter_ts)].lock.ts,
                            deadlock_key_hash,
                        },
                        ..old(self).wait_table@[(lock.hash, waiter_ts)]
                    },
                )
            } else {
                None
            }),
            final(self).default_wait_for_lock_timeout == old(self).default_wait_for_lock_timeout,
            final(self).wake_up_delay_duration == old(self).wake_up_delay_duration,
    {
        match self.wait_table.remove_waiter(lock, waiter_ts) {
            Some(w) => Some(
                Waiter {
                    start_ts: w.start_ts,
                    lock: w.lock,
                    deadline: w.deadline,
                    result: WaitResult::Deadlock { lock_ts: w.lock.ts, deadlock_key_hash },
                },
            ),
            None => None,
        }
    }

    /// Removes and returns every waiter whose deadline has come by `now`,
    /// each to be notified with the result it holds.
    pub fn handle_timeouts(&mut self, now: u64) -> (r: Vec<Waiter>)
        requires
            old(self).wf(),
        ensures
            final(self).wf(),
            forall|p: (u64, u64)| #[trigger]
                final(self).wait_table@.contains_key(p) <==> old(self).wait_table@.contains_key(p)
                    && old(self).wait_table@[p].deadline > now,
            forall|p: (u64, u64)| #[trigger]
                final(self).wait_table@.contains_key(p) ==> final(self).wait_table@[p] == old(
                    self,
                ).wait_table@[p],
            forall|i: int|
                0 <= i < r@.len() ==> old(self).wait_table@.contains_key(slot(#[trigger] r@[i]))
                    && old(self).wait_table@[slot(r@[i])] == r@[i] && r@[i].deadline <= now,
            forall|p: (u64, u64)| #[trigger]
                old(self).wait_table@.contains_key(p) && old(self).wait_table@[p].deadline <= now
                    ==> exists|i: int| 0 <= i < r@.len() && r@[i] == old(self).wait_table@[p],
            forall|i: int, j: int| 0 <= i < j < r@.len() ==> slot(#[trigger] r@[i]) != slot(#[trigger] r@[j]),
            final(self).default_wait_for_lock_timeout == old(self).default_wait_for_lock_timeout,
            final(self).wake_up_delay_duration == old(self).wake_up_delay_duration,
    {
        let ghost m = self.wait_table@;
        let mut r: Vec<Waiter> = Vec::new();
        let mut i: usize = 0;
        while i < self.wait_table.waiters.len()
            invariant
                self.wf(),
                i <= self.wait_table.waiters@.len(),
                forall|j: int| 0 <= j < i ==> (#[trigger] self.wait_table.waiters@[j]).deadline > now,
                forall|p: (u64, u64)| #[trigger]
                    self.wait_table@.contains_key(p) ==> m.contains_key(p) && self.wait_table@[p] == m[p],
                forall|p: (u64, u64)| #[trigger]
                    m.contains_key(p) && !self.wait_table@.contains_key(p) ==> m[p].deadline <= now
                        && exists|k: int| 0 <= k < r@.len() && r@[k] == m[p],
                forall|k: int|
                    0 <= k < r@.len() ==> m.contains_key(slot(#[trigger] r@[k])) && m[slot(r@[k])] == r@[k]
                        && r@[k].deadline <= now,
                forall|k: int| 0 <= k < r@.len() ==> !self.wait_table@.contains_key(slot(#[trigger] r@[k])),
                forall|a: int, b: int| 0 <= a < b < r@.len() ==> slot(#[trigger] r@[a]) != slot(#[trigger] r@[b]),
                self.default_wait_for_lock_timeout == old(self).default_wait_for_lock_timeout,
                self.wake_up_delay_duration == old(self).wake_up_delay_duration,
            decreases self.wait_table.waiters@.len() - i,
        {
            if self.wait_table.waiters[i].deadline <= now {
                let ghost before = self.wait_table@;
                let ghost rb = r@;
                proof {
                    self.wait_table.lemma_entry(i as int);
                }
                let w = self.wait_table.take(i);
                r.push(w);
                proof {
                    assert forall|p: (u64, u64)| #[trigger]
                        m.contains_key(p) && !self.wait_table@.contains_key(p) implies m[p].deadline <= now
                            && exists|k: int| 0 <= k < r@.len() && r@[k] == m[p] by {
                        if p == slot(w) {
                            assert(r@[rb.len() as int] == m[p]);
                        } else {
                            let k = choose|k: int| 0 <= k < rb.len() && rb[k] == m[p];
                            assert(r@[k] == m[p]);
                        }
                    }
                }
            } else {
                i += 1;
            }
        }
        proof {
            assert forall|p: (u64, u64)| #[trigger]
                m.contains_key(p) && m[p].deadline > now implies self.wait_table@.contains_key(p) by {
                if !self.wait_table@.contains_key(p) {
                }
            }
            assert forall|p: (u64, u64)| #[trigger]
                self.wait_table@.contains_key(p) implies self.wait_table@[p].deadline > now by {
                let j = choose|j: int|
                    0 <= j < self.wait_table.waiters@.len() && slot(self.wait_table.waiters@[j]) == p;
                self.wait_table.lemma_entry(j);
            }
        }
        r
    }

    /// The (waiting, blocking, hash) triples of all waiters.
    pub fn handle_dump(&self) -> (r: Vec<WaitForEntry>)
        ensures
            r@.len() == self.wait_table.waiters@.len(),
            forall|i: int|
                0 <= i < r@.len() ==> #[trigger] r@[i] == (WaitForEntry {
                    txn: self.wait_table.waiters@[i].start_ts,
                    wait_for_txn: self.wait_table.waiters@[i].lock.ts,
                    key_hash: self.wait_table.waiters@[i].lock.hash,
                }),
    {
        self.wait_table.to_wait_for_entries()
    }

    /// Changes the default timeout and the wake-up delay where given.
    pub fn handle_config_change(&mut self, timeout: Option<u64>, delay: Option<u64>)
        ensures
            final(self).wait_table@ == old(self).wait_table@,
            final(self).wait_table.waiters@ == old(self).wait_table.waiters@,
            final(self).default_wait_for_lock_timeout == (match timeout {
                Some(t) => t,
                None => old(self).default_wait_for_lock_timeout,
            }),
            final(self).wake_up_delay_duration == (match delay {
                Some(d) => d,
                None => old(self).wake_up_delay_duration,
            }),
    {
        if let Some(t) = timeout {
            self.default_wait_for_lock_timeout = t;
        }
        if let Some(d) = delay {
            self.wake_up_delay_duration = d;
        }
    }
}

} // verus!
