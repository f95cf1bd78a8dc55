//! Prewrite commands: phase one of two-phase commit over a batch of
//! mutations of one transaction.
use vstd::prelude::*;
use crate::errors::{LockInfo, MvccError};
use crate::store::{is_lock_info, modifies_view, Modify, ModifyView, Snapshot, SnapshotView};
use crate::table::bytes_eq;
use crate::txn::{async_ready, opt_secs, pessimistic_outcome, prewrite_outcome, MvccTxn, PrewriteOutcome};
use crate::types::{bytes_list, DaggerView, Mutation};

verus! {

/// What a batch of prewrites comes to: whether one failed with an error
/// other than `KeyIsLocked` (the batch stops there), the other
/// transactions' locks met (with key and reported time to live), the
/// largest async-commit timestamp returned, and the changes buffered.
pub struct BatchOutcome {
    pub failed: bool,
    pub locks: Seq<(DaggerView, Seq<u8>, u64)>,
    pub ts: u64,
    pub mods: Seq<ModifyView>,
}

/// The secondaries that the prewrite of `k` is handed.
pub open spec fn secs_for_spec(secs: Option<Seq<Seq<u8>>>, primary: Seq<u8>, k: Seq<u8>) -> Option<Seq<Seq<u8>>> {
    match secs {
        Some(v) => Some(
            if v.len() > 0 && k == primary {
                v
            } else {
                Seq::empty()
            },
        ),
        None => None,
    }
}

/// The batch after one more prewrite with outcome `o` on key `k`.
pub open spec fn batch_step(b: BatchOutcome, o: PrewriteOutcome, k: Seq<u8>, async_commit: bool) -> BatchOutcome {
    if b.failed {
        b
    } else {
        match o {
            PrewriteOutcome::Failed => BatchOutcome { failed: true, ..b },
            PrewriteOutcome::Locked(l, ttl) => BatchOutcome { locks: b.locks.push((l, k, ttl)), ..b },
            PrewriteOutcome::Done(ts, ms) => BatchOutcome {
                ts: if async_commit && b.ts < ts {
                    ts
                } else {
                    b.ts
                },
                mods: b.mods + ms,
                ..b
            },
        }
    }
}

/// The outcome of optimistic prewrites of `ms` in order.
pub open spec fn prewrite_batch(
    s: SnapshotView,
    st: u64,
    max_ts: u64,
    ms: Seq<Mutation>,
    primary: Seq<u8>,
    secs: Option<Seq<Seq<u8>>>,
    skip_constraint_check: bool,
    lock_ttl: u64,
    txn_size: u64,
    min_commit_ts: u64,
) -> BatchOutcome
    decreases ms.len(),
{
    if ms.len() == 0 {
        BatchOutcome { failed: false, locks: Seq::empty(), ts: 0, mods: Seq::empty() }
    } else {
        let m = ms.last();
        batch_step(
            prewrite_batch(s, st, max_ts, ms.drop_last(), primary, secs, skip_constraint_check, lock_ttl, txn_size, min_commit_ts),
            prewrite_outcome(
                s,
                st,
                max_ts,
                m,
                primary,
                secs_for_spec(secs, primary, m.key_view()),
                skip_constraint_check,
                lock_ttl,
                txn_size,
                min_commit_ts,
            ),
            m.key_view(),
            secs is Some,
        )
    }
}

/// The outcome of pessimistic prewrites of `ms` in order.
pub open spec fn pessimistic_batch(
    s: SnapshotView,
    st: u64,
    max_ts: u64,
    ms: Seq<(Mutation, bool)>,
    primary: Seq<u8>,
    secs: Option<Seq<Seq<u8>>>,
    lock_ttl: u64,
    for_update_ts: u64,
    txn_size: u64,
    min_commit_ts: u64,
    pipelined: bool,
) -> BatchOutcome
    decreases ms.len(),
{
    if ms.len() == 0 {
        BatchOutcome { failed: false, locks: Seq::empty(), ts: 0, mods: Seq::empty() }
    } else {
        let m = ms.last().0;
        batch_step(
            pessimistic_batch(s, st, max_ts, ms.drop_last(), primary, secs, lock_ttl, for_update_ts, txn_size, min_commit_ts, pipelined),
            pessimistic_outcome(
                s,
                st,
                max_ts,
                m,
                primary,
                secs_for_spec(secs, primary, m.key_view()),
                ms.last().1,
                lock_ttl,
                for_update_ts,
                txn_size,
                min_commit_ts,
                pipelined,
            ),
            m.key_view(),
            secs is Some,
        )
    }
}

/// Once a batch fails it stays failed.
proof fn lemma_prewrite_failed_stays(
    s: SnapshotView,
    st: u64,
    max_ts: u64,
    all: Seq<Mutation>,
    primary: Seq<u8>,
    secs: Option<Seq<Seq<u8>>>,
    skip_constraint_check: bool,
    lock_ttl: u64,
    txn_size: u64,
    min_commit_ts: u64,
    j: int,
    n: int,
)
    requires
        0 <= j <= n <= all.len(),
        prewrite_batch(s, st, max_ts, all.subrange(0, j), primary, secs, skip_constraint_check, lock_ttl, txn_size, min_commit_ts).failed,
    ensures
        prewrite_batch(s, st, max_ts, all.subrange(0, n), primary, secs, skip_constraint_check, lock_ttl, txn_size, min_commit_ts).failed,
    decreases n - j,
{
    if n > j {
        lemma_prewrite_failed_stays(s, st, max_ts, all, primary, secs, skip_constraint_check, lock_ttl, txn_size, min_commit_ts, j, n - 1);
        assert(all.subrange(0, n).drop_last() =~= all.subrange(0, n - 1));
    }
}

/// Once a batch fails it stays failed.
proof fn lemma_pessimistic_failed_stays(
    s: SnapshotView,
    st: u64,
    max_ts: u64,
    all: Seq<(Mutation, bool)>,
    primary: Seq<u8>,
    secs: Option<Seq<Seq<u8>>>,
    lock_ttl: u64,
    for_update_ts: u64,
    txn_size: u64,
    min_commit_ts: u64,
    pipelined: bool,
    j: int,
    n: int,
)
    requires
        0 <= j <= n <= all.len(),
        pessimistic_batch(s, st, max_ts, all.subrange(0, j), primary, secs, lock_ttl, for_update_ts, txn_size, min_commit_ts, pipelined).failed,
    ensures
        pessimistic_batch(s, st, max_ts, all.subrange(0, n), primary, secs, lock_ttl, for_update_ts, txn_size, min_commit_ts, pipelined).failed,
    decreases n - j,
{
    if n > j {
        lemma_pessimistic_failed_stays(s, st, max_ts, all, primary, secs, lock_ttl, for_update_ts, txn_size, min_commit_ts, pipelined, j, n - 1);
        assert(all.subrange(0, n).drop_last() =~= all.subrange(0, n - 1));
    }
}

/// The lock infos `infos` describe the locks `ls`.
pub open spec fn locks_match(infos: Seq<LockInfo>, ls: Seq<(DaggerView, Seq<u8>, u64)>) -> bool {
    &&& infos.len() == ls.len()
    &&& forall|i: int| 0 <= i < infos.len() ==> is_lock_info(#[trigger] infos[i], ls[i].0, ls[i].1, ls[i].2)
}

/// `r` is what batch `b` returns: with locks met, those locks and no
/// changes; otherwise the changes.
pub open spec fn batch_result(r: PrewriteResult, b: BatchOutcome) -> bool {
    &&& locks_match(r.locks@, b.locks)
    &&& r.min_commit_ts == b.ts
    &&& b.locks.len() > 0 ==> r.modifies@.len() == 0 && r.guards@.len() == 0
    &&& b.locks.len() == 0 ==> modifies_view(r.modifies@) == b.mods
}

/// The outcome of a prewrite command.
#[derive(Debug)]
pub struct PrewriteResult {
    /// The locks of other transactions that blocked some keys; when there
    /// are any, nothing is written.
    pub locks: Vec<LockInfo>,
    /// The largest min-commit timestamp of the async-commit locks written,
    /// or zero.
    pub min_commit_ts: u64,
    /// The changes to write.
    pub modifies: Vec<Modify>,
    /// Keys of async-commit locks whose in-memory guard is held until the
    /// changes are durable.
    pub guards: Vec<Vec<u8>>,
}

/// An optimistic prewrite of a batch of mutations.
#[derive(Debug)]
pub struct Prewrite {
    pub mutations: Vec<Mutation>,
    pub primary: Vec<u8>,
    pub start_ts: u64,
    pub lock_ttl: u64,
    pub skip_constraint_check: bool,
    pub txn_size: u64,
    pub min_commit_ts: u64,
    /// All secondary keys of an async-commit transaction.
    pub secondary_keys: Option<Vec<Vec<u8>>>,
}

/// A pessimistic prewrite of a batch of mutations, each marked with whether
/// its key was locked pessimistically.
#[derive(Debug)]
pub struct PrewritePessimistic {
    pub mutations: Vec<(Mutation, bool)>,
    pub primary: Vec<u8>,
    pub start_ts: u64,
    pub lock_ttl: u64,
    pub for_update_ts: u64,
    pub txn_size: u64,
    pub min_commit_ts: u64,
    pub secondary_keys: Option<Vec<Vec<u8>>>,
}

/// The secondaries handed to the prewrite of `key`: all of them for the
/// primary, an empty list for other keys, none without async commit.
fn secondaries_for(
    secondary_keys: &Option<Vec<Vec<u8>>>,
    primary: &Vec<u8>,
    key: &Vec<u8>,
) -> (r: Option<Vec<Vec<u8>>>)
    ensures
        r is Some <==> secondary_keys is Some,
        r is Some ==> bytes_list(r.unwrap()@) == (if secondary_keys.unwrap()@.len() > 0 && key@
            == primary@ {
            bytes_list(secondary_keys.unwrap()@)
        } else {
            Seq::<Seq<u8>>::empty()
        }),
{
    match secondary_keys {
        Some(secs) => {
            if secs.len() > 0 && bytes_eq(key, primary) {
                Some(crate::types::copy_byte_lists(secs))
            } else {
                let r: Vec<Vec<u8>> = Vec::new();
                assert(bytes_list(r@) =~= Seq::<Seq<u8>>::empty());
                Some(r)
            }
        },
        None => None,
    }
}

/// The key of a mutation.
fn mutation_key(m: &Mutation) -> (r: Vec<u8>)
    ensures
        r@ == m.key_view(),
{
    match m {
        Mutation::Put { key, .. } => key.clone(),
        Mutation::Delete { key } => key.clone(),
        Mutation::Dagger { key } => key.clone(),
        Mutation::Insert { key, .. } => key.clone(),
        Mutation::CheckNotExists { key } => key.clone(),
    }
}

impl Prewrite {
    /// A prewrite with defaults but for the time to live of its locks.
    pub fn with_lock_ttl(mutations: Vec<Mutation>, primary: Vec<u8>, start_ts: u64, lock_ttl: u64) -> (r: Prewrite)
        ensures
            r.mutations == mutations,
            r.primary == primary,
            r.start_ts == start_ts,
            r.lock_ttl == lock_ttl,
            !r.skip_constraint_check,
            r.txn_size == 0,
            r.min_commit_ts == 0,
            r.secondary_keys is None,
    {
        Prewrite {
            mutations,
            primary,
            start_ts,
            lock_ttl,
            skip_constraint_check: false,
            txn_size: 0,
            min_commit_ts: 0,
            secondary_keys: None,
        }
    }

    /// A prewrite with no time to live, constraint checks on, and no async
    /// commit.
    pub fn with_defaults(mutations: Vec<Mutation>, primary: Vec<u8>, start_ts: u64) -> (r: Prewrite)
        ensures
            r.mutations == mutations,
            r.primary == primary,
            r.start_ts == start_ts,
            r.lock_ttl == 0,
            !r.skip_constraint_check,
            r.txn_size == 0,
            r.min_commit_ts == 0,
            r.secondary_keys is None,
    {
        Prewrite {
            mutations,
            primary,
            start_ts,
            lock_ttl: 0,
            skip_constraint_check: false,
            txn_size: 0,
            min_commit_ts: 0,
            secondary_keys: None,
        }
    }

    /// Prewrites every mutation against `snapshot`, as
    /// [`MvccTxn::prewrite`] does, in order. Keys locked by other
    /// transactions are collected and then nothing is written; any other
    /// error stops the command. Async commit is used only where enabled, and
    /// requires the largest read timestamp `max_ts` to be in sync.
    pub fn process_write(self, snapshot: &Snapshot, max_ts: u64, max_ts_synced: bool, enable_async_commit: bool) -> (r:
        Result<PrewriteResult, MvccError>)
        requires
            snapshot.wf(),
            enable_async_commit && self.secondary_keys is Some ==> async_ready(max_ts, self.start_ts, 0),
        ensures
            ({
                let secs = if enable_async_commit {
                    opt_secs(self.secondary_keys)
                } else {
                    None
                };
                let b = prewrite_batch(
                    snapshot@,
                    self.start_ts,
                    max_ts,
                    self.mutations@,
                    self.primary@,
                    secs,
                    self.skip_constraint_check,
                    self.lock_ttl,
                    self.txn_size,
                    self.min_commit_ts,
                );
                &&& secs is Some && !max_ts_synced ==> (r matches Err(
                    MvccError::MaxTimestampNotSynced { start_ts },
                ) && start_ts == self.start_ts)
                &&& !(secs is Some && !max_ts_synced) ==> (r is Err <==> b.failed)
                &&& r is Err ==> !(r.unwrap_err() is KeyIsLocked)
                &&& r is Ok ==> batch_result(r.unwrap(), b)
                &&& r is Ok && secs is None ==> r.unwrap().guards@.len() == 0
            }),
    {
        let secondary_keys = if enable_async_commit {
            self.secondary_keys
        } else {
            None
        };
        if secondary_keys.is_some() && !max_ts_synced {
            return Err(MvccError::MaxTimestampNotSynced { start_ts: self.start_ts });
        }
        let ghost secs = opt_secs(secondary_keys);
        let ghost all = self.mutations@;
        assert(all.len() <= usize::MAX) by {
            assert(self.mutations@.len() == self.mutations.len());
        }
        let mut txn = MvccTxn::new(self.start_ts, max_ts);
        let mut locks: Vec<LockInfo> = Vec::new();
        let mut async_commit_ts: u64 = 0;
        let mut mutations = self.mutations;
        let mut done: usize = 0;
        proof {
            assert(all.subrange(0, 0) =~= Seq::<Mutation>::empty());
        }
        while mutations.len() > 0
            invariant
                txn.start_ts == self.start_ts,
                txn.max_ts == max_ts,
                snapshot.wf(),
                secondary_keys is Some ==> async_ready(max_ts, self.start_ts, 0),
                secondary_keys is None ==> txn.guards@.len() == 0,
                secs == opt_secs(secondary_keys),
                secondary_keys is Some ==> max_ts_synced,
                secs == (if enable_async_commit { opt_secs(self.secondary_keys) } else { None }),
                done + mutations@.len() == all.len(),
                all == self.mutations@,
                all.len() <= usize::MAX,
                mutations@ == all.subrange(done as int, all.len() as int),
                ({
                    let b = prewrite_batch(
                        snapshot@,
                        self.start_ts,
                        max_ts,
                        all.subrange(0, done as int),
                        self.primary@,
                        secs,
                        self.skip_constraint_check,
                        self.lock_ttl,
                        self.txn_size,
                        self.min_commit_ts,
                    );
                    &&& !b.failed
                    &&& locks_match(locks@, b.locks)
                    &&& async_commit_ts == b.ts
                    &&& txn.mods() == b.mods
                }),
            decreases mutations@.len(),
        {
            let m = mutations.remove(0);
            let ghost prefix = all.subrange(0, done as int);
            let ghost b0 = prewrite_batch(
                snapshot@,
                self.start_ts,
                max_ts,
                prefix,
                self.primary@,
                secs,
                self.skip_constraint_check,
                self.lock_ttl,
                self.txn_size,
                self.min_commit_ts,
            );
            proof {
                assert(m == all[done as int]);
                assert(mutations@ =~= all.subrange(done + 1, all.len() as int));
                assert(all.subrange(0, done + 1).drop_last() =~= prefix);
                assert(all.subrange(0, done + 1).last() == m);
            }
            let key = mutation_key(&m);
            let secondaries = secondaries_for(&secondary_keys, &self.primary, &key);
            let ghost before = txn;
            let ghost o = prewrite_outcome(
                snapshot@,
                self.start_ts,
                max_ts,
                m,
                self.primary@,
                secs_for_spec(secs, self.primary@, key@),
                self.skip_constraint_check,
                self.lock_ttl,
                self.txn_size,
                self.min_commit_ts,
            );
            proof {
                assert(opt_secs(secondaries) == secs_for_spec(secs, self.primary@, key@));
            }
            match txn.prewrite(
                snapshot,
                m,
                &self.primary,
                &secondaries,
                self.skip_constraint_check,
                self.lock_ttl,
                self.txn_size,
                self.min_commit_ts,
            ) {
                Ok(ts) => {
                    if secondaries.is_some() && async_commit_ts < ts {
                        async_commit_ts = ts;
                    }
                },
                Err(MvccError::KeyIsLocked(info)) => {
                    locks.push(info);
                },
                Err(e) => {
                    proof {
                        assert(o is Failed);
                        assert(m.key_view() == key@);
                        assert(prewrite_batch(
                            snapshot@,
                            self.start_ts,
                            max_ts,
                            all.subrange(0, done + 1),
                            self.primary@,
                            secs,
                            self.skip_constraint_check,
                            self.lock_ttl,
                            self.txn_size,
                            self.min_commit_ts,
                        ).failed);
                        lemma_prewrite_failed_stays(
                            snapshot@,
                            self.start_ts,
                            max_ts,
                            all,
                            self.primary@,
                            secs,
                            self.skip_constraint_check,
                            self.lock_ttl,
                            self.txn_size,
                            self.min_commit_ts,
                            done + 1,
                            all.len() as int,
                        );
                        assert(all.subrange(0, all.len() as int) =~= all);
                    }
                    return Err(e);
                },
            }
            proof {
                if secondary_keys is None {
                    assert(bytes_list(txn.guards@).len() == txn.guards@.len());
                    assert(bytes_list(before.guards@).len() == before.guards@.len());
                }
                match o {
                    PrewriteOutcome::Done(ts, ms) => {
                        assert(txn.mods() == b0.mods + ms);
                    },
                    PrewriteOutcome::Locked(l, ttl) => {
                        assert(txn.mods() =~= b0.mods);
                        assert(locks@ =~= locks@.subrange(0, locks@.len() - 1).push(locks@[locks@.len() - 1]));
                    },
                    PrewriteOutcome::Failed => {},
                }
            }
            done += 1;
        }
        proof {
            assert(all.subrange(0, done as int) =~= all);
        }
        if locks.len() > 0 {
            return Ok(PrewriteResult { locks, min_commit_ts: async_commit_ts, modifies: Vec::new(), guards: Vec::new() });
        }
        let guards = txn.take_guards();
        let modifies = txn.into_modifies();
        Ok(PrewriteResult { locks, min_commit_ts: async_commit_ts, modifies, guards })
    }
}

impl PrewritePessimistic {
    /// Prewrites every mutation of a pessimistic transaction against
    /// `snapshot`, as [`MvccTxn::pessimistic_prewrite`] does, in order, and
    /// otherwise as [`Prewrite::process_write`] does; `pipelined` says
    /// whether pessimistic locks may be missing because their write was
    /// pipelined.
    pub fn process_write(self, snapshot: &Snapshot, max_ts: u64, max_ts_synced: bool, enable_async_commit: bool, pipelined: bool) -> (r:
        Result<PrewriteResult, MvccError>)
        requires
            snapshot.wf(),
            enable_async_commit && self.secondary_keys is Some ==> async_ready(max_ts, self.start_ts, self.for_update_ts),
        ensures
            ({
                let secs = if enable_async_commit {
                    opt_secs(self.secondary_keys)
                } else {
                    None
                };
                let b = pessimistic_batch(
                    snapshot@,
                    self.start_ts,
                    max_ts,
                    self.mutations@,
                    self.primary@,
                    secs,
                    self.lock_ttl,
                    self.for_update_ts,
                    self.txn_size,
                    self.min_commit_ts,
                    pipelined,
                );
                &&& secs is Some && !max_ts_synced ==> (r matches Err(
                    MvccError::MaxTimestampNotSynced { start_ts },
                ) && start_ts == self.start_ts)
                &&& !(secs is Some && !max_ts_synced) ==> (r is Err <==> b.failed)
                &&& r is Err ==> !(r.unwrap_err() is KeyIsLocked)
                &&& r is Ok ==> batch_result(r.unwrap(), b)
                &&& r is Ok && secs is None ==> r.unwrap().guards@.len() == 0
            }),
    {
        let secondary_keys = if enable_async_commit {
            self.secondary_keys
        } else {
            None
        };
        if secondary_keys.is_some() && !max_ts_synced {
            return Err(MvccError::MaxTimestampNotSynced { start_ts: self.start_ts });
        }
        let ghost secs = opt_secs(secondary_keys);
        let ghost all = self.mutations@;
        assert(all.len() <= usize::MAX) by {
            assert(self.mutations@.len() == self.mutations.len());
        }
        let mut txn = MvccTxn::new(self.start_ts, max_ts);
        let mut locks: Vec<LockInfo> = Vec::new();
        let mut async_commit_ts: u64 = 0;
        let mut mutations = self.mutations;
        let mut done: usize = 0;
        proof {
            assert(all.subrange(0, 0) =~= Seq::<(Mutation, bool)>::empty());
        }
        while mutations.len() > 0
            invariant
                txn.start_ts == self.start_ts,
                txn.max_ts == max_ts,
                snapshot.wf(),
                secondary_keys is Some ==> async_ready(max_ts, self.start_ts, self.for_update_ts),
                secondary_keys is None ==> txn.guards@.len() == 0,
                secs == opt_secs(secondary_keys),
                secondary_keys is Some ==> max_ts_synced,
                secs == (if enable_async_commit { opt_secs(self.secondary_keys) } else { None }),
                done + mutations@.len() == all.len(),
                all == self.mutations@,
                all.len() <= usize::MAX,
                mutations@ == all.subrange(done as int, all.len() as int),
                ({
                    let b = pessimistic_batch(
                        snapshot@,
                        self.start_ts,
                        max_ts,
                        all.subrange(0, done as int),
                        self.primary@,
                        secs,
                        self.lock_ttl,
                        self.for_update_ts,
                        self.txn_size,
                        self.min_commit_ts,
                        pipelined,
                    );
                    &&& !b.failed
                    &&& locks_match(locks@, b.locks)
                    &&& async_commit_ts == b.ts
                    &&& txn.mods() == b.mods
                }),
            decreases mutations@.len(),
        {
            let (m, is_pessimistic_lock) = mutations.remove(0);
            let ghost prefix = all.subrange(0, done as int);
            let ghost b0 = pessimistic_batch(
                snapshot@,
                self.start_ts,
                max_ts,
                prefix,
                self.primary@,
                secs,
                self.lock_ttl,
                self.for_update_ts,
                self.txn_size,
                self.min_commit_ts,
                pipelined,
            );
            proof {
                assert((m, is_pessimistic_lock) == all[done as int]);
                assert(mutations@ =~= all.subrange(done + 1, all.len() as int));
                assert(all.subrange(0, done + 1).drop_last() =~= prefix);
                assert(all.subrange(0, done + 1).last() == (m, is_pessimistic_lock));
            }
            let key = mutation_key(&m);
            let secondaries = secondaries_for(&secondary_keys, &self.primary, &key);
            let ghost before = txn;
            let ghost o = pessimistic_outcome(
                snapshot@,
                self.start_ts,
                max_ts,
                m,
                self.primary@,
                secs_for_spec(secs, self.primary@, key@),
                is_pessimistic_lock,
                self.lock_ttl,
                self.for_update_ts,
                self.txn_size,
                self.min_commit_ts,
                pipelined,
            );
            proof {
                assert(opt_secs(secondaries) == secs_for_spec(secs, self.primary@, key@));
            }
            match txn.pessimistic_prewrite(
                snapshot,
                m,
                &self.primary,
                &secondaries,
                is_pessimistic_lock,
                self.lock_ttl,
                self.for_update_ts,
                self.txn_size,
                self.min_commit_ts,
                pipelined,
            ) {
                Ok(ts) => {
                    if secondaries.is_some() && async_commit_ts < ts {
                        async_commit_ts = ts;
                    }
                },
                Err(MvccError::KeyIsLocked(info)) => {
                    locks.push(info);
                },
                Err(e) => {
                    proof {
                        assert(o is Failed);
                        assert(m.key_view() == key@);
                        assert(pessimistic_batch(
                            snapshot@,
                            self.start_ts,
                            max_ts,
                            all.subrange(0, done + 1),
                            self.primary@,
                            secs,
                            self.lock_ttl,
                            self.for_update_ts,
                            self.txn_size,
                            self.min_commit_ts,
                            pipelined,
                        ).failed);
                        lemma_pessimistic_failed_stays(
                            snapshot@,
                            self.start_ts,
                            max_ts,
                            all,
                            self.primary@,
                            secs,
                            self.lock_ttl,
                            self.for_update_ts,
                            self.txn_size,
                            self.min_commit_ts,
                            pipelined,
                            done + 1,
                            all.len() as int,
                        );
                        assert(all.subrange(0, all.len() as int) =~= all);
                    }
                    return Err(e);
                },
            }
            proof {
                if secondary_keys is None {
                    assert(bytes_list(txn.guards@).len() == txn.guards@.len());
                    assert(bytes_list(before.guards@).len() == before.guards@.len());
                }
                match o {
                    PrewriteOutcome::Done(ts, ms) => {
                        assert(txn.mods() == b0.mods + ms);
                    },
                    PrewriteOutcome::Locked(l, ttl) => {
                        assert(txn.mods() =~= b0.mods);
                        assert(locks@ =~= locks@.subrange(0, locks@.len() - 1).push(locks@[locks@.len() - 1]));
                    },
                    PrewriteOutcome::Failed => {},
                }
            }
            done += 1;
        }
        proof {
            assert(all.subrange(0, done as int) =~= all);
        }
        if locks.len() > 0 {
            return Ok(PrewriteResult { locks, min_commit_ts: async_commit_ts, modifies: Vec::new(), guards: Vec::new() });
        }
        let guards = txn.take_guards();
        let modifies = txn.into_modifies();
        Ok(PrewriteResult { locks, min_commit_ts: async_commit_ts, modifies, guards })
    }
}

} // verus!
