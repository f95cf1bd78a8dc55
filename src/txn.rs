//! The transaction write path: prewrite, pessimistic locking, commit,
//! rollback, cleanup and garbage collection. Each operation reads a snapshot
//! and appends the changes it decides on to a buffer; nothing reaches the
//! store until the caller writes the buffer.
use vstd::prelude::*;
use crate::errors::MvccError;
use crate::store::{
    apply_modifies, apply_modify, exists_at, is_lock_info, lemma_newest_unique, lemma_no_newest,
    lemma_none_selected, lock_info, modifies_view, newest, newest_commit, none_selected,
    read_spec, record_spec, selected, value_of_spec, Modify, ModifyView, Pick, Snapshot,
    SnapshotView, TxnCommitRecord, LOCK_TS,
};
use crate::table::{bytes_eq, Entry};
use crate::types::{
    bytes_list, copy_byte_lists, opt_bytes, opt_view, rollback_view, Dagger, DaggerView, LockType, Mutation,
    Write, WriteType, WriteView, SHORT_VALUE_MAX_LEN,
};

verus! {

/// The buffered write size at which garbage collection stops and reports
/// that it has not finished.
pub const MAX_TXN_WRITE_SIZE: usize = 32 * 1024;

/// Bytes that a lock record adds to the buffered size besides its primary
/// key and short value.
pub const LOCK_RECORD_OVERHEAD: usize = 32;

/// Bytes that a write record adds besides its short value.
pub const WRITE_RECORD_OVERHEAD: usize = 10;

/// Bytes of an encoded timestamp.
pub const TS_SIZE: usize = 8;

/// What one garbage collection pass over a key did.
#[derive(Debug, Clone, Copy, PartialEq, Eq, Structural)]
pub struct GcInfo {
    pub found_versions: usize,
    pub deleted_versions: usize,
    pub is_completed: bool,
}

/// Identifies a lock that an operation released, so that the transactions
/// waiting for it can be woken.
#[derive(Debug, PartialEq, Eq, Structural)]
pub struct ReleasedLock {
    /// The hash of the lock's key.
    pub hash: u64,
    /// Whether it was a pessimistic transaction's lock.
    pub pessimistic: bool,
}

/// What to do when the lock that a status check looks for is missing.
#[derive(Debug, Clone, Copy, PartialEq, Eq, Structural)]
pub enum MissingLockAction {
    Rollback,
    ProtectedRollback,
    ReturnError,
}

/// The outcome of a transaction as a status check finds it.
#[derive(Debug, Clone, Copy, PartialEq, Eq, Structural)]
pub enum TxnStatus {
    RolledBack,
    Committed { commit_ts: u64 },
    LockNotExist,
}

pub const FNV_OFFSET: u64 = 0xcbf29ce484222325;

pub const FNV_PRIME: u64 = 0x100000001b3;

/// The 64-bit FNV-1a hash of the first `n` bytes of `k`.
pub open spec fn key_hash_spec(k: Seq<u8>, n: nat) -> u64
    decreases n,
{
    if n == 0 || n > k.len() {
        FNV_OFFSET
    } else {
        vstd::wrapping::u64_specs::wrapping_mul(key_hash_spec(k, (n - 1) as nat) ^ (k[n - 1] as u64), FNV_PRIME)
    }
}

/// The hash that identifies the lock on `k` in the wait table.
pub open spec fn lock_hash(k: Seq<u8>) -> u64 {
    key_hash_spec(k, k.len())
}

/// The hash that identifies the lock on `key` in the wait table.
pub fn gen_hash(key: &Vec<u8>) -> (r: u64)
    ensures
        r == lock_hash(key@),
{
    let mut h: u64 = FNV_OFFSET;
    let mut i: usize = 0;
    while i < key.len()
        invariant
            i <= key.len(),
            h == key_hash_spec(key@, i as nat),
        decreases key.len() - i,
    {
        h = (h ^ (key[i] as u64)).wrapping_mul(FNV_PRIME);
        i += 1;
    }
    h
}

impl ReleasedLock {
    pub fn new(key: &Vec<u8>, pessimistic: bool) -> (r: ReleasedLock)
        ensures
            r.hash == lock_hash(key@),
            r.pessimistic == pessimistic,
    {
        ReleasedLock { hash: gen_hash(key), pessimistic }
    }
}

impl MissingLockAction {
    /// The action of a cleanup: a rollback, protected if asked.
    pub fn rollback_protect(protect_rollback: bool) -> (r: MissingLockAction)
        ensures
            r == (if protect_rollback {
                MissingLockAction::ProtectedRollback
            } else {
                MissingLockAction::Rollback
            }),
    {
        if protect_rollback {
            MissingLockAction::ProtectedRollback
        } else {
            MissingLockAction::Rollback
        }
    }

    /// The action of a status check: a protected rollback, or an error.
    pub fn rollback(rollback_if_not_exist: bool) -> (r: MissingLockAction)
        ensures
            r == (if rollback_if_not_exist {
                MissingLockAction::ProtectedRollback
            } else {
                MissingLockAction::ReturnError
            }),
    {
        if rollback_if_not_exist {
            MissingLockAction::ProtectedRollback
        } else {
            MissingLockAction::ReturnError
        }
    }
}

/// The record that rolling back the transaction started at `start_ts` writes:
/// with another transaction's record at `start_ts`, that record marked, or
/// nothing where the rollback need not be protected.
pub open spec fn make_rollback_spec(
    start_ts: u64,
    protected: bool,
    overlapped: Option<WriteView>,
) -> Option<WriteView> {
    match overlapped {
        Some(w) => if protected {
            Some(WriteView { has_overlapped_rollback: true, ..w })
        } else {
            None
        },
        None => Some(rollback_view(start_ts, protected)),
    }
}

/// The record that rolling back the transaction started at `start_ts` writes.
pub fn make_rollback(start_ts: u64, protected: bool, overlapped_write: Option<Write>) -> (r: Option<
    Write,
>)
    ensures
        (opt_view(r)) == make_rollback_spec(
            start_ts,
            protected,
            opt_view(overlapped_write),
        ),
{
    match overlapped_write {
        Some(write) => {
            if protected {
                Some(
                    Write {
                        write_type: write.write_type,
                        start_ts: write.start_ts,
                        short_value: write.short_value,
                        has_overlapped_rollback: true,
                    },
                )
            } else {
                None
            }
        },
        None => Some(Write::new_rollback(start_ts, protected)),
    }
}

/// The length of an optional byte string.
pub open spec fn opt_len(o: Option<Seq<u8>>) -> nat {
    match o {
        Some(v) => v.len(),
        None => 0,
    }
}

/// The bytes that a change adds to the buffered size.
pub open spec fn modify_size(m: ModifyView) -> int {
    match m {
        ModifyView::PutLock { key, lock } => key.len() + lock.primary.len() + opt_len(
            lock.short_value,
        ) + LOCK_RECORD_OVERHEAD,
        ModifyView::DeleteLock { key } => key.len() as int,
        ModifyView::PutWrite { key, write, .. } => key.len() + TS_SIZE + opt_len(write.short_value)
            + WRITE_RECORD_OVERHEAD,
        ModifyView::DeleteWrite { key, .. } => key.len() + TS_SIZE,
        ModifyView::PutValue { key, value, .. } => key.len() + TS_SIZE + value.len(),
        ModifyView::DeleteValue { key, .. } => key.len() + TS_SIZE,
    }
}

/// `a + b`, or `usize::MAX` where that does not fit.
pub open spec fn sat_add(a: usize, b: int) -> usize {
    if a + b > usize::MAX {
        usize::MAX
    } else {
        (a + b) as usize
    }
}

/// The buffered size after appending `ms`.
pub open spec fn size_after(size: usize, ms: Seq<ModifyView>) -> usize
    decreases ms.len(),
{
    if ms.len() == 0 {
        size
    } else {
        sat_add(size_after(size, ms.drop_last()), modify_size(ms.last()))
    }
}

fn add_size(a: usize, b: usize) -> (r: usize)
    ensures
        r == sat_add(a, b as int),
{
    if a > usize::MAX - b {
        usize::MAX
    } else {
        a + b
    }
}

/// The bytes that a change adds to the buffered size.
pub fn size_of(m: &Modify) -> (r: usize)
    ensures
        r == sat_add(0, modify_size(m@)),
{
    let opt = |o: &Option<Vec<u8>>| -> (n: usize)
        ensures
            n == opt_len(opt_bytes(*o)),
        {
            match o {
                Some(v) => v.len(),
                None => 0,
            }
        };
    match m {
        Modify::PutLock { key, lock } => {
            let a = add_size(key.len(), lock.primary.len());
            let b = add_size(a, opt(&lock.short_value));
            add_size(b, LOCK_RECORD_OVERHEAD)
        },
        Modify::DeleteLock { key } => key.len(),
        Modify::PutWrite { key, write, .. } => {
            let a = add_size(key.len(), TS_SIZE);
            let b = add_size(a, opt(&write.short_value));
            add_size(b, WRITE_RECORD_OVERHEAD)
        },
        Modify::DeleteWrite { key, .. } => add_size(key.len(), TS_SIZE),
        Modify::PutValue { key, value, .. } => {
            let a = add_size(key.len(), TS_SIZE);
            add_size(a, value.len())
        },
        Modify::DeleteValue { key, .. } => add_size(key.len(), TS_SIZE),
    }
}

/// The buffer of changes that one transaction's operations produce.
#[derive(Debug)]
pub struct MvccTxn {
    pub start_ts: u64,
    pub write_size: usize,
    pub modifies: Vec<Modify>,
    /// Whether a rollback deletes the older, unprotected rollback record of
    /// the same key.
    pub collapse_rollback: bool,
    /// The largest timestamp that any reader has used, as the concurrency
    /// manager reports it. For async commit the caller first takes the
    /// in-memory guards of the keys it will prewrite, then reads this value
    /// and builds the transaction, and holds the guards until the changes
    /// are durable: no reader can then use a larger timestamp on those keys
    /// before their locks are visible.
    pub max_ts: u64,
    /// Keys of async-commit locks whose in-memory guard the caller holds
    /// until the buffer is durable.
    pub guards: Vec<Vec<u8>>,
}

impl MvccTxn {
    /// The changes buffered so far.
    pub open spec fn mods(&self) -> Seq<ModifyView> {
        modifies_view(self.modifies@)
    }

    /// `self` is `old` with `ms` appended, its guards aside.
    pub open spec fn appended_core(self, old: MvccTxn, ms: Seq<ModifyView>) -> bool {
        &&& self.mods() == old.mods() + ms
        &&& self.write_size == size_after(old.write_size, ms)
        &&& self.start_ts == old.start_ts
        &&& self.collapse_rollback == old.collapse_rollback
        &&& self.max_ts == old.max_ts
    }

    /// `self` is `old` with `ms` appended and nothing else changed.
    pub open spec fn appended(self, old: MvccTxn, ms: Seq<ModifyView>) -> bool {
        &&& self.appended_core(old, ms)
        &&& self.guards@ == old.guards@
    }

    /// A transaction started at `start_ts`. `max_ts` must be read while the
    /// guards of the async-commit keys are held (see the field).
    pub fn new(start_ts: u64, max_ts: u64) -> (r: MvccTxn)
        ensures
            r.start_ts == start_ts,
            r.max_ts == max_ts,
            r.write_size == 0,
            r.mods() == Seq::<ModifyView>::empty(),
            r.collapse_rollback,
            r.guards@ == Seq::<Vec<u8>>::empty(),
    {
        let r = MvccTxn {
            start_ts,
            write_size: 0,
            modifies: Vec::new(),
            collapse_rollback: true,
            max_ts,
            guards: Vec::new(),
        };
        assert(r.mods() =~= Seq::<ModifyView>::empty());
        r
    }

    pub fn collapse_rollback(&mut self, collapse: bool)
        ensures
            final(self).collapse_rollback == collapse,
            final(self).start_ts == old(self).start_ts,
            final(self).mods() == old(self).mods(),
            final(self).write_size == old(self).write_size,
    {
        self.collapse_rollback = collapse;
    }

    pub fn set_spacelike_ts(&mut self, start_ts: u64)
        ensures
            final(self).start_ts == start_ts,
            final(self).mods() == old(self).mods(),
            final(self).write_size == old(self).write_size,
    {
        self.start_ts = start_ts;
    }

    pub fn into_modifies(self) -> (r: Vec<Modify>)
        ensures
            modifies_view(r@) == self.mods(),
    {
        self.modifies
    }

    pub fn write_size(&self) -> (r: usize)
        ensures
            r == self.write_size,
    {
        self.write_size
    }

    pub fn take_guards(&mut self) -> (r: Vec<Vec<u8>>)
        ensures
            r@ == old(self).guards@,
            final(self).guards@.len() == 0,
            final(self).mods() == old(self).mods(),
    {
        let mut r: Vec<Vec<u8>> = Vec::new();
        std::mem::swap(&mut r, &mut self.guards);
        r
    }

    fn push(&mut self, m: Modify)
        ensures
            final(self).appended(*old(self), seq![m@]),
    {
        let ghost mv = m@;
        let sz = size_of(&m);
        self.write_size = add_size(self.write_size, sz);
        self.modifies.push(m);
        proof {
            assert(self.mods() =~= old(self).mods() + seq![mv]);
            assert(seq![mv].drop_last() =~= Seq::<ModifyView>::empty());
            assert(size_after(old(self).write_size, Seq::<ModifyView>::empty()) == old(self).write_size);
            assert(seq![mv].last() == mv);
        }
    }

    pub fn put_lock(&mut self, key: Vec<u8>, lock: Dagger)
        ensures
            final(self).appended(*old(self), seq![ModifyView::PutLock { key: key@, lock: lock@ }]),
    {
        self.push(Modify::PutLock { key, lock });
    }

    pub fn unlock_key(&mut self, key: Vec<u8>, pessimistic: bool) -> (r: ReleasedLock)
        ensures
            final(self).appended(*old(self), seq![ModifyView::DeleteLock { key: key@ }]),
            r.hash == lock_hash(key@),
            r.pessimistic == pessimistic,
    {
        let released = ReleasedLock::new(&key, pessimistic);
        self.push(Modify::DeleteLock { key });
        released
    }

    fn put_value(&mut self, key: Vec<u8>, ts: u64, value: Vec<u8>)
        ensures
            final(self).appended(
                *old(self),
                seq![ModifyView::PutValue { key: key@, start_ts: ts, value: value@ }],
            ),
    {
        self.push(Modify::PutValue { key, start_ts: ts, value });
    }

    fn delete_value(&mut self, key: Vec<u8>, ts: u64)
        ensures
            final(self).appended(*old(self), seq![ModifyView::DeleteValue { key: key@, start_ts: ts }]),
    {
        self.push(Modify::DeleteValue { key, start_ts: ts });
    }

    pub fn put_write(&mut self, key: Vec<u8>, ts: u64, write: Write)
        ensures
            final(self).appended(
                *old(self),
                seq![ModifyView::PutWrite { key: key@, commit_ts: ts, write: write@ }],
            ),
    {
        self.push(Modify::PutWrite { key, commit_ts: ts, write });
    }

    fn delete_write(&mut self, key: Vec<u8>, ts: u64)
        ensures
            final(self).appended(*old(self), seq![ModifyView::DeleteWrite { key: key@, commit_ts: ts }]),
    {
        self.push(Modify::DeleteWrite { key, commit_ts: ts });
    }

    /// Appends the lock of a prewrite, and the value where it is too long to
    /// inline. With secondary keys the lock uses async commit: its
    /// min-commit timestamp is raised past every timestamp a reader may have
    /// used, and that timestamp is returned; otherwise zero is returned.
    pub fn prewrite_key_value(
        &mut self,
        key: Vec<u8>,
        lock_type: LockType,
        primary: &Vec<u8>,
        secondary_keys: &Option<Vec<Vec<u8>>>,
        value: Option<Vec<u8>>,
        lock_ttl: u64,
        for_update_ts: u64,
        txn_size: u64,
        min_commit_ts: u64,
    ) -> (r: u64)
        requires
            secondary_keys is Some ==> async_ready(old(self).max_ts, old(self).start_ts, for_update_ts),
        ensures
            ({
                let secs = match secondary_keys {
                    Some(v) => Some(bytes_list(v@)),
                    None => None,
                };
                let l = prewrite_lock(
                    lock_type,
                    primary@,
                    old(self).start_ts,
                    lock_ttl,
                    opt_bytes(value),
                    for_update_ts,
                    txn_size,
                    min_commit_ts,
                    secs,
                    old(self).max_ts,
                );
                &&& final(self).appended_core(
                    *old(self),
                    prewrite_mods(key@, l, opt_bytes(value), old(self).start_ts),
                )
                &&& r == (if secondary_keys is Some {
                    l.min_commit_ts
                } else {
                    0
                })
                &&& bytes_list(final(self).guards@) == (if secondary_keys is Some {
                    bytes_list(old(self).guards@).push(key@)
                } else {
                    bytes_list(old(self).guards@)
                })
            }),
    {
        let ghost start = *self;
        let mut lock = Dagger::new(
            lock_type,
            primary.clone(),
            self.start_ts,
            lock_ttl,
            None,
            for_update_ts,
            txn_size,
            min_commit_ts,
        );
        let ghost mid = *self;
        let ghost vput: Seq<ModifyView> = Seq::empty();
        match value {
            Some(v) => {
                if v.len() <= SHORT_VALUE_MAX_LEN {
                    lock.short_value = Some(v);
                } else {
                    let ghost vv = v@;
                    self.put_value(key.clone(), self.start_ts, v);
                    proof {
                        vput = seq![ModifyView::PutValue { key: key@, start_ts: start.start_ts, value: vv }];
                    }
                }
            },
            None => {},
        }
        let ghost after_value = *self;
        let mut async_commit_ts: u64 = 0;
        match secondary_keys {
            Some(secs) => {
                lock.use_async_commit = true;
                lock.secondaries = copy_byte_lists(secs);
                let base = if self.max_ts > self.start_ts {
                    self.max_ts
                } else {
                    self.start_ts
                };
                let base = if base > for_update_ts {
                    base
                } else {
                    for_update_ts
                };
                let next = base + 1;
                if next > lock.min_commit_ts {
                    lock.min_commit_ts = next;
                }
                async_commit_ts = lock.min_commit_ts;
                let ghost g0 = self.guards@;
                self.guards.push(key.clone());
                proof {
                    assert(bytes_list(self.guards@) =~= bytes_list(g0).push(key@));
                }
            },
            None => {},
        }
        let ghost lv = lock@;
        let ghost guards_now = self.guards@;
        self.put_lock(key, lock);
        proof {
            let pl = seq![ModifyView::PutLock { key: key@, lock: lv }];
            assert(prewrite_mods(key@, lv, opt_bytes(value), start.start_ts) == vput + pl);
            assert(self.mods() =~= start.mods() + (vput + pl));
            lemma_size_after_concat(start.write_size, vput, pl);
        }
        async_commit_ts
    }

    /// Whether the newest record `write` of `key`, committed at
    /// `write_commit_ts`, shows that the key exists, where it must not.
    pub fn check_data_constraint(
        &self,
        snapshot: &Snapshot,
        should_not_exist: bool,
        write: &Write,
        write_commit_ts: u64,
        key: &Vec<u8>,
    ) -> (r: Result<(), MvccError>)
        requires
            snapshot.wf(),
        ensures
            should_not_exist && constraint_violated(snapshot@, key@, write@, write_commit_ts) ==> (
            r matches Err(MvccError::AlreadyExist { key: k }) && k@ == key@),
            !(should_not_exist && constraint_violated(snapshot@, key@, write@, write_commit_ts))
                ==> r is Ok,
    {
        if !should_not_exist || write.write_type == WriteType::Delete {
            return Ok(());
        }
        if write.write_type == WriteType::Put || (write_commit_ts > 0 && snapshot.key_exist(
            key,
            write_commit_ts - 1,
        )) {
            return Err(MvccError::AlreadyExist { key: key.clone() });
        }
        Ok(())
    }

    /// Phase one of an optimistic two-phase commit for one mutation: checks
    /// for newer writes and for locks, then locks the key.
    ///
    /// Returns the min-commit timestamp of an async-commit lock, the one of an
    /// identical lock already in place, or zero.
    pub fn prewrite(
        &mut self,
        snapshot: &Snapshot,
        mutation: Mutation,
        primary: &Vec<u8>,
        secondary_keys: &Option<Vec<Vec<u8>>>,
        skip_constraint_check: bool,
        lock_ttl: u64,
        txn_size: u64,
        min_commit_ts: u64,
    ) -> (r: Result<u64, MvccError>)
        requires
            snapshot.wf(),
            secondary_keys is Some ==> async_ready(old(self).max_ts, old(self).start_ts, 0),
        ensures
            outcome_holds(
                r,
                *old(self),
                *final(self),
                prewrite_outcome(
                    snapshot@,
                    old(self).start_ts,
                    old(self).max_ts,
                    mutation,
                    primary@,
                    opt_secs(*secondary_keys),
                    skip_constraint_check,
                    lock_ttl,
                    txn_size,
                    min_commit_ts,
                ),
                mutation.key_view(),
            ),
            ({
                let s = snapshot@;
                let k = mutation.key_view();
                let st = old(self).start_ts;
                let nw = newest_commit(s.writes, k, Pick::AtOrBelow(u64::MAX));
                let w = s.writes[(k, nw.unwrap())];
                let checked = !skip_constraint_check && nw is Some;
                let conflict = checked && (nw.unwrap() > st || (nw.unwrap() == st && (w.write_type
                    == WriteType::Rollback || w.has_overlapped_rollback)));
                let exists = checked && !conflict && mutation.should_not_exist_spec()
                    && constraint_violated(s, k, w, nw.unwrap());
                let has_lock = s.locks.contains_key((k, LOCK_TS));
                let l = s.locks[(k, LOCK_TS)];
                let passes = !conflict && !exists && !(mutation is CheckNotExists);
                let secs = match secondary_keys {
                    Some(v) => Some(bytes_list(v@)),
                    None => None,
                };
                let nl = prewrite_lock(
                    mutation.lock_type_spec(),
                    primary@,
                    st,
                    lock_ttl,
                    mutation.value_view(),
                    0,
                    txn_size,
                    min_commit_ts,
                    secs,
                    old(self).max_ts,
                );
                &&& conflict ==> (r matches Err(
                    MvccError::WriteConflict {
                        start_ts: a,
                        conflict_start_ts: b,
                        conflict_commit_ts: c,
                        key: kk,
                        primary: pp,
                    },
                ) && a == st && b == w.start_ts && c == nw.unwrap() && kk@ == k && pp@ == primary@)
                &&& exists ==> (r matches Err(MvccError::AlreadyExist { key: kk }) && kk@ == k)
                &&& !conflict && !exists && mutation is CheckNotExists ==> r == Ok::<
                    u64,
                    MvccError,
                >(0)
                &&& passes && has_lock && l.ts != st ==> (r matches Err(MvccError::KeyIsLocked(info))
                    && is_lock_info(info, l, k, l.ttl))
                &&& passes && has_lock && l.ts == st && l.lock_type == LockType::Pessimistic ==> (
                r matches Err(MvccError::LockTypeNotMatch { start_ts: a, key: kk, pessimistic })
                    && a == st && kk@ == k && pessimistic)
                &&& passes && has_lock && l.ts == st && l.lock_type != LockType::Pessimistic ==> r
                    == Ok::<u64, MvccError>(l.min_commit_ts)
                &&& !(passes && !has_lock) ==> final(self).appended(*old(self), Seq::empty())
                &&& passes && !has_lock ==> {
                    &&& final(self).appended_core(
                        *old(self),
                        prewrite_mods(k, nl, mutation.value_view(), st),
                    )
                    &&& r == Ok::<u64, MvccError>(
                        if secondary_keys is Some {
                            nl.min_commit_ts
                        } else {
                            0
                        },
                    )
                    &&& bytes_list(final(self).guards@) == (if secondary_keys is Some {
                        bytes_list(old(self).guards@).push(mutation.key_view())
                    } else {
                        bytes_list(old(self).guards@)
                    })
                }
            }),
    {
        proof {
            lemma_appended_nothing(*self);
        }
        let should_not_exist = mutation.should_not_exist();
        let should_not_write = mutation.should_not_write();
        let ghost mk = mutation.key_view();
        let ghost mv = mutation.value_view();
        let ghost mt = mutation.lock_type_spec();
        let (key, value, lock_type) = mutation.into_parts();
        if !skip_constraint_check {
            match snapshot.seek_write(&key, u64::MAX) {
                Some((commit_ts, write)) => {
                    proof {
                        lemma_newest_unique(snapshot@.writes, key@, Pick::AtOrBelow(u64::MAX), commit_ts);
                    }
                    if commit_ts > self.start_ts || (commit_ts == self.start_ts && (write.write_type
                        == WriteType::Rollback || write.has_overlapped_rollback)) {
                        return Err(
                            MvccError::WriteConflict {
                                start_ts: self.start_ts,
                                conflict_start_ts: write.start_ts,
                                conflict_commit_ts: commit_ts,
                                key,
                                primary: primary.clone(),
                            },
                        );
                    }
                    self.check_data_constraint(snapshot, should_not_exist, &write, commit_ts, &key)?;
                },
                None => {
                    proof {
                        lemma_none_selected(snapshot@.writes, key@, Pick::AtOrBelow(u64::MAX));
                    }
                },
            }
        }
        if should_not_write {
            return Ok(0);
        }
        match snapshot.load_lock(&key) {
            Some(lock) => {
                if lock.ts != self.start_ts {
                    return Err(MvccError::KeyIsLocked(lock_info(&lock, &key)));
                }
                if lock.lock_type == LockType::Pessimistic {
                    return Err(
                        MvccError::LockTypeNotMatch {
                            start_ts: self.start_ts,
                            key,
                            pessimistic: true,
                        },
                    );
                }
                Ok(lock.min_commit_ts)
            },
            None => {
                let r = self.prewrite_key_value(
                    key,
                    lock_type,
                    primary,
                    secondary_keys,
                    value,
                    lock_ttl,
                    0,
                    txn_size,
                    min_commit_ts,
                );
                Ok(r)
            },
        }
    }

    /// Appends the deletion of the newest record of `key` at or below the
    /// start timestamp, where it is an unprotected rollback.
    pub fn collapse_prev_rollback(&mut self, snapshot: &Snapshot, key: &Vec<u8>)
        requires
            snapshot.wf(),
        ensures
            final(self).appended(*old(self), collapse_mods(snapshot@, key@, old(self).start_ts)),
    {
        proof {
            lemma_appended_nothing(*self);
        }
        match snapshot.seek_write(key, self.start_ts) {
            Some((commit_ts, write)) => {
                proof {
                    lemma_newest_unique(snapshot@.writes, key@, Pick::AtOrBelow(self.start_ts), commit_ts);
                }
                if write.write_type == WriteType::Rollback && !write.is_protected() {
                    self.delete_write(key.clone(), commit_ts);
                }
            },
            None => {
                proof {
                    lemma_none_selected(snapshot@.writes, key@, Pick::AtOrBelow(self.start_ts));
                }
            },
        }
    }

    /// Records the rollback of this transaction in another transaction's
    /// async-commit lock, so that committing that lock does not overwrite a
    /// protected rollback record.
    pub fn mark_rollback_on_mismatching_lock(&mut self, key: &Vec<u8>, lock: Dagger, is_protected: bool)
        requires
            lock.ts != old(self).start_ts,
        ensures
            final(self).appended(*old(self), mark_mods(key@, lock@, old(self).start_ts, is_protected)),
    {
        proof {
            lemma_appended_nothing(*self);
        }
        if !is_protected || self.start_ts < lock.min_commit_ts || !lock.use_async_commit {
            return;
        }
        let mut lock = lock;
        lock.rollback_ts.push(self.start_ts);
        self.put_lock(key.clone(), lock);
    }

    /// Rolls back this transaction's own lock on `key`: removes its long
    /// value, records the rollback (on `overlapped_write` where another
    /// transaction's record sits at the start timestamp), collapses an older
    /// rollback if asked, and releases the lock.
    pub fn rollback_lock(
        &mut self,
        snapshot: &Snapshot,
        key: Vec<u8>,
        lock: &Dagger,
        is_pessimistic_txn: bool,
        overlapped_write: Option<Write>,
    ) -> (r: ReleasedLock)
        requires
            snapshot.wf(),
        ensures
            final(self).appended(
                *old(self),
                rollback_lock_mods(
                    snapshot@,
                    key@,
                    lock@,
                    is_pessimistic_txn,
                    opt_view(overlapped_write),
                    old(self).start_ts,
                    old(self).collapse_rollback,
                ),
            ),
            r.hash == lock_hash(key@),
            r.pessimistic == is_pessimistic_txn,
    {
        let ghost start = *self;
        let ghost ow = opt_view(overlapped_write);
        proof {
            lemma_appended_nothing(*self);
        }
        if lock.short_value.is_none() && lock.lock_type == LockType::Put {
            self.delete_value(key.clone(), lock.ts);
        }
        let ghost s1 = *self;
        let protected = is_pessimistic_txn && bytes_eq(&key, &lock.primary);
        match make_rollback(self.start_ts, protected, overlapped_write) {
            Some(write) => self.put_write(key.clone(), self.start_ts, write),
            None => {},
        }
        let ghost s2 = *self;
        if self.collapse_rollback {
            self.collapse_prev_rollback(snapshot, &key);
        }
        let ghost s3 = *self;
        let r = self.unlock_key(key, is_pessimistic_txn);
        proof {
            let k = key@;
            let a = if lock@.short_value is None && lock@.lock_type == LockType::Put {
                seq![ModifyView::DeleteValue { key: k, start_ts: lock@.ts }]
            } else {
                Seq::<ModifyView>::empty()
            };
            let b = match make_rollback_spec(start.start_ts, protected, ow) {
                Some(w) => seq![ModifyView::PutWrite { key: k, commit_ts: start.start_ts, write: w }],
                None => Seq::<ModifyView>::empty(),
            };
            let c = if start.collapse_rollback {
                collapse_mods(snapshot@, k, start.start_ts)
            } else {
                Seq::<ModifyView>::empty()
            };
            let d = seq![ModifyView::DeleteLock { key: k }];
            assert(s1.mods() =~= start.mods() + a);
            assert(s2.mods() =~= s1.mods() + b);
            assert(s3.mods() =~= s2.mods() + c);
            assert(self.mods() =~= start.mods() + (a + b + c + d));
            lemma_size_after_concat(start.write_size, a, b);
            lemma_size_after_concat(start.write_size, a + b, c);
            lemma_size_after_concat(start.write_size, a + b + c, d);
            assert(rollback_lock_mods(snapshot@, k, lock@, is_pessimistic_txn, ow, start.start_ts, start.collapse_rollback) == a + b + c + d);
        }
        r
    }

    /// Decides the outcome of this transaction on `primary_key` when its lock
    /// is missing: a commit or rollback record settles it; otherwise a
    /// rollback is recorded, or `TxnNotFound` returned, as `action` says.
    /// `mismatch_lock` is another transaction's lock on the key, if any.
    pub fn check_txn_status_missing_lock(
        &mut self,
        snapshot: &Snapshot,
        primary_key: Vec<u8>,
        mismatch_lock: Option<Dagger>,
        action: MissingLockAction,
    ) -> (r: Result<TxnStatus, MvccError>)
        requires
            snapshot.wf(),
            mismatch_lock is Some ==> mismatch_lock.unwrap().ts != old(self).start_ts,
        ensures
            ({
                let st = old(self).start_ts;
                let rec = record_spec(snapshot@, primary_key@, st);
                &&& rec is SingleRecord ==> final(self).appended(*old(self), Seq::empty())
                    && r == Ok::<TxnStatus, MvccError>(
                    if rec->SingleRecord_write.write_type == WriteType::Rollback {
                        TxnStatus::RolledBack
                    } else {
                        TxnStatus::Committed { commit_ts: rec->SingleRecord_commit_ts }
                    },
                )
                &&& rec is OverlappedRollback ==> final(self).appended(*old(self), Seq::empty())
                    && r == Ok::<TxnStatus, MvccError>(TxnStatus::RolledBack)
                &&& rec is NotFound && action == MissingLockAction::ReturnError ==> final(self).appended(
                    *old(self),
                    Seq::empty(),
                ) && (r matches Err(MvccError::TxnNotFound { start_ts: a, key: k }) && a == st
                    && k@ == primary_key@)
                &&& rec is NotFound && action != MissingLockAction::ReturnError ==> final(self).appended(
                    *old(self),
                    missing_lock_mods(
                        snapshot@,
                        primary_key@,
                        st,
                        opt_view(mismatch_lock),
                        action == MissingLockAction::ProtectedRollback,
                        rec->NotFound_overlapped_write,
                        old(self).collapse_rollback,
                    ),
                ) && r == Ok::<TxnStatus, MvccError>(TxnStatus::LockNotExist)
            }),
    {
        let ghost start = *self;
        proof {
            lemma_appended_nothing(*self);
        }
        match snapshot.get_txn_commit_record(&primary_key, self.start_ts) {
            TxnCommitRecord::SingleRecord { commit_ts, write } => {
                if write.write_type == WriteType::Rollback {
                    Ok(TxnStatus::RolledBack)
                } else {
                    Ok(TxnStatus::Committed { commit_ts })
                }
            },
            TxnCommitRecord::OverlappedRollback { .. } => Ok(TxnStatus::RolledBack),
            TxnCommitRecord::NotFound { overlapped_write } => {
                if action == MissingLockAction::ReturnError {
                    return Err(MvccError::TxnNotFound { start_ts: self.start_ts, key: primary_key });
                }
                let ghost ml = opt_view(mismatch_lock);
                let ghost ow = opt_view(overlapped_write);
                if self.collapse_rollback {
                    self.collapse_prev_rollback(snapshot, &primary_key);
                }
                let ghost s1 = *self;
                let protected = action == MissingLockAction::ProtectedRollback;
                match mismatch_lock {
                    Some(l) => {
                        if overlapped_write.is_none() {
                            self.mark_rollback_on_mismatching_lock(&primary_key, l, protected);
                        }
                    },
                    None => {},
                }
                let ghost s2 = *self;
                match make_rollback(self.start_ts, protected, overlapped_write) {
                    Some(write) => self.put_write(primary_key, self.start_ts, write),
                    None => {},
                }
                proof {
                    let k = primary_key@;
                    let st = start.start_ts;
                    let a = if start.collapse_rollback {
                        collapse_mods(snapshot@, k, st)
                    } else {
                        Seq::<ModifyView>::empty()
                    };
                    let b = match ml {
                        Some(l) => if ow is None {
                            mark_mods(k, l, st, protected)
                        } else {
                            Seq::<ModifyView>::empty()
                        },
                        None => Seq::<ModifyView>::empty(),
                    };
                    let c = match make_rollback_spec(st, protected, ow) {
                        Some(w) => seq![ModifyView::PutWrite { key: k, commit_ts: st, write: w }],
                        None => Seq::<ModifyView>::empty(),
                    };
                    assert(s1.mods() =~= start.mods() + a);
                    assert(s2.mods() =~= s1.mods() + b);
                    assert(self.mods() =~= start.mods() + (a + b + c));
                    lemma_size_after_concat(start.write_size, a, b);
                    lemma_size_after_concat(start.write_size, a + b, c);
                    assert(missing_lock_mods(snapshot@, k, st, ml, protected, ow, start.collapse_rollback) == a + b + c);
                }
                Ok(TxnStatus::LockNotExist)
            },
        }
    }

    /// Rolls back this transaction on `key` if its lock has expired at
    /// `current_ts` (zero: without looking at the time to live), or where
    /// the lock is missing records the rollback. Fails with `KeyIsLocked`
    /// while the lock lives, and with `Committed` once the transaction has
    /// committed. A rollback of a pessimistic transaction's primary key is
    /// protected from collapsing; so is a missing-lock rollback when
    /// `protect_rollback` asks for it.
    pub fn cleanup(&mut self, snapshot: &Snapshot, key: Vec<u8>, current_ts: u64, protect_rollback: bool) -> (r:
        Result<Option<ReleasedLock>, MvccError>)
        requires
            snapshot.wf(),
        ensures
            ({
                let s = snapshot@;
                let k = key@;
                let st = old(self).start_ts;
                let own = s.locks.contains_key((k, LOCK_TS)) && s.locks[(k, LOCK_TS)].ts == st;
                let l = s.locks[(k, LOCK_TS)];
                let alive = current_ts != 0 && lock_alive(l, current_ts);
                let rec = record_spec(s, k, st);
                let other = if s.locks.contains_key((k, LOCK_TS)) && !own {
                    Some(l)
                } else {
                    None
                };
                &&& own && alive ==> final(self).appended(*old(self), Seq::empty()) && (
                r matches Err(MvccError::KeyIsLocked(info)) && is_lock_info(info, l, k, l.ttl))
                &&& own && !alive && !(rec is NotFound) ==> final(self).appended(*old(self), Seq::empty()) && (
                r matches Err(MvccError::CorruptRecord { key: kk, start_ts: a }) && kk@ == k && a == st)
                &&& own && !alive && rec is NotFound ==> (r matches Ok(Some(rl)) && rl.hash == lock_hash(k)
                    && rl.pessimistic == (l.for_update_ts != 0)) && final(self).appended(
                    *old(self),
                    rollback_lock_mods(
                        s,
                        k,
                        l,
                        l.for_update_ts != 0,
                        rec->NotFound_overlapped_write,
                        st,
                        old(self).collapse_rollback,
                    ),
                )
                &&& !own && rec is SingleRecord && rec->SingleRecord_write.write_type
                    != WriteType::Rollback ==> final(self).appended(*old(self), Seq::empty()) && (
                r matches Err(MvccError::Committed { commit_ts }) && commit_ts
                    == rec->SingleRecord_commit_ts)
                &&& !own && (rec is OverlappedRollback || (rec is SingleRecord
                    && rec->SingleRecord_write.write_type == WriteType::Rollback)) ==> final(self).appended(*old(self), Seq::empty()) && (r is Ok && r.unwrap() is None)
                &&& !own && rec is NotFound ==> final(self).appended(
                    *old(self),
                    missing_lock_mods(
                        s,
                        k,
                        st,
                        other,
                        protect_rollback,
                        rec->NotFound_overlapped_write,
                        old(self).collapse_rollback,
                    ),
                ) && (r is Ok && r.unwrap() is None)
            }),
    {
        match snapshot.load_lock(&key) {
            Some(lock) => {
                if lock.ts == self.start_ts {
                    if current_ts != 0 && lock_alive_exec(&lock, current_ts) {
                        proof {
                            lemma_appended_nothing(*self);
                        }
                        return Err(MvccError::KeyIsLocked(lock_info(&lock, &key)));
                    }
                    let is_pessimistic_txn = lock.for_update_ts != 0;
                    let overlapped = match snapshot.get_txn_commit_record(&key, self.start_ts) {
                        TxnCommitRecord::NotFound { overlapped_write } => overlapped_write,
                        _ => {
                            proof {
                                lemma_appended_nothing(*self);
                            }
                            return Err(MvccError::CorruptRecord { key, start_ts: self.start_ts });
                        },
                    };
                    let released = self.rollback_lock(snapshot, key, &lock, is_pessimistic_txn, overlapped);
                    return Ok(Some(released));
                }
                self.cleanup_missing(snapshot, key, Some(lock), protect_rollback)
            },
            None => self.cleanup_missing(snapshot, key, None, protect_rollback),
        }
    }

    fn cleanup_missing(&mut self, snapshot: &Snapshot, key: Vec<u8>, other: Option<Dagger>, protect_rollback: bool) -> (r:
        Result<Option<ReleasedLock>, MvccError>)
        requires
            snapshot.wf(),
            other is Some ==> other.unwrap().ts != old(self).start_ts,
        ensures
            ({
                let s = snapshot@;
                let k = key@;
                let st = old(self).start_ts;
                let rec = record_spec(s, k, st);
                &&& rec is SingleRecord && rec->SingleRecord_write.write_type != WriteType::Rollback
                    ==> final(self).appended(*old(self), Seq::empty()) && (r matches Err(
                    MvccError::Committed { commit_ts },
                ) && commit_ts == rec->SingleRecord_commit_ts)
                &&& (rec is OverlappedRollback || (rec is SingleRecord
                    && rec->SingleRecord_write.write_type == WriteType::Rollback)) ==> final(self).appended(*old(self), Seq::empty()) && (r is Ok && r.unwrap() is None)
                &&& rec is NotFound ==> final(self).appended(
                    *old(self),
                    missing_lock_mods(
                        s,
                        k,
                        st,
                        opt_view(other),
                        protect_rollback,
                        rec->NotFound_overlapped_write,
                        old(self).collapse_rollback,
                    ),
                ) && (r is Ok && r.unwrap() is None)
            }),
    {
        let action = MissingLockAction::rollback_protect(protect_rollback);
        match self.check_txn_status_missing_lock(snapshot, key, other, action) {
            Ok(TxnStatus::Committed { commit_ts }) => Err(MvccError::Committed { commit_ts }),
            Ok(_) => Ok(None),
            Err(e) => Err(e),
        }
    }

    /// Rolls back this transaction on `key` whatever the lock's time to live:
    /// a cleanup at time zero, unprotected where the lock is missing.
    pub fn rollback(&mut self, snapshot: &Snapshot, key: Vec<u8>) -> (r: Result<
        Option<ReleasedLock>,
        MvccError,
    >)
        requires
            snapshot.wf(),
        ensures
            final(self).appended(*old(self), rollback_mods(snapshot@, key@, old(self).start_ts, old(self).collapse_rollback)),
            ({
                let s = snapshot@;
                let k = key@;
                let st = old(self).start_ts;
                let own = s.locks.contains_key((k, LOCK_TS)) && s.locks[(k, LOCK_TS)].ts == st;
                let l = s.locks[(k, LOCK_TS)];
                let rec = record_spec(s, k, st);
                let other = if s.locks.contains_key((k, LOCK_TS)) && !own {
                    Some(l)
                } else {
                    None
                };
                &&& own && !(rec is NotFound) ==> final(self).appended(*old(self), Seq::empty()) && (
                r matches Err(MvccError::CorruptRecord { key: kk, start_ts: a }) && kk@ == k && a == st)
                &&& own && rec is NotFound ==> (r matches Ok(Some(rl)) && rl.hash == lock_hash(k) && rl.pessimistic
                    == (l.for_update_ts != 0)) && final(self).appended(
                    *old(self),
                    rollback_lock_mods(
                        s,
                        k,
                        l,
                        l.for_update_ts != 0,
                        rec->NotFound_overlapped_write,
                        st,
                        old(self).collapse_rollback,
                    ),
                )
                &&& !own && rec is SingleRecord && rec->SingleRecord_write.write_type
                    != WriteType::Rollback ==> final(self).appended(*old(self), Seq::empty()) && (
                r matches Err(MvccError::Committed { commit_ts }) && commit_ts
                    == rec->SingleRecord_commit_ts)
                &&& !own && (rec is OverlappedRollback || (rec is SingleRecord
                    && rec->SingleRecord_write.write_type == WriteType::Rollback)) ==> final(self).appended(*old(self), Seq::empty()) && (r is Ok && r.unwrap() is None)
                &&& !own && rec is NotFound ==> final(self).appended(
                    *old(self),
                    missing_lock_mods(
                        s,
                        k,
                        st,
                        other,
                        false,
                        rec->NotFound_overlapped_write,
                        old(self).collapse_rollback,
                    ),
                ) && (r is Ok && r.unwrap() is None)
            }),
    {
        self.cleanup(snapshot, key, 0, false)
    }

    /// Phase two of two-phase commit for one key: turns this transaction's
    /// lock into a record committed at `commit_ts` and releases it. Without
    /// the lock, a record of the transaction's commit makes this a no-op and
    /// anything else fails with `TxnLockNotFound`.
    pub fn commit(&mut self, snapshot: &Snapshot, key: Vec<u8>, commit_ts: u64) -> (r: Result<
        Option<ReleasedLock>,
        MvccError,
    >)
        requires
            snapshot.wf(),
        ensures
            ({
                let s = snapshot@;
                let k = key@;
                let st = old(self).start_ts;
                let own = s.locks.contains_key((k, LOCK_TS)) && s.locks[(k, LOCK_TS)].ts == st;
                let l = s.locks[(k, LOCK_TS)];
                let rec = record_spec(s, k, st);
                let committed = rec is SingleRecord && rec->SingleRecord_write.write_type
                    != WriteType::Rollback;
                &&& own && commit_ts < l.min_commit_ts ==> final(self).appended(*old(self), Seq::empty())
                    && (r matches Err(
                    MvccError::CommitTsExpired { start_ts: a, commit_ts: c, key: kk, min_commit_ts: m },
                ) && a == st && c == commit_ts && kk@ == k && m == l.min_commit_ts)
                &&& own && commit_ts >= l.min_commit_ts ==> (r matches Ok(Some(rl)) && rl.hash
                    == lock_hash(k) && rl.pessimistic == (l.for_update_ts != 0)) && final(self).appended(
                    *old(self),
                    seq![
                        ModifyView::PutWrite { key: k, commit_ts, write: commit_write(l, commit_ts) },
                        ModifyView::DeleteLock { key: k },
                    ],
                )
                &&& !own && committed ==> final(self).appended(*old(self), Seq::empty()) && (r is Ok && r.unwrap() is None)
                &&& !own && !committed ==> final(self).appended(*old(self), Seq::empty()) && (
                r matches Err(MvccError::TxnLockNotFound { start_ts: a, commit_ts: c, key: kk })
                    && a == st && c == commit_ts && kk@ == k)
            }),
    {
        proof {
            lemma_appended_nothing(*self);
        }
        match snapshot.load_lock(&key) {
            Some(lock) => {
                if lock.ts == self.start_ts {
                    if commit_ts < lock.min_commit_ts {
                        return Err(
                            MvccError::CommitTsExpired {
                                start_ts: self.start_ts,
                                commit_ts,
                                key,
                                min_commit_ts: lock.min_commit_ts,
                            },
                        );
                    }
                    let ghost l = lock@;
                    let write_type = match lock.lock_type {
                        LockType::Put => WriteType::Put,
                        LockType::Delete => WriteType::Delete,
                        _ => WriteType::Dagger,
                    };
                    let mut overlapped = false;
                    let mut i: usize = 0;
                    while i < lock.rollback_ts.len()
                        invariant
                            i <= lock.rollback_ts.len(),
                            overlapped == (exists|j: int| 0 <= j < i && lock.rollback_ts@[j] == commit_ts),
                        decreases lock.rollback_ts.len() - i,
                    {
                        if lock.rollback_ts[i] == commit_ts {
                            overlapped = true;
                        }
                        i += 1;
                    }
                    let pessimistic = lock.for_update_ts != 0;
                    let write = Write {
                        write_type,
                        start_ts: self.start_ts,
                        short_value: lock.short_value,
                        has_overlapped_rollback: overlapped,
                    };
                    let ghost s0 = *self;
                    self.put_write(key.clone(), commit_ts, write);
                    let ghost s1 = *self;
                    let released = self.unlock_key(key, pessimistic);
                    proof {
                        let a = seq![ModifyView::PutWrite { key: key@, commit_ts, write: commit_write(l, commit_ts) }];
                        let b = seq![ModifyView::DeleteLock { key: key@ }];
                        assert(self.mods() =~= s0.mods() + (a + b));
                        lemma_size_after_concat(s0.write_size, a, b);
                        assert(a + b =~= seq![
                            ModifyView::PutWrite { key: key@, commit_ts, write: commit_write(l, commit_ts) },
                            ModifyView::DeleteLock { key: key@ },
                        ]);
                    }
                    return Ok(Some(released));
                }
            },
            None => {},
        }
        match snapshot.get_txn_commit_record(&key, self.start_ts) {
            TxnCommitRecord::SingleRecord { write, .. } => {
                if write.write_type != WriteType::Rollback {
                    return Ok(None);
                }
            },
            _ => {},
        }
        Err(MvccError::TxnLockNotFound { start_ts: self.start_ts, commit_ts, key })
    }

    /// Takes, or keeps, a pessimistic lock on `key` for this transaction,
    /// read at `for_update_ts`. With `need_value` also returns the value
    /// visible at `for_update_ts`.
    pub fn acquire_pessimistic_lock(
        &mut self,
        snapshot: &Snapshot,
        key: Vec<u8>,
        primary: &Vec<u8>,
        should_not_exist: bool,
        lock_ttl: u64,
        for_update_ts: u64,
        need_value: bool,
        min_commit_ts: u64,
    ) -> (r: Result<Option<Vec<u8>>, MvccError>)
        requires
            snapshot.wf(),
        ensures
            ({
                let s = snapshot@;
                let k = key@;
                let st = old(self).start_ts;
                let has_lock = s.locks.contains_key((k, LOCK_TS));
                let l = s.locks[(k, LOCK_TS)];
                let nl = pessimistic_lock_view(primary@, st, lock_ttl, for_update_ts, min_commit_ts);
                let nw = newest_commit(s.writes, k, Pick::AtOrBelow(u64::MAX));
                let c = nw.unwrap();
                let w = s.writes[(k, c)];
                let conflict = !has_lock && nw is Some && c > for_update_ts;
                let rolled_back = !has_lock && nw is Some && !conflict && (
                (c == st && (w.write_type == WriteType::Rollback || w.has_overlapped_rollback)) || (c
                    > st && own_record_below(s, k, st)));
                let exists = !has_lock && nw is Some && !conflict && !rolled_back
                    && should_not_exist && constraint_violated(s, k, w, c);
                let fresh = !has_lock && !conflict && !rolled_back && !exists;
                &&& has_lock && l.ts != st ==> final(self).appended(*old(self), Seq::empty()) && (
                r matches Err(MvccError::KeyIsLocked(info)) && is_lock_info(info, l, k, l.ttl))
                &&& has_lock && l.ts == st && l.lock_type != LockType::Pessimistic ==> final(
                    self).appended(*old(self), Seq::empty()) && (r matches Err(
                    MvccError::LockTypeNotMatch { start_ts: a, key: kk, pessimistic },
                ) && a == st && kk@ == k && !pessimistic)
                &&& has_lock && l.ts == st && l.lock_type == LockType::Pessimistic ==> {
                    let read = read_spec(s, k, for_update_ts);
                    let ok = !need_value || read is Ok;
                    &&& ok && for_update_ts > l.for_update_ts ==> final(self).appended(
                        *old(self),
                        seq![ModifyView::PutLock { key: k, lock: nl }],
                    )
                    &&& !(ok && for_update_ts > l.for_update_ts) ==> final(self).appended(
                        *old(self),
                        Seq::empty(),
                    )
                    &&& need_value && read is Err ==> r is Err && r.unwrap_err() is DefaultNotFound
                    &&& ok ==> r is Ok && opt_bytes(r.unwrap()) == (if need_value {
                        read.unwrap()
                    } else {
                        None
                    })
                }
                &&& conflict ==> final(self).appended(*old(self), Seq::empty()) && (r matches Err(
                    MvccError::WriteConflict {
                        start_ts: a,
                        conflict_start_ts: b,
                        conflict_commit_ts: cc,
                        key: kk,
                        primary: pp,
                    },
                ) && a == st && b == w.start_ts && cc == c && kk@ == k && pp@ == primary@)
                &&& rolled_back ==> final(self).appended(*old(self), Seq::empty()) && (r matches Err(
                    MvccError::PessimisticLockRolledBack { start_ts: a, key: kk },
                ) && a == st && kk@ == k)
                &&& exists ==> final(self).appended(*old(self), Seq::empty()) && (r matches Err(
                    MvccError::AlreadyExist { key: kk },
                ) && kk@ == k)
                &&& fresh ==> {
                    let read = if !need_value || nw is None {
                        Ok(None)
                    } else if w.write_type == WriteType::Put || w.write_type == WriteType::Delete {
                        value_of_spec(s, k, w)
                    } else {
                        read_below(s, k, c)
                    };
                    &&& read is Ok ==> r is Ok && opt_bytes(r.unwrap()) == read.unwrap()
                        && final(self).appended(*old(self), seq![ModifyView::PutLock { key: k, lock: nl }])
                    &&& read is Err ==> r is Err && r.unwrap_err() is DefaultNotFound
                        && final(self).appended(*old(self), Seq::empty())
                }
            }),
    {
        proof {
            lemma_appended_nothing(*self);
        }
        match snapshot.load_lock(&key) {
            Some(lock) => {
                if lock.ts != self.start_ts {
                    return Err(MvccError::KeyIsLocked(lock_info(&lock, &key)));
                }
                if lock.lock_type != LockType::Pessimistic {
                    return Err(
                        MvccError::LockTypeNotMatch { start_ts: self.start_ts, key, pessimistic: false },
                    );
                }
                let mut val: Option<Vec<u8>> = None;
                if need_value {
                    val = snapshot.get_value(&key, for_update_ts)?;
                }
                if for_update_ts > lock.for_update_ts {
                    let nl = pessimistic_lock(primary, self.start_ts, lock_ttl, for_update_ts, min_commit_ts);
                    self.put_lock(key, nl);
                }
                return Ok(val);
            },
            None => {},
        }
        let mut val: Option<Vec<u8>> = None;
        match snapshot.seek_write(&key, u64::MAX) {
            Some((commit_ts, write)) => {
                proof {
                    lemma_newest_unique(snapshot@.writes, key@, Pick::AtOrBelow(u64::MAX), commit_ts);
                }
                if commit_ts > for_update_ts {
                    return Err(
                        MvccError::WriteConflict {
                            start_ts: self.start_ts,
                            conflict_start_ts: write.start_ts,
                            conflict_commit_ts: commit_ts,
                            key,
                            primary: primary.clone(),
                        },
                    );
                }
                if commit_ts == self.start_ts && (write.write_type == WriteType::Rollback
                    || write.has_overlapped_rollback) {
                    return Err(MvccError::PessimisticLockRolledBack { start_ts: self.start_ts, key });
                }
                if commit_ts > self.start_ts {
                    if self.own_record_at_or_below(snapshot, &key) {
                        return Err(
                            MvccError::PessimisticLockRolledBack { start_ts: self.start_ts, key },
                        );
                    }
                }
                self.check_data_constraint(snapshot, should_not_exist, &write, commit_ts, &key)?;
                if need_value {
                    if write.write_type == WriteType::Put || write.write_type == WriteType::Delete {
                        val = snapshot.load_data(&key, &write)?;
                    } else if commit_ts > 0 {
                        val = snapshot.get_value(&key, commit_ts - 1)?;
                    }
                }
            },
            None => {
                proof {
                    lemma_none_selected(snapshot@.writes, key@, Pick::AtOrBelow(u64::MAX));
                }
            },
        }
        let nl = pessimistic_lock(primary, self.start_ts, lock_ttl, for_update_ts, min_commit_ts);
        self.put_lock(key, nl);
        Ok(val)
    }

    /// Whether the newest record of `key` at or below the start timestamp
    /// belongs to this transaction.
    fn own_record_at_or_below(&self, snapshot: &Snapshot, key: &Vec<u8>) -> (r: bool)
        requires
            snapshot.wf(),
        ensures
            r == own_record_below(snapshot@, key@, self.start_ts),
    {
        match snapshot.seek_write(key, self.start_ts) {
            Some((c, w)) => {
                proof {
                    lemma_newest_unique(snapshot@.writes, key@, Pick::AtOrBelow(self.start_ts), c);
                }
                w.start_ts == self.start_ts
            },
            None => {
                proof {
                    lemma_none_selected(snapshot@.writes, key@, Pick::AtOrBelow(self.start_ts));
                }
                false
            },
        }
    }

    /// Where a pessimistic lock should be but is missing: fails unless
    /// pipelined locking is on and no record of `key` is committed at or
    /// after the start timestamp.
    pub fn amend_pessimistic_lock(&self, snapshot: &Snapshot, pipelined_pessimistic_lock: bool, key: &Vec<u8>) -> (r:
        Result<(), MvccError>)
        requires
            snapshot.wf(),
        ensures
            r is Ok <==> amendable(snapshot@, key@, self.start_ts, pipelined_pessimistic_lock),
            r is Err ==> (r matches Err(MvccError::PessimisticLockNotFound { start_ts: a, key: kk })
                && a == self.start_ts && kk@ == key@),
    {
        if !pipelined_pessimistic_lock {
            return Err(MvccError::PessimisticLockNotFound { start_ts: self.start_ts, key: key.clone() });
        }
        match snapshot.seek_write(key, u64::MAX) {
            Some((commit_ts, _)) => {
                proof {
                    lemma_newest_unique(snapshot@.writes, key@, Pick::AtOrBelow(u64::MAX), commit_ts);
                }
                if commit_ts >= self.start_ts {
                    return Err(
                        MvccError::PessimisticLockNotFound { start_ts: self.start_ts, key: key.clone() },
                    );
                }
            },
            None => {
                proof {
                    lemma_none_selected(snapshot@.writes, key@, Pick::AtOrBelow(u64::MAX));
                }
            },
        }
        Ok(())
    }

    /// Prewrite of a pessimistic transaction for one mutation. A key that
    /// the transaction locked pessimistically must still hold that lock,
    /// which is overwritten; a missing one is tolerated only as
    /// [`MvccTxn::amend_pessimistic_lock`] allows.
    pub fn pessimistic_prewrite(
        &mut self,
        snapshot: &Snapshot,
        mutation: Mutation,
        primary: &Vec<u8>,
        secondary_keys: &Option<Vec<Vec<u8>>>,
        is_pessimistic_lock: bool,
        lock_ttl: u64,
        for_update_ts: u64,
        txn_size: u64,
        min_commit_ts: u64,
        pipelined_pessimistic_lock: bool,
    ) -> (r: Result<u64, MvccError>)
        requires
            snapshot.wf(),
            secondary_keys is Some ==> async_ready(old(self).max_ts, old(self).start_ts, for_update_ts),
        ensures
            outcome_holds(
                r,
                *old(self),
                *final(self),
                pessimistic_outcome(
                    snapshot@,
                    old(self).start_ts,
                    old(self).max_ts,
                    mutation,
                    primary@,
                    opt_secs(*secondary_keys),
                    is_pessimistic_lock,
                    lock_ttl,
                    for_update_ts,
                    txn_size,
                    min_commit_ts,
                    pipelined_pessimistic_lock,
                ),
                mutation.key_view(),
            ),
            ({
                let s = snapshot@;
                let k = mutation.key_view();
                let st = old(self).start_ts;
                let has_lock = s.locks.contains_key((k, LOCK_TS));
                let l = s.locks[(k, LOCK_TS)];
                let own_pessimistic = has_lock && l.ts == st && l.lock_type == LockType::Pessimistic;
                let ttl = if own_pessimistic && l.ttl > lock_ttl {
                    l.ttl
                } else {
                    lock_ttl
                };
                let mc = if own_pessimistic && l.min_commit_ts > min_commit_ts {
                    l.min_commit_ts
                } else {
                    min_commit_ts
                };
                let secs = match secondary_keys {
                    Some(v) => Some(bytes_list(v@)),
                    None => None,
                };
                let nl = prewrite_lock(
                    mutation.lock_type_spec(),
                    primary@,
                    st,
                    ttl,
                    mutation.value_view(),
                    for_update_ts,
                    txn_size,
                    mc,
                    secs,
                    old(self).max_ts,
                );
                let writes = !(mutation is CheckNotExists) && (own_pessimistic || (!has_lock && (
                !is_pessimistic_lock || amendable(s, k, st, pipelined_pessimistic_lock))));
                &&& mutation is CheckNotExists ==> r is Err
                    && r.unwrap_err() is CheckNotExistsInPessimisticPrewrite
                &&& !(mutation is CheckNotExists) && has_lock && l.ts != st && is_pessimistic_lock
                    ==> (r matches Err(MvccError::PessimisticLockNotFound { start_ts: a, key: kk })
                    && a == st && kk@ == k)
                &&& !(mutation is CheckNotExists) && has_lock && l.ts != st && !is_pessimistic_lock
                    ==> (r matches Err(MvccError::KeyIsLocked(info)) && is_lock_info(info, l, k, 0))
                &&& !(mutation is CheckNotExists) && has_lock && l.ts == st && l.lock_type
                    != LockType::Pessimistic ==> r == Ok::<u64, MvccError>(l.min_commit_ts)
                &&& !(mutation is CheckNotExists) && !has_lock && is_pessimistic_lock && !amendable(
                    s,
                    k,
                    st,
                    pipelined_pessimistic_lock,
                ) ==> (r matches Err(MvccError::PessimisticLockNotFound { start_ts: a, key: kk })
                    && a == st && kk@ == k)
                &&& !writes ==> final(self).appended(*old(self), Seq::empty())
                &&& writes ==> {
                    &&& final(self).appended_core(*old(self), prewrite_mods(k, nl, mutation.value_view(), st))
                    &&& r == Ok::<u64, MvccError>(
                        if secondary_keys is Some {
                            nl.min_commit_ts
                        } else {
                            0
                        },
                    )
                    &&& bytes_list(final(self).guards@) == (if secondary_keys is Some {
                        bytes_list(old(self).guards@).push(k)
                    } else {
                        bytes_list(old(self).guards@)
                    })
                }
            }),
    {
        proof {
            lemma_appended_nothing(*self);
        }
        if mutation.should_not_write() {
            let (key, _, _) = mutation.into_parts();
            return Err(MvccError::CheckNotExistsInPessimisticPrewrite { key });
        }
        let (key, value, lock_type) = mutation.into_parts();
        let mut lock_ttl = lock_ttl;
        let mut min_commit_ts = min_commit_ts;
        match snapshot.load_lock(&key) {
            Some(lock) => {
                if lock.ts != self.start_ts {
                    if is_pessimistic_lock {
                        return Err(
                            MvccError::PessimisticLockNotFound { start_ts: self.start_ts, key },
                        );
                    }
                    let mut info = lock_info(&lock, &key);
                    info.lock_ttl = 0;
                    return Err(MvccError::KeyIsLocked(info));
                }
                if lock.lock_type != LockType::Pessimistic {
                    return Ok(lock.min_commit_ts);
                }
                if lock.ttl > lock_ttl {
                    lock_ttl = lock.ttl;
                }
                if lock.min_commit_ts > min_commit_ts {
                    min_commit_ts = lock.min_commit_ts;
                }
            },
            None => {
                if is_pessimistic_lock {
                    self.amend_pessimistic_lock(snapshot, pipelined_pessimistic_lock, &key)?;
                }
            },
        }
        let r = self.prewrite_key_value(
            key,
            lock_type,
            primary,
            secondary_keys,
            value,
            lock_ttl,
            for_update_ts,
            txn_size,
            min_commit_ts,
        );
        Ok(r)
    }

    /// Garbage-collects the versions of `key` that no reader at or above
    /// `safe_point` needs: every record older than the newest put or delete
    /// at or below the safe point (with the long values of older puts), the
    /// lock and rollback records above it up to the safe point, and that
    /// record itself where it is a delete. Stops early, reporting that it has
    /// not finished, once the buffer reaches `MAX_TXN_WRITE_SIZE`.
    #[verifier::rlimit(100)]
    #[verifier::spinoff_prover]
    pub fn gc(&mut self, snapshot: &Snapshot, key: Vec<u8>, safe_point: u64) -> (r: GcInfo)
        requires
            snapshot.wf(),
        ensures
            ({
                let s = snapshot@;
                let k = key@;
                let e = snapshot.writes.entries@;
                let kp = newest_commit(s.writes, k, Pick::DataAtOrBelow(safe_point));
                let n0 = old(self).mods().len() as int;
                let fresh = final(self).mods().subrange(n0, final(self).mods().len() as int);
                &&& final(self).appended_core(*old(self), fresh)
                &&& final(self).guards@ == old(self).guards@
                &&& forall|j: int| n0 <= j < final(self).mods().len() ==> gc_mod(s, k, safe_point, #[trigger] final(self).mods()[j])
                &&& dw_distinct(fresh)
                &&& dv_paired(s, k, safe_point, fresh)
                &&& r.is_completed && (exists|c: u64| #[trigger] s.writes.contains_key((k, c))) ==> exists|c: u64| {
                    &&& #[trigger] oldest_version(s.writes, k, c)
                    &&& exists|m: int|
                        0 <= m <= fresh.len() && #[trigger] size_after(old(self).write_size, fresh.subrange(0, m))
                            < MAX_TXN_WRITE_SIZE && version_tail(s, k, fresh, m, c, kp)
                }
                &&& r.deleted_versions == count_dw(fresh)
                &&& r.is_completed ==> r.found_versions == count_key_above(e, k, -1)
                &&& r.is_completed ==> forall|c: u64| #[trigger] gc_deletes_write(s, k, safe_point, c) ==> has_mod(
                    final(self).mods(),
                    n0,
                    ModifyView::DeleteWrite { key: k, commit_ts: c },
                )
                &&& r.is_completed ==> forall|c: u64| #[trigger] gc_deletes_value(s, k, safe_point, c) ==> has_mod(
                    final(self).mods(),
                    n0,
                    ModifyView::DeleteValue { key: k, start_ts: s.writes[(k, c)].start_ts },
                )
                &&& !r.is_completed ==> final(self).write_size >= MAX_TXN_WRITE_SIZE && exists|stop: u64| {
                    &&& #[trigger] s.writes.contains_key((k, stop))
                    &&& r.found_versions == count_key_above(e, k, stop - 1)
                    &&& dw_above(fresh, stop as int)
                    &&& forall|c: u64| #[trigger] gc_deletes_write(s, k, safe_point, c) && c > stop && !(kp == Some(c)
                        && s.writes[(k, c)].write_type == WriteType::Delete) ==> has_mod(
                        final(self).mods(),
                        n0,
                        ModifyView::DeleteWrite { key: k, commit_ts: c },
                    )
                    &&& forall|c: u64| #[trigger] gc_deletes_value(s, k, safe_point, c) && c > stop ==> has_mod(
                        final(self).mods(),
                        n0,
                        ModifyView::DeleteValue { key: k, start_ts: s.writes[(k, c)].start_ts },
                    )
                    &&& forall|i: int| 0 <= i < fresh.len() && #[trigger] fresh[i] is DeleteWrite ==> !(kp == Some(
                        fresh[i]->DeleteWrite_commit_ts,
                    ) && s.writes[(k, fresh[i]->DeleteWrite_commit_ts)].write_type == WriteType::Delete)
                }
            }),
    {
        let ghost s = snapshot@;
        let ghost k = key@;
        let ghost e = snapshot.writes.entries@;
        let ghost start = *self;
        let ghost n0 = self.mods().len() as int;
        let kp_idx = snapshot.find_newest(&key, Pick::DataAtOrBelow(safe_point));
        let ghost kp: Option<u64> = match kp_idx {
            Some(i) => Some(snapshot.writes.entries@[i as int].ts),
            None => None,
        };
        proof {
            match kp_idx {
                Some(i) => lemma_newest_unique(s.writes, k, Pick::DataAtOrBelow(safe_point), kp.unwrap()),
                None => lemma_none_selected(s.writes, k, Pick::DataAtOrBelow(safe_point)),
            }
        }
        let mut remove_older = false;
        let mut ts: u64 = u64::MAX;
        let mut more = true;
        let mut found_versions: usize = 0;
        let mut deleted_versions: usize = 0;
        let mut latest_delete: Option<u64> = None;
        let mut is_completed = true;
        let ghost mut lo: int = u64::MAX as int;
        let ghost mut stop: u64 = 0;
        let ghost mut visited = false;
        let ghost mut c_last: u64 = 0;
        let ghost mut m_last: int = 0;
        let ghost mut f: Seq<ModifyView> = Seq::empty();
        proof {
            lemma_appended_nothing(*self);
            assert(self.mods().subrange(n0, n0) =~= Seq::<ModifyView>::empty());
            assert(self.mods().subrange(0, n0) =~= start.mods());
            lemma_count_key_gap(e, k, u64::MAX as int, u64::MAX as int + 1);
            assert(count_key_above(e, k, u64::MAX as int) == 0) by {
                lemma_count_zero(e, k, u64::MAX as int);
            }
            lemma_count_key_le(e, k, -1);
            assert(e.len() == snapshot.writes.entries.len());
            lemma_fresh_empty(s, k, safe_point, kp, u64::MAX as int);
            reveal(versions_at_most);
            assert(self.mods().subrange(n0, self.mods().len() as int) =~= Seq::<ModifyView>::empty());
        }
        while more
            invariant
                snapshot.wf(),
                s == snapshot@,
                e == snapshot.writes.entries@,
                e.len() <= usize::MAX,
                k == key@,
                kp == newest_commit(s.writes, k, Pick::DataAtOrBelow(safe_point)),
                kp is Some ==> newest(s.writes, k, Pick::DataAtOrBelow(safe_point), kp.unwrap()),
                kp is None ==> none_selected(s.writes, k, Pick::DataAtOrBelow(safe_point)),
                n0 == start.mods().len(),
                self.mods().len() >= n0,
                self.mods().subrange(0, n0) == start.mods(),
                f == self.mods().subrange(n0, self.mods().len() as int),
                self.appended_core(start, f),
                self.guards@ == start.guards@,
                more ==> is_completed && lo == ts as int,
                !more && is_completed ==> lo == -1,
                -1 <= lo <= u64::MAX,
                !is_completed ==> latest_delete is None && self.write_size >= MAX_TXN_WRITE_SIZE
                    && s.writes.contains_key((k, stop)) && found_versions == count_key_above(e, k, stop - 1)
                    && stop <= lo,
                !is_completed ==> forall|c: u64| stop < c <= lo ==> !#[trigger] s.writes.contains_key((k, c)),
                is_completed ==> found_versions == count_key_above(e, k, lo),
                is_completed ==> remove_older == (kp is Some && kp.unwrap() > lo),
                is_completed ==> (latest_delete is Some <==> (kp is Some && kp.unwrap() > lo
                    && s.writes[(k, kp.unwrap())].write_type == WriteType::Delete)),
                latest_delete is Some ==> latest_delete.unwrap() == kp.unwrap(),
                deleted_versions == count_dw(f),
                deleted_versions + (if latest_delete is Some { 1int } else { 0int }) <= found_versions,
                dw_distinct(f),
                dv_paired(s, k, safe_point, f),
                is_completed && !visited ==> self.mods().len() == n0 && versions_at_most(s.writes, k, lo),
                is_completed && visited ==> s.writes.contains_key((k, c_last)) && lo < c_last && versions_above_from(s.writes, k, lo, c_last),
                is_completed && visited ==> 0 <= m_last <= self.mods().len() - n0 && size_after(
                    start.write_size,
                    f.subrange(0, m_last),
                ) < MAX_TXN_WRITE_SIZE && version_tail(s, k, f, m_last, c_last, None),
                dw_above(f, lo),
                no_kp_delete(s, k, kp, f),
                forall|j: int| n0 <= j < self.mods().len() ==> gc_mod(s, k, safe_point, #[trigger] self.mods()[j]),
                forall|c: u64| #[trigger] gc_deletes_write(s, k, safe_point, c) && c > lo && !(kp
                    == Some(c) && s.writes[(k, c)].write_type == WriteType::Delete) ==> has_mod(
                    self.mods(),
                    n0,
                    ModifyView::DeleteWrite { key: k, commit_ts: c },
                ),
                forall|c: u64| #[trigger] gc_deletes_value(s, k, safe_point, c) && c > lo ==> has_mod(
                    self.mods(),
                    n0,
                    ModifyView::DeleteValue { key: k, start_ts: s.writes[(k, c)].start_ts },
                ),
            decreases lo + 1 + if more { 1int } else { 0int },
        {
            match snapshot.seek_write(&key, ts) {
                None => {
                    proof {
                        assert forall|c: u64| #[trigger] s.writes.contains_key((k, c)) implies c > lo by {
                            if c <= ts {
                                assert(!selected(Pick::AtOrBelow(ts), c, s.writes[(k, c)]));
                            }
                        }
                        assert forall|i: int| 0 <= i < e.len() && (#[trigger] e[i]).key@ == k implies !(-1 < e[i].ts <= lo) by {
                            snapshot.writes.lemma_entry(i);
                        }
                        lemma_count_key_gap(e, k, -1, lo);
                        lemma_dw_above_lower(f, lo, -1);
                        reveal(versions_at_most);
                        reveal(versions_above_from);
                        lo = -1;
                    }
                    more = false;
                },
                Some((commit, write)) => {
                    let ghost before = *self;
                    let ghost lo0 = lo;
                    let ghost w = s.writes[(k, commit)];
                    let ghost jc = choose|j: int| snapshot.writes.holds(j, k, commit);
                    proof {
                        assert(w == write@);
                        assert forall|c: u64| commit < c <= lo0 implies !s.writes.contains_key((k, c)) by {
                            if s.writes.contains_key((k, c)) {
                                assert(selected(Pick::AtOrBelow(ts), c, s.writes[(k, c)]));
                            }
                        }
                        assert(snapshot.writes.holds(jc, k, commit));
                        assert forall|i: int| 0 <= i < e.len() && i != jc implies !((#[trigger] e[i]).key@ == k && e[i].ts == commit) by {}
                        assert forall|i: int| 0 <= i < e.len() && (#[trigger] e[i]).key@ == k implies !(commit < e[i].ts <= lo0) by {
                            snapshot.writes.lemma_entry(i);
                        }
                        lemma_count_key_step(e, k, commit, lo0, jc);
                        lemma_count_key_le(e, k, commit - 1);
                    }
                    found_versions += 1;
                    if self.write_size >= MAX_TXN_WRITE_SIZE {
                        latest_delete = None;
                        is_completed = false;
                        more = false;
                        proof {
                            stop = commit;
                        }
                    } else {
                        let ghost f0 = f;
                        proof {
                            assert(f.subrange(0, f.len() as int) =~= f);
                            lemma_tail_empty(s, k, f, commit);
                            reveal(versions_above_from);
                            m_last = f.len() as int;
                            c_last = commit;
                            visited = true;
                            if kp is Some && w.write_type != WriteType::Rollback && w.write_type != WriteType::Dagger && commit <= safe_point {
                                assert(selected(Pick::DataAtOrBelow(safe_point), commit, w));
                            }
                        }
                        if remove_older {
                            self.delete_write(key.clone(), commit);
                            let ghost mid = *self;
                            proof {
                                lemma_subrange_appended(start, before, mid, n0);
                                lemma_mods_grow(before.mods(), mid.mods(), n0);
                                assert(mid.mods()[mid.mods().len() - 1] == ModifyView::DeleteWrite { key: k, commit_ts: commit });
                                assert(gc_deletes_write(s, k, safe_point, commit));
                                lemma_fresh_push(before.mods(), mid.mods(), n0);
                                lemma_push_dw(s, k, safe_point, kp, f, commit, lo0);
                                lemma_push_tail(s, k, f, m_last, c_last, None, ModifyView::DeleteWrite { key: k, commit_ts: commit });
                                f = f.push(ModifyView::DeleteWrite { key: k, commit_ts: commit });
                            }
                            if write.write_type == WriteType::Put && write.short_value.is_none() {
                                self.delete_value(key.clone(), write.start_ts);
                                proof {
                                    lemma_subrange_appended(start, mid, *self, n0);
                                    lemma_mods_grow(mid.mods(), self.mods(), n0);
                                    assert(gc_deletes_value(s, k, safe_point, commit));
                                    assert(self.mods()[self.mods().len() - 1] == ModifyView::DeleteValue { key: k, start_ts: w.start_ts });
                                    lemma_fresh_push(mid.mods(), self.mods(), n0);
                                    let x = ModifyView::DeleteValue { key: k, start_ts: w.start_ts };
                                    lemma_push_dv(s, k, safe_point, kp, f, commit, commit - 1);
                                    lemma_push_tail(s, k, f, m_last, c_last, None, x);
                                    f = f.push(x);
                                }
                            }
                            deleted_versions += 1;
                        } else if commit <= safe_point {
                            if write.write_type == WriteType::Put || write.write_type == WriteType::Delete {
                                remove_older = true;
                                proof {
                                    assert(selected(Pick::DataAtOrBelow(safe_point), commit, w));
                                    assert(kp.unwrap() == commit);
                                }
                            }
                            if write.write_type == WriteType::Delete {
                                latest_delete = Some(commit);
                            } else if write.write_type == WriteType::Rollback || write.write_type
                                == WriteType::Dagger {
                                self.delete_write(key.clone(), commit);
                                proof {
                                    lemma_subrange_appended(start, before, *self, n0);
                                    lemma_mods_grow(before.mods(), self.mods(), n0);
                                    assert(self.mods()[self.mods().len() - 1] == ModifyView::DeleteWrite { key: k, commit_ts: commit });
                                    assert(gc_deletes_write(s, k, safe_point, commit));
                                    lemma_fresh_push(before.mods(), self.mods(), n0);
                                    lemma_push_dw(s, k, safe_point, kp, f, commit, lo0);
                                    lemma_push_tail(s, k, f, m_last, c_last, None, ModifyView::DeleteWrite { key: k, commit_ts: commit });
                                    f = f.push(ModifyView::DeleteWrite { key: k, commit_ts: commit });
                                }
                                deleted_versions += 1;
                            }
                        }
                        proof {
                            if f.len() == f0.len() {
                                lemma_dw_above_lower(f, lo0, commit - 1);
                            }
                        }
                        if commit == 0 {
                            more = false;
                            proof {
                                lo = -1;
                            }
                        } else {
                            ts = commit - 1;
                            proof {
                                lo = ts as int;
                            }
                        }
                    }
                },
            }
        }
        if is_completed {
            if let Some(commit) = latest_delete {
                let ghost before = *self;
                self.delete_write(key, commit);
                deleted_versions += 1;
                proof {
                    lemma_subrange_appended(start, before, *self, n0);
                    lemma_mods_grow(before.mods(), self.mods(), n0);
                    assert(self.mods()[self.mods().len() - 1] == ModifyView::DeleteWrite { key: k, commit_ts: commit });
                    lemma_fresh_push(before.mods(), self.mods(), n0);
                    lemma_count_dw_push(f, ModifyView::DeleteWrite { key: k, commit_ts: commit });
                    lemma_push_final(s, k, safe_point, kp, f, commit);
                    if visited {
                        lemma_push_tail(s, k, f, m_last, c_last, kp, ModifyView::DeleteWrite { key: k, commit_ts: commit });
                    }
                    f = f.push(ModifyView::DeleteWrite { key: k, commit_ts: commit });
                }
            }
        }
        proof {
            assert(f == self.mods().subrange(n0, self.mods().len() as int));
            reveal(versions_at_most);
            reveal(versions_above_from);
            if is_completed && visited {
                assert(oldest_version(s.writes, k, c_last));
                if !(latest_delete is Some) {
                    lemma_tail_widen(s, k, f, m_last, c_last, kp);
                }
                assert(0 <= m_last <= f.len() && size_after(start.write_size, f.subrange(0, m_last)) < MAX_TXN_WRITE_SIZE
                    && version_tail(s, k, f, m_last, c_last, kp));
            }
            if is_completed && !visited {
                assert(forall|c: u64| !s.writes.contains_key((k, c)));
            }
            if !is_completed {
                lemma_dw_above_lower(f, lo, stop as int);
                reveal(no_kp_delete);
                assert forall|c: u64| #[trigger] gc_deletes_write(s, k, safe_point, c) && c > stop && !(kp
                    == Some(c) && s.writes[(k, c)].write_type == WriteType::Delete) implies has_mod(
                    self.mods(),
                    n0,
                    ModifyView::DeleteWrite { key: k, commit_ts: c },
                ) by {
                    if c <= lo {
                        assert(!s.writes.contains_key((k, c)));
                    }
                }
                assert forall|c: u64| #[trigger] gc_deletes_value(s, k, safe_point, c) && c > stop implies has_mod(
                    self.mods(),
                    n0,
                    ModifyView::DeleteValue { key: k, start_ts: s.writes[(k, c)].start_ts },
                ) by {
                    if c <= lo {
                        assert(!s.writes.contains_key((k, c)));
                    }
                }
            }
        }
        GcInfo { found_versions, deleted_versions, is_completed }
    }
}

/// Whether GC deletes the record of `k` committed at `c`.
pub open spec fn gc_deletes_write(s: SnapshotView, k: Seq<u8>, sp: u64, c: u64) -> bool {
    &&& s.writes.contains_key((k, c))
    &&& c <= sp
    &&& {
        let t = s.writes[(k, c)].write_type;
        let other = t == WriteType::Rollback || t == WriteType::Dagger;
        match newest_commit(s.writes, k, Pick::DataAtOrBelow(sp)) {
            None => other,
            Some(kp) => c < kp || (c == kp && t == WriteType::Delete) || (c > kp && other),
        }
    }
}

/// Whether GC deletes the long value of the record of `k` committed at `c`.
pub open spec fn gc_deletes_value(s: SnapshotView, k: Seq<u8>, sp: u64, c: u64) -> bool {
    &&& s.writes.contains_key((k, c))
    &&& s.writes[(k, c)].write_type == WriteType::Put
    &&& s.writes[(k, c)].short_value is None
    &&& match newest_commit(s.writes, k, Pick::DataAtOrBelow(sp)) {
        None => false,
        Some(kp) => c < kp,
    }
}

/// Each value deletion among `ms` directly follows the record deletion of
/// its own version.
#[verifier::opaque]
pub open spec fn dv_paired(s: SnapshotView, k: Seq<u8>, sp: u64, ms: Seq<ModifyView>) -> bool {
    forall|j: int|
        0 <= j < ms.len() && #[trigger] ms[j] is DeleteValue ==> j > 0 && ms[j - 1] is DeleteWrite
            && ms[j]->DeleteValue_start_ts == s.writes[(k, ms[j - 1]->DeleteWrite_commit_ts)].start_ts
}

/// `c` is the oldest commit timestamp of `k`.
pub open spec fn oldest_version(w: Map<(Seq<u8>, u64), WriteView>, k: Seq<u8>, c: u64) -> bool {
    &&& w.contains_key((k, c))
    &&& forall|c2: u64| #[trigger] w.contains_key((k, c2)) ==> c <= c2
}

/// From index `m` on, `ms` holds only changes made for version `c` of `k`,
/// or the deletion of the record at `kp`.
#[verifier::opaque]
pub open spec fn version_tail(s: SnapshotView, k: Seq<u8>, ms: Seq<ModifyView>, m: int, c: u64, kp: Option<u64>) -> bool {
    forall|j: int|
        m <= j < ms.len() ==> #[trigger] ms[j] == ModifyView::DeleteWrite { key: k, commit_ts: c } || ms[j]
            == ModifyView::DeleteValue { key: k, start_ts: s.writes[(k, c)].start_ts } || (kp is Some && ms[j]
            == ModifyView::DeleteWrite { key: k, commit_ts: kp.unwrap() })
}

/// No record deletion among `ms` is of the keep point `kp` where it is a delete.
#[verifier::opaque]
pub open spec fn no_kp_delete(s: SnapshotView, k: Seq<u8>, kp: Option<u64>, ms: Seq<ModifyView>) -> bool {
    forall|i: int|
        0 <= i < ms.len() && #[trigger] ms[i] is DeleteWrite ==> !(kp == Some(ms[i]->DeleteWrite_commit_ts)
            && s.writes[(k, ms[i]->DeleteWrite_commit_ts)].write_type == WriteType::Delete)
}

proof fn lemma_fresh_empty(s: SnapshotView, k: Seq<u8>, sp: u64, kp: Option<u64>, lo: int)
    ensures
        dw_distinct(Seq::<ModifyView>::empty()),
        dw_above(Seq::<ModifyView>::empty(), lo),
        dv_paired(s, k, sp, Seq::<ModifyView>::empty()),
        no_kp_delete(s, k, kp, Seq::<ModifyView>::empty()),
        count_dw(Seq::<ModifyView>::empty()) == 0,
{
    reveal(dw_distinct);
    reveal(dv_paired);
    reveal(no_kp_delete);
    reveal(dw_above);
}

/// Record deletions above `lo` are above any lower bound too.
proof fn lemma_dw_above_lower(f: Seq<ModifyView>, lo: int, lo2: int)
    requires
        dw_above(f, lo),
        lo2 <= lo,
    ensures
        dw_above(f, lo2),
{
    reveal(dw_above);
}

/// An empty tail holds of any version.
proof fn lemma_tail_empty(s: SnapshotView, k: Seq<u8>, f: Seq<ModifyView>, c: u64)
    ensures
        version_tail(s, k, f, f.len() as int, c, None),
{
    reveal(version_tail);
}

/// A tail of version `c` alone is also a tail with the keep point.
proof fn lemma_tail_widen(s: SnapshotView, k: Seq<u8>, f: Seq<ModifyView>, m: int, c: u64, kp: Option<u64>)
    requires
        version_tail(s, k, f, m, c, None),
    ensures
        version_tail(s, k, f, m, c, kp),
{
    reveal(version_tail);
}

proof fn lemma_push_same(f: Seq<ModifyView>, x: ModifyView)
    ensures
        forall|i: int| 0 <= i < f.len() ==> #[trigger] f.push(x)[i] == f[i],
        f.push(x)[f.len() as int] == x,
        f.push(x).len() == f.len() + 1,
{
}

#[verifier::rlimit(100)]
#[verifier::spinoff_prover]
proof fn lemma_push_dw_distinct(s: SnapshotView, k: Seq<u8>, kp: Option<u64>, f: Seq<ModifyView>, c: u64, lo: int)
    requires
        c <= lo,
        dw_distinct(f),
        dw_above(f, lo),
        no_kp_delete(s, k, kp, f),
        !(kp == Some(c) && s.writes[(k, c)].write_type == WriteType::Delete),
    ensures
        ({
            let g = f.push(ModifyView::DeleteWrite { key: k, commit_ts: c });
            &&& dw_distinct(g)
            &&& no_kp_delete(s, k, kp, g)
        }),
{
    let x = ModifyView::DeleteWrite { key: k, commit_ts: c };
    let g = f.push(x);
    lemma_push_same(f, x);
    reveal(no_kp_delete);
    reveal(dw_distinct);
    reveal(dw_above);
    assert forall|i: int, j: int|
        #![trigger g[i], g[j]]
        0 <= i < j < g.len() && g[i] is DeleteWrite && g[j] is DeleteWrite implies g[i]->DeleteWrite_commit_ts
        != g[j]->DeleteWrite_commit_ts by {
        assert(g[i] == f[i]);
        if j < f.len() {
            assert(g[j] == f[j]);
        }
    }
    assert forall|i: int| 0 <= i < g.len() && #[trigger] g[i] is DeleteWrite implies !(kp == Some(g[i]->DeleteWrite_commit_ts)
        && s.writes[(k, g[i]->DeleteWrite_commit_ts)].write_type == WriteType::Delete) by {
        if i < f.len() {
            assert(g[i] == f[i]);
        }
    }
}

#[verifier::rlimit(100)]
#[verifier::spinoff_prover]
proof fn lemma_push_dw(s: SnapshotView, k: Seq<u8>, sp: u64, kp: Option<u64>, f: Seq<ModifyView>, c: u64, lo: int)
    requires
        c <= lo,
        dw_distinct(f),
        dw_above(f, lo),
        dv_paired(s, k, sp, f),
        no_kp_delete(s, k, kp, f),
        !(kp == Some(c) && s.writes[(k, c)].write_type == WriteType::Delete),
    ensures
        ({
            let g = f.push(ModifyView::DeleteWrite { key: k, commit_ts: c });
            &&& dw_distinct(g)
            &&& dw_above(g, c - 1)
            &&& dv_paired(s, k, sp, g)
            &&& no_kp_delete(s, k, kp, g)
            &&& count_dw(g) == count_dw(f) + 1
        }),
{
    let x = ModifyView::DeleteWrite { key: k, commit_ts: c };
    let g = f.push(x);
    lemma_push_dw_distinct(s, k, kp, f, c, lo);
    lemma_count_dw_push(f, x);
    lemma_push_same(f, x);
    reveal(dv_paired);
    reveal(dw_above);
    assert forall|i: int| 0 <= i < g.len() && #[trigger] g[i] is DeleteWrite implies g[i]->DeleteWrite_commit_ts > c - 1 by {
        if i < f.len() {
            assert(g[i] == f[i]);
        }
    }
    assert forall|j: int| 0 <= j < g.len() && #[trigger] g[j] is DeleteValue implies j > 0 && g[j - 1] is DeleteWrite
        && g[j]->DeleteValue_start_ts == s.writes[(k, g[j - 1]->DeleteWrite_commit_ts)].start_ts by {
        assert(g[j] == f[j]);
        assert(g[j - 1] == f[j - 1]);
    }
}

#[verifier::rlimit(100)]
#[verifier::spinoff_prover]
proof fn lemma_push_dv(s: SnapshotView, k: Seq<u8>, sp: u64, kp: Option<u64>, f: Seq<ModifyView>, c: u64, lo: int)
    requires
        f.len() > 0,
        f.last() == (ModifyView::DeleteWrite { key: k, commit_ts: c }),
        gc_deletes_value(s, k, sp, c),
        dw_distinct(f),
        dw_above(f, lo),
        dv_paired(s, k, sp, f),
        no_kp_delete(s, k, kp, f),
    ensures
        ({
            let g = f.push(ModifyView::DeleteValue { key: k, start_ts: s.writes[(k, c)].start_ts });
            &&& dw_distinct(g)
            &&& dw_above(g, lo)
            &&& dv_paired(s, k, sp, g)
            &&& no_kp_delete(s, k, kp, g)
            &&& count_dw(g) == count_dw(f)
        }),
{
    let x = ModifyView::DeleteValue { key: k, start_ts: s.writes[(k, c)].start_ts };
    lemma_count_dw_push(f, x);
    lemma_push_dv_distinct(s, k, kp, f, x, lo);
    lemma_push_dv_paired(s, k, sp, f, c);
}

#[verifier::rlimit(100)]
#[verifier::spinoff_prover]
proof fn lemma_push_dv_distinct(s: SnapshotView, k: Seq<u8>, kp: Option<u64>, f: Seq<ModifyView>, x: ModifyView, lo: int)
    requires
        x is DeleteValue,
        dw_distinct(f),
        dw_above(f, lo),
        no_kp_delete(s, k, kp, f),
    ensures
        dw_distinct(f.push(x)),
        dw_above(f.push(x), lo),
        no_kp_delete(s, k, kp, f.push(x)),
{
    let g = f.push(x);
    reveal(no_kp_delete);
    reveal(dw_distinct);
    reveal(dw_above);
    assert forall|i: int| 0 <= i < g.len() && #[trigger] g[i] is DeleteWrite implies i < f.len() && g[i] == f[i] by {}
}

#[verifier::rlimit(100)]
#[verifier::spinoff_prover]
proof fn lemma_push_dv_paired(s: SnapshotView, k: Seq<u8>, sp: u64, f: Seq<ModifyView>, c: u64)
    requires
        f.len() > 0,
        f.last() == (ModifyView::DeleteWrite { key: k, commit_ts: c }),
        dv_paired(s, k, sp, f),
    ensures
        dv_paired(s, k, sp, f.push(ModifyView::DeleteValue { key: k, start_ts: s.writes[(k, c)].start_ts })),
{
    let x = ModifyView::DeleteValue { key: k, start_ts: s.writes[(k, c)].start_ts };
    let g = f.push(x);
    reveal(dv_paired);
    assert(f[f.len() - 1] == f.last());
    assert forall|j: int| 0 <= j < g.len() && #[trigger] g[j] is DeleteValue implies j > 0 && g[j - 1] is DeleteWrite
        && g[j]->DeleteValue_start_ts == s.writes[(k, g[j - 1]->DeleteWrite_commit_ts)].start_ts by {
        assert(g[j - 1] == f[j - 1]);
        if j < f.len() {
            assert(g[j] == f[j]);
        }
    }
}

/// The deferred deletion of a delete keep point keeps the record deletions
/// distinct and leaves the value deletions paired.
#[verifier::rlimit(100)]
#[verifier::spinoff_prover]
proof fn lemma_push_final(s: SnapshotView, k: Seq<u8>, sp: u64, kp: Option<u64>, f: Seq<ModifyView>, c: u64)
    requires
        kp == Some(c),
        s.writes[(k, c)].write_type == WriteType::Delete,
        dw_distinct(f),
        dv_paired(s, k, sp, f),
        no_kp_delete(s, k, kp, f),
    ensures
        ({
            let g = f.push(ModifyView::DeleteWrite { key: k, commit_ts: c });
            &&& dw_distinct(g)
            &&& dv_paired(s, k, sp, g)
        }),
{
    lemma_push_final_distinct(s, k, kp, f, c);
    lemma_push_dw_paired(s, k, sp, f, c);
}

#[verifier::rlimit(100)]
#[verifier::spinoff_prover]
proof fn lemma_push_final_distinct(s: SnapshotView, k: Seq<u8>, kp: Option<u64>, f: Seq<ModifyView>, c: u64)
    requires
        kp == Some(c),
        s.writes[(k, c)].write_type == WriteType::Delete,
        dw_distinct(f),
        no_kp_delete(s, k, kp, f),
    ensures
        dw_distinct(f.push(ModifyView::DeleteWrite { key: k, commit_ts: c })),
{
    let x = ModifyView::DeleteWrite { key: k, commit_ts: c };
    let g = f.push(x);
    reveal(no_kp_delete);
    reveal(dw_distinct);
    assert forall|i: int, j: int|
        #![trigger g[i], g[j]]
        0 <= i < j < g.len() && g[i] is DeleteWrite && g[j] is DeleteWrite implies g[i]->DeleteWrite_commit_ts
        != g[j]->DeleteWrite_commit_ts by {
        assert(g[i] == f[i]);
        if j < f.len() {
            assert(g[j] == f[j]);
        }
    }
}

#[verifier::rlimit(100)]
#[verifier::spinoff_prover]
proof fn lemma_push_dw_paired(s: SnapshotView, k: Seq<u8>, sp: u64, f: Seq<ModifyView>, c: u64)
    requires
        dv_paired(s, k, sp, f),
    ensures
        dv_paired(s, k, sp, f.push(ModifyView::DeleteWrite { key: k, commit_ts: c })),
{
    let x = ModifyView::DeleteWrite { key: k, commit_ts: c };
    let g = f.push(x);
    reveal(dv_paired);
    assert forall|j: int| 0 <= j < g.len() && #[trigger] g[j] is DeleteValue implies j > 0 && g[j - 1] is DeleteWrite
        && g[j]->DeleteValue_start_ts == s.writes[(k, g[j - 1]->DeleteWrite_commit_ts)].start_ts by {
        assert(g[j] == f[j]);
        assert(g[j - 1] == f[j - 1]);
    }
}

/// Appending a change allowed in the tail keeps the tail and the prefix.
proof fn lemma_push_tail(s: SnapshotView, k: Seq<u8>, f: Seq<ModifyView>, m: int, c: u64, kp: Option<u64>, x: ModifyView)
    requires
        0 <= m <= f.len(),
        version_tail(s, k, f, m, c, None),
        x == (ModifyView::DeleteWrite { key: k, commit_ts: c }) || x == (ModifyView::DeleteValue {
            key: k,
            start_ts: s.writes[(k, c)].start_ts,
        }) || (kp is Some && x == ModifyView::DeleteWrite { key: k, commit_ts: kp.unwrap() }),
    ensures
        version_tail(s, k, f.push(x), m, c, kp),
        f.push(x).subrange(0, m) == f.subrange(0, m),
{
    lemma_push_same(f, x);
    reveal(version_tail);
    assert(f.push(x).subrange(0, m) =~= f.subrange(0, m));
}

/// Every version of `k` is at or below `lo`.
#[verifier::opaque]
pub open spec fn versions_at_most(w: Map<(Seq<u8>, u64), WriteView>, k: Seq<u8>, lo: int) -> bool {
    forall|c: u64| #[trigger] w.contains_key((k, c)) ==> c <= lo
}

/// Every version of `k` above `lo` is at or above `c`.
#[verifier::opaque]
pub open spec fn versions_above_from(w: Map<(Seq<u8>, u64), WriteView>, k: Seq<u8>, lo: int, c: u64) -> bool {
    forall|c2: u64| #[trigger] w.contains_key((k, c2)) && c2 > lo ==> c2 >= c
}

/// The number of record deletions among `ms`.
pub open spec fn count_dw(ms: Seq<ModifyView>) -> nat
    decreases ms.len(),
{
    if ms.len() == 0 {
        0
    } else {
        count_dw(ms.drop_last()) + if ms.last() is DeleteWrite {
            1nat
        } else {
            0nat
        }
    }
}

/// Every record deletion among `ms` is of a commit timestamp above `lo`.
#[verifier::opaque]
pub open spec fn dw_above(ms: Seq<ModifyView>, lo: int) -> bool {
    forall|i: int| 0 <= i < ms.len() && #[trigger] ms[i] is DeleteWrite ==> ms[i]->DeleteWrite_commit_ts > lo
}

/// No two record deletions among `ms` are of the same commit timestamp.
#[verifier::opaque]
pub open spec fn dw_distinct(ms: Seq<ModifyView>) -> bool {
    forall|i: int, j: int|
        #![trigger ms[i], ms[j]]
        0 <= i < j < ms.len() && ms[i] is DeleteWrite && ms[j] is DeleteWrite ==> ms[i]->DeleteWrite_commit_ts
            != ms[j]->DeleteWrite_commit_ts
}

/// The number of entries of key `k` committed above `lo`.
pub open spec fn count_key_above(e: Seq<Entry<Write>>, k: Seq<u8>, lo: int) -> nat
    decreases e.len(),
{
    if e.len() == 0 {
        0
    } else {
        count_key_above(e.drop_last(), k, lo) + if e.last().key@ == k && e.last().ts > lo {
            1nat
        } else {
            0nat
        }
    }
}

proof fn lemma_count_zero(e: Seq<Entry<Write>>, k: Seq<u8>, lo: int)
    requires
        lo >= u64::MAX,
    ensures
        count_key_above(e, k, lo) == 0,
    decreases e.len(),
{
    if e.len() > 0 {
        lemma_count_zero(e.drop_last(), k, lo);
    }
}

/// After appending one change, the fresh changes are the earlier ones and it.
proof fn lemma_fresh_push(a: Seq<ModifyView>, b: Seq<ModifyView>, n0: int)
    requires
        0 <= n0 <= a.len(),
        b.len() == a.len() + 1,
        b.subrange(0, a.len() as int) == a,
    ensures
        b.subrange(n0, b.len() as int) == a.subrange(n0, a.len() as int).push(b[a.len() as int]),
        b.subrange(n0, b.len() as int).drop_last() == a.subrange(n0, a.len() as int),
        b.subrange(n0, b.len() as int).last() == b[a.len() as int],
{
    assert(b.subrange(n0, b.len() as int) =~= a.subrange(n0, a.len() as int).push(b[a.len() as int]));
    assert(b.subrange(n0, b.len() as int).drop_last() =~= a.subrange(n0, a.len() as int));
}

proof fn lemma_count_dw_push(a: Seq<ModifyView>, m: ModifyView)
    ensures
        count_dw(a.push(m)) == count_dw(a) + if m is DeleteWrite {
            1nat
        } else {
            0nat
        },
{
    assert(a.push(m).drop_last() =~= a);
    assert(a.push(m).last() == m);
}

proof fn lemma_count_key_le(e: Seq<Entry<Write>>, k: Seq<u8>, lo: int)
    ensures
        count_key_above(e, k, lo) <= e.len(),
    decreases e.len(),
{
    if e.len() > 0 {
        lemma_count_key_le(e.drop_last(), k, lo);
    }
}

/// Without entries of `k` in `(a, b]` the counts above `a` and `b` agree.
proof fn lemma_count_key_gap(e: Seq<Entry<Write>>, k: Seq<u8>, a: int, b: int)
    requires
        a <= b,
        forall|i: int| 0 <= i < e.len() && (#[trigger] e[i]).key@ == k ==> !(a < e[i].ts <= b),
    ensures
        count_key_above(e, k, a) == count_key_above(e, k, b),
    decreases e.len(),
{
    if e.len() > 0 {
        let d = e.drop_last();
        assert forall|i: int| 0 <= i < d.len() && (#[trigger] d[i]).key@ == k implies !(a < d[i].ts <= b) by {
            assert(d[i] == e[i]);
        }
        lemma_count_key_gap(d, k, a, b);
        assert(e.last() == e[e.len() - 1]);
    }
}

/// One entry of `k` at `c` and none in `(c, lo]` add one to the count.
proof fn lemma_count_key_step(e: Seq<Entry<Write>>, k: Seq<u8>, c: u64, lo: int, j: int)
    requires
        c <= lo,
        0 <= j < e.len(),
        e[j].key@ == k && e[j].ts == c,
        forall|i: int| 0 <= i < e.len() && i != j ==> !((#[trigger] e[i]).key@ == k && e[i].ts == c),
        forall|i: int| 0 <= i < e.len() && (#[trigger] e[i]).key@ == k ==> !(c < e[i].ts <= lo),
    ensures
        count_key_above(e, k, c - 1) == count_key_above(e, k, lo) + 1,
    decreases e.len(),
{
    let d = e.drop_last();
    let n = e.len() - 1;
    assert(e.last() == e[n]);
    if j == n {
        assert forall|i: int| 0 <= i < d.len() && (#[trigger] d[i]).key@ == k implies !(c - 1 < d[i].ts <= lo) by {
            assert(d[i] == e[i]);
        }
        lemma_count_key_gap(d, k, c - 1, lo);
    } else {
        assert forall|i: int| 0 <= i < d.len() && i != j implies !((#[trigger] d[i]).key@ == k && d[i].ts == c) by {
            assert(d[i] == e[i]);
        }
        assert forall|i: int| 0 <= i < d.len() && (#[trigger] d[i]).key@ == k implies !(c < d[i].ts <= lo) by {
            assert(d[i] == e[i]);
        }
        assert(d[j] == e[j]);
        lemma_count_key_step(d, k, c, lo, j);
    }
}

/// A change that GC of `k` below `sp` may make.
pub open spec fn gc_mod(s: SnapshotView, k: Seq<u8>, sp: u64, m: ModifyView) -> bool {
    match m {
        ModifyView::DeleteWrite { key, commit_ts } => key == k && gc_deletes_write(s, k, sp, commit_ts),
        ModifyView::DeleteValue { key, start_ts } => key == k && exists|c: u64|
            #[trigger] gc_deletes_value(s, k, sp, c) && s.writes[(k, c)].start_ts == start_ts,
        _ => false,
    }
}

/// `m` is among the changes of `ms` from index `from` on.
pub open spec fn has_mod(ms: Seq<ModifyView>, from: int, m: ModifyView) -> bool {
    exists|j: int| from <= j < ms.len() && ms[j] == m
}

proof fn lemma_mods_grow(a: Seq<ModifyView>, b: Seq<ModifyView>, n0: int)
    requires
        a.len() <= b.len(),
        b.subrange(0, a.len() as int) == a,
        0 <= n0 <= a.len(),
    ensures
        forall|m: ModifyView| has_mod(a, n0, m) ==> has_mod(b, n0, m),
{
    assert forall|m: ModifyView| has_mod(a, n0, m) implies has_mod(b, n0, m) by {
        let j = choose|j: int| n0 <= j < a.len() && a[j] == m;
        assert(b[j] == b.subrange(0, a.len() as int)[j]);
    }
}

proof fn lemma_subrange_appended(start: MvccTxn, before: MvccTxn, after: MvccTxn, n0: int)
    requires
        n0 == start.mods().len(),
        before.mods().len() >= n0,
        before.mods().subrange(0, n0) == start.mods(),
        before.appended_core(start, before.mods().subrange(n0, before.mods().len() as int)),
        exists|ms: Seq<ModifyView>| after.appended_core(before, ms),
    ensures
        after.mods().len() >= before.mods().len(),
        after.mods().subrange(0, before.mods().len() as int) == before.mods(),
        after.mods().subrange(0, n0) == start.mods(),
        after.appended_core(start, after.mods().subrange(n0, after.mods().len() as int)),
{
    let ms = choose|ms: Seq<ModifyView>| after.appended_core(before, ms);
    let a = before.mods().subrange(n0, before.mods().len() as int);
    assert(after.mods() == before.mods() + ms);
    assert(after.mods().subrange(0, before.mods().len() as int) =~= before.mods());
    assert(after.mods().subrange(0, n0) =~= start.mods());
    assert(after.mods().subrange(n0, after.mods().len() as int) =~= a + ms);
    assert(before.mods() == start.mods() + a);
    assert(after.mods() =~= start.mods() + (a + ms));
    lemma_size_after_concat(start.write_size, a, ms);
}


/// The lock that acquiring a pessimistic lock leaves.
pub open spec fn pessimistic_lock_view(primary: Seq<u8>, st: u64, ttl: u64, for_update_ts: u64, min_commit_ts: u64) -> DaggerView {
    DaggerView {
        lock_type: LockType::Pessimistic,
        primary,
        ts: st,
        ttl,
        short_value: None,
        for_update_ts,
        txn_size: 0,
        min_commit_ts,
        use_async_commit: false,
        secondaries: Seq::empty(),
        rollback_ts: Seq::empty(),
    }
}

/// The lock that acquiring a pessimistic lock leaves.
pub fn pessimistic_lock(primary: &Vec<u8>, start_ts: u64, lock_ttl: u64, for_update_ts: u64, min_commit_ts: u64) -> (r:
    Dagger)
    ensures
        r@ == pessimistic_lock_view(primary@, start_ts, lock_ttl, for_update_ts, min_commit_ts),
{
    Dagger::new(
        LockType::Pessimistic,
        primary.clone(),
        start_ts,
        lock_ttl,
        None,
        for_update_ts,
        0,
        min_commit_ts,
    )
}

/// Whether the newest record of `k` at or below `st` belongs to the
/// transaction started at `st`.
pub open spec fn own_record_below(s: SnapshotView, k: Seq<u8>, st: u64) -> bool {
    match newest_commit(s.writes, k, Pick::AtOrBelow(st)) {
        Some(c) => s.writes[(k, c)].start_ts == st,
        None => false,
    }
}

/// What a read just below `c` sees.
pub open spec fn read_below(s: SnapshotView, k: Seq<u8>, c: u64) -> Result<Option<Seq<u8>>, ()> {
    if c == 0 {
        Ok(None)
    } else {
        read_spec(s, k, (c - 1) as u64)
    }
}

/// Whether a missing pessimistic lock on `k` may be replaced by a prewrite:
/// pipelined locking is on and no record is committed at or after `st`.
pub open spec fn amendable(s: SnapshotView, k: Seq<u8>, st: u64, pipelined: bool) -> bool {
    pipelined && match newest_commit(s.writes, k, Pick::AtOrBelow(u64::MAX)) {
        Some(c) => c < st,
        None => true,
    }
}

/// Whether the lock `l` is still alive at `current_ts`: the physical part of
/// its start timestamp plus its time to live reaches that of `current_ts`.
pub open spec fn lock_alive(l: DaggerView, current_ts: u64) -> bool {
    (l.ts >> 18u64) + l.ttl >= (current_ts >> 18u64)
}

fn lock_alive_exec(l: &Dagger, current_ts: u64) -> (r: bool)
    ensures
        r == lock_alive(l@, current_ts),
{
    let lp = l.ts >> 18u64;
    let cp = current_ts >> 18u64;
    if l.ttl > u64::MAX - lp {
        true
    } else {
        lp + l.ttl >= cp
    }
}

/// Where this transaction's lock is on `k`, no record of the transaction's
/// outcome sits beside it.
pub open spec fn own_lock_unrecorded(s: SnapshotView, k: Seq<u8>, st: u64) -> bool {
    s.locks.contains_key((k, LOCK_TS)) && s.locks[(k, LOCK_TS)].ts == st ==> record_spec(s, k, st) is NotFound
}

/// The record that committing lock `l` at `commit_ts` writes.
pub open spec fn commit_write(l: DaggerView, commit_ts: u64) -> WriteView {
    WriteView {
        write_type: write_type_of(l.lock_type),
        start_ts: l.ts,
        short_value: l.short_value,
        has_overlapped_rollback: l.rollback_ts.contains(commit_ts),
    }
}

/// The write type that committing a lock of type `t` records.
pub open spec fn write_type_of(t: LockType) -> WriteType {
    match t {
        LockType::Put => WriteType::Put,
        LockType::Delete => WriteType::Delete,
        _ => WriteType::Dagger,
    }
}

/// The deletion of the newest record of `k` at or below `st`, where it is an
/// unprotected rollback.
pub open spec fn collapse_mods(s: SnapshotView, k: Seq<u8>, st: u64) -> Seq<ModifyView> {
    match newest_commit(s.writes, k, Pick::AtOrBelow(st)) {
        Some(c) => if s.writes[(k, c)].write_type == WriteType::Rollback && !s.writes[(
            k,
            c,
        )].is_protected() {
            seq![ModifyView::DeleteWrite { key: k, commit_ts: c }]
        } else {
            Seq::empty()
        },
        None => Seq::empty(),
    }
}

/// The rewrite of another transaction's lock `l` on `k` that records the
/// protected rollback of the transaction started at `st`.
pub open spec fn mark_mods(k: Seq<u8>, l: DaggerView, st: u64, is_protected: bool) -> Seq<ModifyView> {
    if is_protected && st >= l.min_commit_ts && l.use_async_commit {
        seq![ModifyView::PutLock { key: k, lock: DaggerView { rollback_ts: l.rollback_ts.push(st), ..l } }]
    } else {
        Seq::empty()
    }
}

/// The changes of rolling back the own lock `l` on `k`.
pub open spec fn rollback_lock_mods(
    s: SnapshotView,
    k: Seq<u8>,
    l: DaggerView,
    is_pessimistic_txn: bool,
    overlapped: Option<WriteView>,
    st: u64,
    collapse: bool,
) -> Seq<ModifyView> {
    let protected = is_pessimistic_txn && k == l.primary;
    (if l.short_value is None && l.lock_type == LockType::Put {
        seq![ModifyView::DeleteValue { key: k, start_ts: l.ts }]
    } else {
        Seq::empty()
    }) + (match make_rollback_spec(st, protected, overlapped) {
        Some(w) => seq![ModifyView::PutWrite { key: k, commit_ts: st, write: w }],
        None => Seq::empty(),
    }) + (if collapse {
        collapse_mods(s, k, st)
    } else {
        Seq::empty()
    }) + seq![ModifyView::DeleteLock { key: k }]
}

/// The changes of recording the rollback of the transaction started at `st`
/// on `k` where its lock is missing.
pub open spec fn missing_lock_mods(
    s: SnapshotView,
    k: Seq<u8>,
    st: u64,
    mismatch: Option<DaggerView>,
    protected: bool,
    overlapped: Option<WriteView>,
    collapse: bool,
) -> Seq<ModifyView> {
    (if collapse {
        collapse_mods(s, k, st)
    } else {
        Seq::empty()
    }) + (match mismatch {
        Some(l) => if overlapped is None {
            mark_mods(k, l, st, protected)
        } else {
            Seq::empty()
        },
        None => Seq::empty(),
    }) + (match make_rollback_spec(st, protected, overlapped) {
        Some(w) => seq![ModifyView::PutWrite { key: k, commit_ts: st, write: w }],
        None => Seq::empty(),
    })
}

/// The changes of rolling back the transaction started at `st` on `k`.
pub open spec fn rollback_mods(s: SnapshotView, k: Seq<u8>, st: u64, collapse: bool) -> Seq<ModifyView> {
    let own = s.locks.contains_key((k, LOCK_TS)) && s.locks[(k, LOCK_TS)].ts == st;
    let l = s.locks[(k, LOCK_TS)];
    let rec = record_spec(s, k, st);
    let other = if s.locks.contains_key((k, LOCK_TS)) && !own {
        Some(l)
    } else {
        None
    };
    if own && rec is NotFound {
        rollback_lock_mods(s, k, l, l.for_update_ts != 0, rec->NotFound_overlapped_write, st, collapse)
    } else if own {
        Seq::empty()
    } else if rec is NotFound {
        missing_lock_mods(s, k, st, other, false, rec->NotFound_overlapped_write, collapse)
    } else {
        Seq::empty()
    }
}

/// Every rollback record of `k` sits at its own start timestamp, as the
/// rollbacks of this engine write them.
pub open spec fn rollbacks_self_keyed(s: SnapshotView, k: Seq<u8>) -> bool {
    forall|c: u64|
        #![trigger s.writes[(k, c)]]
        s.writes.contains_key((k, c)) && s.writes[(k, c)].write_type == WriteType::Rollback ==> s.writes[(
            k,
            c,
        )].start_ts == c
}

/// Applying `a` then `b` is applying `a + b`.
pub proof fn lemma_apply_concat(s: SnapshotView, a: Seq<ModifyView>, b: Seq<ModifyView>)
    ensures
        apply_modifies(s, a + b) == apply_modifies(apply_modifies(s, a), b),
    decreases b.len(),
{
    if b.len() == 0 {
        assert(a + b =~= a);
    } else {
        assert((a + b).drop_last() =~= a + b.drop_last());
        assert((a + b).last() == b.last());
        lemma_apply_concat(s, a, b.drop_last());
    }
}

proof fn lemma_apply_one(s: SnapshotView, m: ModifyView)
    ensures
        apply_modifies(s, seq![m]) == apply_modify(s, m),
{
    assert(seq![m].drop_last() =~= Seq::<ModifyView>::empty());
    assert(seq![m].last() == m);
    assert(apply_modifies(s, Seq::<ModifyView>::empty()) == s);
}

proof fn lemma_apply_opt(s: SnapshotView, a: Seq<ModifyView>)
    requires
        a.len() <= 1,
    ensures
        a.len() == 0 ==> apply_modifies(s, a) == s,
        a.len() == 1 ==> apply_modifies(s, a) == apply_modify(s, a[0]),
{
    if a.len() == 1 {
        assert(a =~= seq![a[0]]);
        lemma_apply_one(s, a[0]);
    }
}

/// A rollback done twice on a key leaves the store as the first one left it:
/// on the store after the first, the second changes nothing. This holds
/// where the rollback records of the key sit at their own start timestamps,
/// as this engine writes them.
pub proof fn lemma_rollback_idempotent(s0: SnapshotView, k: Seq<u8>, st: u64, collapse: bool)
    requires
        own_lock_unrecorded(s0, k, st),
        rollbacks_self_keyed(s0, k),
    ensures
        ({
            let s1 = apply_modifies(s0, rollback_mods(s0, k, st, collapse));
            &&& own_lock_unrecorded(s1, k, st)
            &&& rollback_mods(s1, k, st, collapse) == Seq::<ModifyView>::empty()
            &&& apply_modifies(s1, rollback_mods(s1, k, st, collapse)) == s1
        }),
{
    let w0 = s0.writes;
    let own = s0.locks.contains_key((k, LOCK_TS)) && s0.locks[(k, LOCK_TS)].ts == st;
    let l = s0.locks[(k, LOCK_TS)];
    let rec = record_spec(s0, k, st);
    let p = Pick::RecordOf(st);
    let q = Pick::AtOrBelow(st);
    let m1 = rollback_mods(s0, k, st, collapse);
    let s1 = apply_modifies(s0, m1);
    match newest_commit(w0, k, p) {
        Some(c) => {
            assert(exists|d: u64| newest(w0, k, p, d));
            assert(newest(w0, k, p, c));
        },
        None => lemma_no_newest(w0, k, p),
    }
    if !own && !(rec is NotFound) {
        assert(m1 =~= Seq::<ModifyView>::empty());
        assert(s1 == s0);
    } else {
        let ow = rec->NotFound_overlapped_write;
        let protected = own && l.for_update_ts != 0 && k == l.primary;
        let a1 = if own && l.short_value is None && l.lock_type == LockType::Put {
            seq![ModifyView::DeleteValue { key: k, start_ts: l.ts }]
        } else {
            Seq::<ModifyView>::empty()
        };
        let a2 = match make_rollback_spec(st, protected, ow) {
            Some(w) => seq![ModifyView::PutWrite { key: k, commit_ts: st, write: w }],
            None => Seq::<ModifyView>::empty(),
        };
        let a3 = if collapse {
            collapse_mods(s0, k, st)
        } else {
            Seq::<ModifyView>::empty()
        };
        let a4 = if own {
            seq![ModifyView::DeleteLock { key: k }]
        } else {
            Seq::<ModifyView>::empty()
        };
        // The newest record at or below `st`, which a collapse may delete.
        let c0 = newest_commit(w0, k, q);
        match c0 {
            Some(c) => {
                assert(exists|d: u64| newest(w0, k, q, d));
                assert(newest(w0, k, q, c));
            },
            None => {},
        }
        match ow {
            Some(w) => {
                assert(w0.contains_key((k, st)) && w0[(k, st)] == w);
                assert(newest(w0, k, q, st));
                lemma_newest_unique(w0, k, q, st);
                assert(a3 =~= Seq::<ModifyView>::empty());
            },
            None => {
                assert(!w0.contains_key((k, st))) by {
                    if w0.contains_key((k, st)) {
                        assert(selected(p, st, w0[(k, st)]));
                    }
                }
            },
        }
        // The collapse deletes nothing at or above `st`.
        assert(a3.len() <= 1);
        assert(a3.len() == 1 ==> (a3[0] matches ModifyView::DeleteWrite { key: kk, commit_ts: cc } && kk == k && cc < st));
        if own {
            assert(m1 == a1 + a2 + a3 + a4);
        } else {
            let mk = match (if s0.locks.contains_key((k, LOCK_TS)) && !own {
                Some(l)
            } else {
                None
            }) {
                Some(ll) => if ow is None {
                    mark_mods(k, ll, st, false)
                } else {
                    Seq::<ModifyView>::empty()
                },
                None => Seq::<ModifyView>::empty(),
            };
            assert(mk =~= Seq::<ModifyView>::empty());
            assert(m1 == a3 + mk + a2);
            assert(m1 =~= a3 + a2);
        }
        let t1 = apply_modifies(s0, a1);
        lemma_apply_opt(s0, a1);
        if own {
            lemma_apply_concat(s0, a1, a2);
            lemma_apply_concat(s0, a1 + a2, a3);
            lemma_apply_concat(s0, a1 + a2 + a3, a4);
            let t2 = apply_modifies(t1, a2);
            let t3 = apply_modifies(t2, a3);
            lemma_apply_opt(t1, a2);
            lemma_apply_opt(t2, a3);
            lemma_apply_opt(t3, a4);
            assert(s1 == apply_modifies(t3, a4));
        } else {
            lemma_apply_concat(s0, a3, a2);
            let t3 = apply_modifies(s0, a3);
            lemma_apply_opt(s0, a3);
            lemma_apply_opt(t3, a2);
            assert(s1 == apply_modifies(t3, a2));
        }
        let w1 = s1.writes;
        // Above `st` the records are as they were.
        assert(forall|c: u64| c > st ==> (#[trigger] w1.contains_key((k, c)) <==> w0.contains_key((k, c))));
        assert(forall|c: u64| c > st && w1.contains_key((k, c)) ==> #[trigger] w1[(k, c)] == w0[(k, c)]);
        // The lock of the transaction is gone; any other stays.
        assert(s1.locks.contains_key((k, LOCK_TS)) ==> s1.locks[(k, LOCK_TS)].ts != st);
        assert(w1.contains_key((k, st)));
        assert(newest(w1, k, p, st)) by {
            assert forall|c2: u64| #[trigger] w1.contains_key((k, c2)) && selected(p, c2, w1[(k, c2)]) implies c2 <= st by {
                if c2 > st {
                    assert(w0.contains_key((k, c2)) && w0[(k, c2)] == w1[(k, c2)]);
                }
            }
        }
        lemma_newest_unique(w1, k, p, st);
        match ow {
            Some(w) => {
                if !protected {
                    assert(w1[(k, st)] == w);
                    assert(newest(w1, k, q, st));
                    lemma_newest_unique(w1, k, q, st);
                    assert(collapse_mods(s1, k, st) =~= Seq::<ModifyView>::empty());
                }
            },
            None => {},
        }
        assert(rollback_mods(s1, k, st, collapse) =~= Seq::<ModifyView>::empty());
    }
}

/// What a prewrite of one mutation comes to.
pub enum PrewriteOutcome {
    /// An error other than `KeyIsLocked`; nothing is buffered.
    Failed,
    /// Another transaction's lock, reported with the given time to live;
    /// nothing is buffered.
    Locked(DaggerView, u64),
    /// Success with the returned timestamp and the buffered changes.
    Done(u64, Seq<ModifyView>),
}

/// The view of optional secondary keys.
pub open spec fn opt_secs(o: Option<Vec<Vec<u8>>>) -> Option<Seq<Seq<u8>>> {
    match o {
        Some(v) => Some(bytes_list(v@)),
        None => None,
    }
}

/// `r`, and `new` against `old`, are what outcome `o` of a prewrite of key
/// `k` says.
pub open spec fn outcome_holds(r: Result<u64, MvccError>, old: MvccTxn, new: MvccTxn, o: PrewriteOutcome, k: Seq<u8>) -> bool {
    match o {
        PrewriteOutcome::Failed => r is Err && !(r.unwrap_err() is KeyIsLocked) && new.appended(old, Seq::empty()),
        PrewriteOutcome::Locked(l, ttl) => (r matches Err(MvccError::KeyIsLocked(info)) && is_lock_info(info, l, k, ttl))
            && new.appended(old, Seq::empty()),
        PrewriteOutcome::Done(ts, ms) => r == Ok::<u64, MvccError>(ts) && new.appended_core(old, ms),
    }
}

/// The outcome of an optimistic prewrite of `m` on `s` by the transaction
/// started at `st`.
pub open spec fn prewrite_outcome(
    s: SnapshotView,
    st: u64,
    max_ts: u64,
    m: Mutation,
    primary: Seq<u8>,
    secs: Option<Seq<Seq<u8>>>,
    skip_constraint_check: bool,
    lock_ttl: u64,
    txn_size: u64,
    min_commit_ts: u64,
) -> PrewriteOutcome {
    let k = m.key_view();
    let nw = newest_commit(s.writes, k, Pick::AtOrBelow(u64::MAX));
    let w = s.writes[(k, nw.unwrap())];
    let checked = !skip_constraint_check && nw is Some;
    let conflict = checked && (nw.unwrap() > st || (nw.unwrap() == st && (w.write_type
        == WriteType::Rollback || w.has_overlapped_rollback)));
    let exists = checked && !conflict && m.should_not_exist_spec() && constraint_violated(s, k, w, nw.unwrap());
    let has_lock = s.locks.contains_key((k, LOCK_TS));
    let l = s.locks[(k, LOCK_TS)];
    let nl = prewrite_lock(m.lock_type_spec(), primary, st, lock_ttl, m.value_view(), 0, txn_size, min_commit_ts, secs, max_ts);
    if conflict || exists {
        PrewriteOutcome::Failed
    } else if m is CheckNotExists {
        PrewriteOutcome::Done(0, Seq::empty())
    } else if has_lock && l.ts != st {
        PrewriteOutcome::Locked(l, l.ttl)
    } else if has_lock && l.lock_type == LockType::Pessimistic {
        PrewriteOutcome::Failed
    } else if has_lock {
        PrewriteOutcome::Done(l.min_commit_ts, Seq::empty())
    } else {
        PrewriteOutcome::Done(
            if secs is Some {
                nl.min_commit_ts
            } else {
                0
            },
            prewrite_mods(k, nl, m.value_view(), st),
        )
    }
}

/// The outcome of a pessimistic prewrite of `m` on `s` by the transaction
/// started at `st`.
pub open spec fn pessimistic_outcome(
    s: SnapshotView,
    st: u64,
    max_ts: u64,
    m: Mutation,
    primary: Seq<u8>,
    secs: Option<Seq<Seq<u8>>>,
    is_pessimistic_lock: bool,
    lock_ttl: u64,
    for_update_ts: u64,
    txn_size: u64,
    min_commit_ts: u64,
    pipelined: bool,
) -> PrewriteOutcome {
    let k = m.key_view();
    let has_lock = s.locks.contains_key((k, LOCK_TS));
    let l = s.locks[(k, LOCK_TS)];
    let own_pessimistic = has_lock && l.ts == st && l.lock_type == LockType::Pessimistic;
    let ttl = if own_pessimistic && l.ttl > lock_ttl {
        l.ttl
    } else {
        lock_ttl
    };
    let mc = if own_pessimistic && l.min_commit_ts > min_commit_ts {
        l.min_commit_ts
    } else {
        min_commit_ts
    };
    let nl = prewrite_lock(m.lock_type_spec(), primary, st, ttl, m.value_view(), for_update_ts, txn_size, mc, secs, max_ts);
    if m is CheckNotExists {
        PrewriteOutcome::Failed
    } else if has_lock && l.ts != st {
        if is_pessimistic_lock {
            PrewriteOutcome::Failed
        } else {
            PrewriteOutcome::Locked(l, 0)
        }
    } else if has_lock && l.lock_type != LockType::Pessimistic {
        PrewriteOutcome::Done(l.min_commit_ts, Seq::empty())
    } else if !has_lock && is_pessimistic_lock && !amendable(s, k, st, pipelined) {
        PrewriteOutcome::Failed
    } else {
        PrewriteOutcome::Done(
            if secs is Some {
                nl.min_commit_ts
            } else {
                0
            },
            prewrite_mods(k, nl, m.value_view(), st),
        )
    }
}

/// Timestamps leave room for an async-commit min-commit timestamp.
pub open spec fn async_ready(max_ts: u64, start_ts: u64, for_update_ts: u64) -> bool {
    max_ts < u64::MAX && start_ts < u64::MAX && for_update_ts < u64::MAX
}

/// The min-commit timestamp of an async-commit lock: past every timestamp a
/// reader may have used, past the start and for-update timestamps, and no
/// lower than the one asked for.
pub open spec fn async_min_commit(min_commit_ts: u64, max_ts: u64, start_ts: u64, for_update_ts: u64) -> u64 {
    let base = if max_ts > start_ts {
        max_ts
    } else {
        start_ts
    };
    let base = if base > for_update_ts {
        base
    } else {
        for_update_ts
    };
    if base + 1 > min_commit_ts {
        (base + 1) as u64
    } else {
        min_commit_ts
    }
}

/// Whether a value is inlined in its lock or write record.
pub open spec fn is_short(v: Seq<u8>) -> bool {
    v.len() <= SHORT_VALUE_MAX_LEN
}

/// The lock that a prewrite leaves.
pub open spec fn prewrite_lock(
    lock_type: LockType,
    primary: Seq<u8>,
    start_ts: u64,
    ttl: u64,
    value: Option<Seq<u8>>,
    for_update_ts: u64,
    txn_size: u64,
    min_commit_ts: u64,
    secondaries: Option<Seq<Seq<u8>>>,
    max_ts: u64,
) -> DaggerView {
    DaggerView {
        lock_type,
        primary,
        ts: start_ts,
        ttl,
        short_value: match value {
            Some(v) => if is_short(v) {
                Some(v)
            } else {
                None
            },
            None => None,
        },
        for_update_ts,
        txn_size,
        min_commit_ts: match secondaries {
            Some(_) => async_min_commit(min_commit_ts, max_ts, start_ts, for_update_ts),
            None => min_commit_ts,
        },
        use_async_commit: secondaries is Some,
        secondaries: match secondaries {
            Some(v) => v,
            None => Seq::empty(),
        },
        rollback_ts: Seq::empty(),
    }
}

/// The changes of a prewrite that leaves lock `l` on `k`: the value where it
/// is too long to inline, then the lock.
pub open spec fn prewrite_mods(k: Seq<u8>, l: DaggerView, value: Option<Seq<u8>>, start_ts: u64) -> Seq<
    ModifyView,
> {
    let put_lock = seq![ModifyView::PutLock { key: k, lock: l }];
    match value {
        Some(v) => if is_short(v) {
            put_lock
        } else {
            seq![ModifyView::PutValue { key: k, start_ts, value: v }] + put_lock
        },
        None => put_lock,
    }
}

/// Whether the newest record `w` of `k`, committed at `c`, shows that `k`
/// exists: it is a put, or a lock or rollback record above a visible put.
pub open spec fn constraint_violated(s: SnapshotView, k: Seq<u8>, w: WriteView, c: u64) -> bool {
    w.write_type == WriteType::Put || ((w.write_type == WriteType::Rollback || w.write_type
        == WriteType::Dagger) && c > 0 && exists_at(s, k, (c - 1) as u64))
}

/// Appending nothing leaves the buffer as it was.
pub proof fn lemma_appended_nothing(t: MvccTxn)
    ensures
        t.appended(t, Seq::empty()),
{
    assert(t.mods() =~= t.mods() + Seq::<ModifyView>::empty());
}

/// The size after two lists appended one after the other.
pub proof fn lemma_size_after_concat(size: usize, a: Seq<ModifyView>, b: Seq<ModifyView>)
    ensures
        size_after(size, a + b) == size_after(size_after(size, a), b),
    decreases b.len(),
{
    if b.len() == 0 {
        assert(a + b =~= a);
    } else {
        assert((a + b).drop_last() =~= a + b.drop_last());
        assert((a + b).last() == b.last());
        lemma_size_after_concat(size, a, b.drop_last());
    }
}

} // verus!
