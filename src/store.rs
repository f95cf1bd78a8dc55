//! A snapshot of the three column families, the buffered mutations that a
//! transaction produces, and the reads that the transaction engine makes.
use vstd::prelude::*;
use crate::errors::{LockInfo, MvccError};
use crate::table::{bytes_eq, Table};
use crate::types::{opt_bytes, Dagger, DaggerView, LockType, Write, WriteType, WriteView};

verus! {

/// The timestamp under which the lock family stores its entries: a lock is
/// keyed by its raw key alone.
pub const LOCK_TS: u64 = 0;

/// An immutable point-in-time view of the store.
#[derive(Debug)]
pub struct Snapshot {
    /// Outstanding locks, keyed by (raw key, `LOCK_TS`).
    pub locks: Table<Dagger>,
    /// Commit and rollback records, keyed by (raw key, commit timestamp).
    pub writes: Table<Write>,
    /// Values too long to inline, keyed by (raw key, start timestamp).
    pub values: Table<Vec<u8>>,
}

/// The mathematical value of a [`Snapshot`].
pub struct SnapshotView {
    pub locks: Map<(Seq<u8>, u64), DaggerView>,
    pub writes: Map<(Seq<u8>, u64), WriteView>,
    pub values: Map<(Seq<u8>, u64), Seq<u8>>,
}

impl View for Snapshot {
    type V = SnapshotView;

    open spec fn view(&self) -> SnapshotView {
        SnapshotView { locks: self.locks@, writes: self.writes@, values: self.values@ }
    }
}

/// One buffered change to one column family.
#[derive(Debug)]
pub enum Modify {
    PutLock { key: Vec<u8>, lock: Dagger },
    DeleteLock { key: Vec<u8> },
    PutWrite { key: Vec<u8>, commit_ts: u64, write: Write },
    DeleteWrite { key: Vec<u8>, commit_ts: u64 },
    PutValue { key: Vec<u8>, start_ts: u64, value: Vec<u8> },
    DeleteValue { key: Vec<u8>, start_ts: u64 },
}

/// The mathematical value of a [`Modify`].
pub enum ModifyView {
    PutLock { key: Seq<u8>, lock: DaggerView },
    DeleteLock { key: Seq<u8> },
    PutWrite { key: Seq<u8>, commit_ts: u64, write: WriteView },
    DeleteWrite { key: Seq<u8>, commit_ts: u64 },
    PutValue { key: Seq<u8>, start_ts: u64, value: Seq<u8> },
    DeleteValue { key: Seq<u8>, start_ts: u64 },
}

impl View for Modify {
    type V = ModifyView;

    open spec fn view(&self) -> ModifyView {
        match self {
            Modify::PutLock { key, lock } => ModifyView::PutLock { key: key@, lock: lock@ },
            Modify::DeleteLock { key } => ModifyView::DeleteLock { key: key@ },
            Modify::PutWrite { key, commit_ts, write } => ModifyView::PutWrite {
                key: key@,
                commit_ts: *commit_ts,
                write: write@,
            },
            Modify::DeleteWrite { key, commit_ts } => ModifyView::DeleteWrite {
                key: key@,
                commit_ts: *commit_ts,
            },
            Modify::PutValue { key, start_ts, value } => ModifyView::PutValue {
                key: key@,
                start_ts: *start_ts,
                value: value@,
            },
            Modify::DeleteValue { key, start_ts } => ModifyView::DeleteValue {
                key: key@,
                start_ts: *start_ts,
            },
        }
    }
}

/// The views of a list of changes.
pub open spec fn modifies_view(ms: Seq<Modify>) -> Seq<ModifyView> {
    ms.map_values(|m: Modify| m@)
}

/// The store after one change.
pub open spec fn apply_modify(s: SnapshotView, m: ModifyView) -> SnapshotView {
    match m {
        ModifyView::PutLock { key, lock } => SnapshotView {
            locks: s.locks.insert((key, LOCK_TS), lock),
            ..s
        },
        ModifyView::DeleteLock { key } => SnapshotView {
            locks: s.locks.remove((key, LOCK_TS)),
            ..s
        },
        ModifyView::PutWrite { key, commit_ts, write } => SnapshotView {
            writes: s.writes.insert((key, commit_ts), write),
            ..s
        },
        ModifyView::DeleteWrite { key, commit_ts } => SnapshotView {
            writes: s.writes.remove((key, commit_ts)),
            ..s
        },
        ModifyView::PutValue { key, start_ts, value } => SnapshotView {
            values: s.values.insert((key, start_ts), value),
            ..s
        },
        ModifyView::DeleteValue { key, start_ts } => SnapshotView {
            values: s.values.remove((key, start_ts)),
            ..s
        },
    }
}

/// The store after a list of changes, applied in order.
pub open spec fn apply_modifies(s: SnapshotView, ms: Seq<ModifyView>) -> SnapshotView
    decreases ms.len(),
{
    if ms.len() == 0 {
        s
    } else {
        apply_modify(apply_modifies(s, ms.drop_last()), ms.last())
    }
}

/// Which write records a newest-first search stops at.
#[derive(Debug, Clone, Copy, PartialEq, Eq, Structural)]
pub enum Pick {
    /// Any record committed at or below the timestamp.
    AtOrBelow(u64),
    /// A put or delete record committed at or below the timestamp.
    DataAtOrBelow(u64),
    /// A record that tells the outcome of the transaction started at the
    /// timestamp: one of that transaction, or one committed exactly at it,
    /// among those committed at or above it.
    RecordOf(u64),
}

/// Whether the record `w` committed at `c` is one that `p` stops at.
pub open spec fn selected(p: Pick, c: u64, w: WriteView) -> bool {
    match p {
        Pick::AtOrBelow(ts) => c <= ts,
        Pick::DataAtOrBelow(ts) => c <= ts && (w.write_type == WriteType::Put || w.write_type
            == WriteType::Delete),
        Pick::RecordOf(st) => c >= st && (c == st || w.start_ts == st),
    }
}

/// `c` is the newest commit timestamp of `k` among the records `p` stops at.
pub open spec fn newest(w: Map<(Seq<u8>, u64), WriteView>, k: Seq<u8>, p: Pick, c: u64) -> bool {
    &&& w.contains_key((k, c))
    &&& selected(p, c, w[(k, c)])
    &&& forall|c2: u64| #[trigger]
        w.contains_key((k, c2)) && selected(p, c2, w[(k, c2)]) ==> c2 <= c
}

/// No record of `k` is one that `p` stops at.
pub open spec fn none_selected(w: Map<(Seq<u8>, u64), WriteView>, k: Seq<u8>, p: Pick) -> bool {
    forall|c: u64| #[trigger] w.contains_key((k, c)) ==> !selected(p, c, w[(k, c)])
}

/// The newest commit timestamp that `p` stops at, if any.
pub open spec fn newest_commit(w: Map<(Seq<u8>, u64), WriteView>, k: Seq<u8>, p: Pick) -> Option<
    u64,
> {
    if exists|c: u64| newest(w, k, p, c) {
        Some(choose|c: u64| newest(w, k, p, c))
    } else {
        None
    }
}

/// The newest timestamp is unique.
pub proof fn lemma_newest_unique(w: Map<(Seq<u8>, u64), WriteView>, k: Seq<u8>, p: Pick, c: u64)
    requires
        newest(w, k, p, c),
    ensures
        newest_commit(w, k, p) == Some(c),
{
    let d = choose|d: u64| newest(w, k, p, d);
    assert(c <= d && d <= c);
}

/// Where some record is selected, a newest one is.
pub proof fn lemma_has_newest(w: Map<(Seq<u8>, u64), WriteView>, k: Seq<u8>, p: Pick, c: u64)
    requires
        w.contains_key((k, c)),
        selected(p, c, w[(k, c)]),
    ensures
        exists|d: u64| newest(w, k, p, d),
    decreases u64::MAX - c,
{
    if exists|c2: u64| c2 > c && #[trigger] w.contains_key((k, c2)) && selected(p, c2, w[(k, c2)]) {
        let c2 = choose|c2: u64| c2 > c && #[trigger] w.contains_key((k, c2)) && selected(p, c2, w[(k, c2)]);
        lemma_has_newest(w, k, p, c2);
    } else {
        assert(newest(w, k, p, c));
    }
}

/// Without a newest timestamp nothing is selected.
pub proof fn lemma_no_newest(w: Map<(Seq<u8>, u64), WriteView>, k: Seq<u8>, p: Pick)
    requires
        newest_commit(w, k, p) is None,
    ensures
        none_selected(w, k, p),
{
    assert forall|c: u64| #[trigger] w.contains_key((k, c)) implies !selected(p, c, w[(k, c)]) by {
        if selected(p, c, w[(k, c)]) {
            lemma_has_newest(w, k, p, c);
        }
    }
}

/// With nothing selected there is no newest timestamp.
pub proof fn lemma_none_selected(w: Map<(Seq<u8>, u64), WriteView>, k: Seq<u8>, p: Pick)
    requires
        none_selected(w, k, p),
    ensures
        newest_commit(w, k, p) is None,
{
}

/// What a read at `ts` of `k` sees, ignoring locks: `Err(())` where a put
/// record's value is missing from the default family.
pub open spec fn read_spec(s: SnapshotView, k: Seq<u8>, ts: u64) -> Result<Option<Seq<u8>>, ()> {
    match newest_commit(s.writes, k, Pick::DataAtOrBelow(ts)) {
        None => Ok(None),
        Some(c) => value_of_spec(s, k, s.writes[(k, c)]),
    }
}

/// The value that the put or delete record `w` of `k` stands for.
pub open spec fn value_of_spec(s: SnapshotView, k: Seq<u8>, w: WriteView) -> Result<
    Option<Seq<u8>>,
    (),
> {
    if w.write_type != WriteType::Put {
        Ok(None)
    } else {
        match w.short_value {
            Some(v) => Ok(Some(v)),
            None => if s.values.contains_key((k, w.start_ts)) {
                Ok(Some(s.values[(k, w.start_ts)]))
            } else {
                Err(())
            },
        }
    }
}

/// Whether `k` holds a value at `ts`.
pub open spec fn exists_at(s: SnapshotView, k: Seq<u8>, ts: u64) -> bool {
    match newest_commit(s.writes, k, Pick::DataAtOrBelow(ts)) {
        Some(c) => s.writes[(k, c)].write_type == WriteType::Put,
        None => false,
    }
}

/// Isolation levels of a read.
#[derive(Debug, Clone, Copy, PartialEq, Eq, Structural)]
pub enum IsolationLevel {
    /// Snapshot isolation: an outstanding lock at or below the read
    /// timestamp blocks the read.
    Si,
    /// Read committed: locks are ignored.
    Rc,
}

/// Whether the lock `l` on `k` blocks a snapshot-isolation read at `ts`.
pub open spec fn lock_blocks(l: DaggerView, k: Seq<u8>, ts: u64, bypass: Seq<u64>) -> bool {
    &&& l.ts <= ts
    &&& (l.lock_type == LockType::Put || l.lock_type == LockType::Delete)
    &&& !bypass.contains(l.ts)
    &&& !(ts == u64::MAX && k == l.primary)
}

/// How the outcome of a transaction is recorded for one key.
#[derive(Debug)]
pub enum TxnCommitRecord {
    /// A record of the transaction itself, committed at `commit_ts`.
    SingleRecord { commit_ts: u64, write: Write },
    /// Another transaction's record at the start timestamp carries the rollback.
    OverlappedRollback { commit_ts: u64 },
    /// Nothing records the outcome; `overlapped_write` is another
    /// transaction's record committed exactly at the start timestamp, if any.
    NotFound { overlapped_write: Option<Write> },
}

/// The mathematical value of a [`TxnCommitRecord`].
pub enum RecordView {
    SingleRecord { commit_ts: u64, write: WriteView },
    OverlappedRollback { commit_ts: u64 },
    NotFound { overlapped_write: Option<WriteView> },
}

impl View for TxnCommitRecord {
    type V = RecordView;

    open spec fn view(&self) -> RecordView {
        match self {
            TxnCommitRecord::SingleRecord { commit_ts, write } => RecordView::SingleRecord {
                commit_ts: *commit_ts,
                write: write@,
            },
            TxnCommitRecord::OverlappedRollback { commit_ts } => RecordView::OverlappedRollback {
                commit_ts: *commit_ts,
            },
            TxnCommitRecord::NotFound { overlapped_write } => RecordView::NotFound {
                overlapped_write: match overlapped_write {
                    Some(w) => Some(w@),
                    None => None,
                },
            },
        }
    }
}

/// How the outcome of the transaction started at `st` is recorded for `k`.
pub open spec fn record_spec(s: SnapshotView, k: Seq<u8>, st: u64) -> RecordView {
    match newest_commit(s.writes, k, Pick::RecordOf(st)) {
        None => RecordView::NotFound { overlapped_write: None },
        Some(c) => {
            let w = s.writes[(k, c)];
            if w.start_ts == st {
                RecordView::SingleRecord { commit_ts: c, write: w }
            } else if w.has_overlapped_rollback {
                RecordView::OverlappedRollback { commit_ts: c }
            } else {
                RecordView::NotFound { overlapped_write: Some(w) }
            }
        },
    }
}

/// `info` describes lock `l` on `k`, with time to live `ttl`.
pub open spec fn is_lock_info(info: LockInfo, l: DaggerView, k: Seq<u8>, ttl: u64) -> bool {
    &&& info.key@ == k
    &&& info.primary_lock@ == l.primary
    &&& info.lock_version == l.ts
    &&& info.lock_ttl == ttl
    &&& info.lock_type == l.lock_type
    &&& info.lock_for_update_ts == l.for_update_ts
    &&& info.txn_size == l.txn_size
    &&& info.min_commit_ts == l.min_commit_ts
    &&& info.use_async_commit == l.use_async_commit
}

/// The lock information carried by a `KeyIsLocked` error.
pub fn lock_info(lock: &Dagger, key: &Vec<u8>) -> (r: LockInfo)
    ensures
        r.key@ == key@,
        r.primary_lock@ == lock.primary@,
        r.lock_version == lock.ts,
        r.lock_ttl == lock.ttl,
        r.lock_type == lock.lock_type,
        r.lock_for_update_ts == lock.for_update_ts,
        r.txn_size == lock.txn_size,
        r.min_commit_ts == lock.min_commit_ts,
        r.use_async_commit == lock.use_async_commit,
        is_lock_info(r, lock@, key@, lock.ttl),
{
    LockInfo {
        key: key.clone(),
        primary_lock: lock.primary.clone(),
        lock_version: lock.ts,
        lock_ttl: lock.ttl,
        lock_type: lock.lock_type,
        lock_for_update_ts: lock.for_update_ts,
        txn_size: lock.txn_size,
        min_commit_ts: lock.min_commit_ts,
        use_async_commit: lock.use_async_commit,
    }
}

impl Snapshot {
    /// All three families are well formed.
    pub open spec fn wf(&self) -> bool {
        &&& self.locks.wf()
        &&& self.writes.wf()
        &&& self.values.wf()
        &&& self.locks.all_at(LOCK_TS)
    }

    /// An empty store.
    pub fn new() -> (r: Snapshot)
        ensures
            r.wf(),
            r@.locks == Map::<(Seq<u8>, u64), DaggerView>::empty(),
            r@.writes == Map::<(Seq<u8>, u64), WriteView>::empty(),
            r@.values == Map::<(Seq<u8>, u64), Seq<u8>>::empty(),
    {
        Snapshot { locks: Table::new(), writes: Table::new(), values: Table::new() }
    }

    /// No two lock entries share a raw key, and no two write entries share
    /// a raw key and a commit timestamp: at most one lock per key, and one
    /// version per key and commit timestamp.
    pub proof fn lemma_entries_unique(&self)
        requires
            self.wf(),
        ensures
            forall|i: int, j: int|
                0 <= i < self.locks.entries@.len() && 0 <= j < self.locks.entries@.len() && i != j
                    ==> (#[trigger] self.locks.entries@[i]).key@ != (#[trigger] self.locks.entries@[j]).key@,
            forall|i: int, j: int|
                0 <= i < self.writes.entries@.len() && 0 <= j < self.writes.entries@.len() && i != j
                    && (#[trigger] self.writes.entries@[i]).key@ == (#[trigger] self.writes.entries@[j]).key@
                    ==> self.writes.entries@[i].ts != self.writes.entries@[j].ts,
    {
        assert forall|i: int, j: int|
            0 <= i < self.locks.entries@.len() && 0 <= j < self.locks.entries@.len() && i != j
                implies (#[trigger] self.locks.entries@[i]).key@ != (#[trigger] self.locks.entries@[j]).key@ by {
            assert(self.locks.entries@[i].ts == LOCK_TS);
            assert(self.locks.entries@[j].ts == LOCK_TS);
        }
    }

    /// Applies one change.
    pub fn apply(&mut self, m: Modify)
        requires
            old(self).wf(),
        ensures
            final(self).wf(),
            final(self)@ == apply_modify(old(self)@, m@),
    {
        match m {
            Modify::PutLock { key, lock } => self.locks.put(key, LOCK_TS, lock),
            Modify::DeleteLock { key } => self.locks.delete(&key, LOCK_TS),
            Modify::PutWrite { key, commit_ts, write } => self.writes.put(key, commit_ts, write),
            Modify::DeleteWrite { key, commit_ts } => self.writes.delete(&key, commit_ts),
            Modify::PutValue { key, start_ts, value } => self.values.put(key, start_ts, value),
            Modify::DeleteValue { key, start_ts } => self.values.delete(&key, start_ts),
        }
    }

    /// Applies a list of changes in order, as one atomic write.
    pub fn write_modifies(&mut self, ms: Vec<Modify>)
        requires
            old(self).wf(),
        ensures
            final(self).wf(),
            final(self)@ == apply_modifies(old(self)@, modifies_view(ms@)),
    {
        let ghost all = modifies_view(ms@);
        let ghost start = self@;
        let mut ms = ms;
        let ghost n = ms@.len();
        assert(n <= usize::MAX) by {
            assert(ms@.len() == ms.len());
        }
        let mut done: usize = 0;
        while ms.len() > 0
            invariant
                self.wf(),
                done <= n,
                n <= usize::MAX,
                all.len() == n,
                ms@.len() == n - done,
                modifies_view(ms@) == all.subrange(done as int, n as int),
                self@ == apply_modifies(start, all.subrange(0, done as int)),
            decreases ms.len(),
        {
            let ghost before = ms@;
            let m = ms.remove(0);
            proof {
                assert(modifies_view(before)[0] == m@);
                assert(m@ == all[done as int]);
                assert(modifies_view(ms@) =~= modifies_view(before).subrange(1, before.len() as int));
                assert(modifies_view(ms@) =~= all.subrange(done + 1, n as int));
                assert(all.subrange(0, done + 1).drop_last() =~= all.subrange(0, done as int));
            }
            self.apply(m);
            done = done + 1;
        }
        assert(all.subrange(0, n as int) =~= all);
    }

    /// The lock on `key`, if there is one.
    pub fn load_lock(&self, key: &Vec<u8>) -> (r: Option<Dagger>)
        requires
            self.wf(),
        ensures
            r is Some <==> self@.locks.contains_key((key@, LOCK_TS)),
            r is Some ==> r.unwrap()@ == self@.locks[(key@, LOCK_TS)],
    {
        match self.locks.get(key, LOCK_TS) {
            Some(l) => Some(l.duplicate()),
            None => None,
        }
    }

    /// The index in the write family of the newest record of `key` that `p`
    /// stops at.
    pub fn find_newest(&self, key: &Vec<u8>, p: Pick) -> (r: Option<usize>)
        requires
            self.wf(),
        ensures
            r is None ==> none_selected(self@.writes, key@, p),
            r is Some ==> {
                let e = self.writes.entries@[r.unwrap() as int];
                &&& r.unwrap() < self.writes.entries@.len()
                &&& e.key@ == key@
                &&& newest(self@.writes, key@, p, e.ts)
            },
    {
        let mut best: Option<usize> = None;
        let mut i: usize = 0;
        let n = self.writes.entries.len();
        while i < n
            invariant
                n == self.writes.entries@.len(),
                i <= n,
                best is Some ==> {
                    let b = best.unwrap() as int;
                    &&& b < i
                    &&& self.writes.entries@[b].key@ == key@
                    &&& selected(p, self.writes.entries@[b].ts, self.writes.entries@[b].value@)
                    &&& forall|j: int|
                        0 <= j < i && #[trigger] self.writes.entries@[j].key@ == key@ && selected(
                            p,
                            self.writes.entries@[j].ts,
                            self.writes.entries@[j].value@,
                        ) ==> self.writes.entries@[j].ts <= self.writes.entries@[b].ts
                },
                best is None ==> forall|j: int|
                    0 <= j < i && #[trigger] self.writes.entries@[j].key@ == key@ ==> !selected(
                        p,
                        self.writes.entries@[j].ts,
                        self.writes.entries@[j].value@,
                    ),
            decreases n - i,
        {
            let e = &self.writes.entries[i];
            if bytes_eq(&e.key, key) {
                let sel = match p {
                    Pick::AtOrBelow(ts) => e.ts <= ts,
                    Pick::DataAtOrBelow(ts) => e.ts <= ts && (e.value.write_type == WriteType::Put
                        || e.value.write_type == WriteType::Delete),
                    Pick::RecordOf(st) => e.ts >= st && (e.ts == st || e.value.start_ts == st),
                };
                if sel {
                    match best {
                        Some(b) => {
                            if self.writes.entries[b].ts < e.ts {
                                best = Some(i);
                            }
                        },
                        None => {
                            best = Some(i);
                        },
                    }
                }
            }
            i += 1;
        }
        proof {
            match best {
                Some(b) => {
                    let b = b as int;
                    self.writes.lemma_entry(b);
                    let k = key@;
                    assert forall|c2: u64| #[trigger]
                        self@.writes.contains_key((k, c2)) && selected(
                            p,
                            c2,
                            self@.writes[(k, c2)],
                        ) implies c2 <= self.writes.entries@[b].ts by {
                        let j = choose|j: int| self.writes.holds(j, k, c2);
                        self.writes.lemma_entry(j);
                    }
                },
                None => {
                    let k = key@;
                    assert forall|c: u64| #[trigger]
                        self@.writes.contains_key((k, c)) implies !selected(
                        p,
                        c,
                        self@.writes[(k, c)],
                    ) by {
                        let j = choose|j: int| self.writes.holds(j, k, c);
                        self.writes.lemma_entry(j);
                    }
                },
            }
        }
        best
    }

    /// The newest record of `key` committed at or below `ts`, with its commit
    /// timestamp.
    pub fn seek_write(&self, key: &Vec<u8>, ts: u64) -> (r: Option<(u64, Write)>)
        requires
            self.wf(),
        ensures
            r is None ==> none_selected(self@.writes, key@, Pick::AtOrBelow(ts)),
            r is Some ==> newest(self@.writes, key@, Pick::AtOrBelow(ts), r.unwrap().0)
                && r.unwrap().1@ == self@.writes[(key@, r.unwrap().0)],
    {
        match self.find_newest(key, Pick::AtOrBelow(ts)) {
            Some(i) => {
                proof {
                    self.writes.lemma_entry(i as int);
                }
                let e = &self.writes.entries[i];
                Some((e.ts, e.value.duplicate()))
            },
            None => None,
        }
    }

    /// Whether `key` holds a value at `ts`: its newest put or delete record
    /// at or below `ts` is a put.
    pub fn key_exist(&self, key: &Vec<u8>, ts: u64) -> (r: bool)
        requires
            self.wf(),
        ensures
            r == exists_at(self@, key@, ts),
    {
        match self.find_newest(key, Pick::DataAtOrBelow(ts)) {
            Some(i) => {
                proof {
                    lemma_newest_unique(
                        self@.writes,
                        key@,
                        Pick::DataAtOrBelow(ts),
                        self.writes.entries@[i as int].ts,
                    );
                    self.writes.lemma_entry(i as int);
                }
                self.writes.entries[i].value.write_type == WriteType::Put
            },
            None => false,
        }
    }

    /// The newest put record of `key` at or below `ts`, unless a delete is
    /// newer; lock and rollback records are passed over.
    pub fn get_write(&self, key: &Vec<u8>, ts: u64) -> (r: Option<Write>)
        requires
            self.wf(),
        ensures
            r is Some <==> exists_at(self@, key@, ts),
            r is Some ==> r.unwrap()@ == self@.writes[(
                key@,
                newest_commit(self@.writes, key@, Pick::DataAtOrBelow(ts)).unwrap(),
            )],
    {
        match self.find_newest(key, Pick::DataAtOrBelow(ts)) {
            Some(i) => {
                proof {
                    lemma_newest_unique(
                        self@.writes,
                        key@,
                        Pick::DataAtOrBelow(ts),
                        self.writes.entries@[i as int].ts,
                    );
                    self.writes.lemma_entry(i as int);
                }
                let w = &self.writes.entries[i].value;
                if w.write_type == WriteType::Put {
                    Some(w.duplicate())
                } else {
                    None
                }
            },
            None => {
                proof {
                    lemma_none_selected(self@.writes, key@, Pick::DataAtOrBelow(ts));
                }
                None
            },
        }
    }

    /// The value that the put or delete record `write` of `key` stands for.
    pub fn load_data(&self, key: &Vec<u8>, write: &Write) -> (r: Result<Option<Vec<u8>>, MvccError>)
        requires
            self.wf(),
        ensures
            r is Ok <==> value_of_spec(self@, key@, write@) is Ok,
            r is Ok ==> opt_bytes(r.unwrap()) == value_of_spec(self@, key@, write@).unwrap(),
            r is Err ==> r.unwrap_err() is DefaultNotFound,
    {
        if write.write_type != WriteType::Put {
            return Ok(None);
        }
        match &write.short_value {
            Some(v) => Ok(Some(v.clone())),
            None => match self.values.get(key, write.start_ts) {
                Some(v) => Ok(Some(v.clone())),
                None => Err(MvccError::DefaultNotFound { key: key.clone(), start_ts: write.start_ts }),
            },
        }
    }

    /// The value of `key` visible at `ts`, ignoring locks.
    pub fn get_value(&self, key: &Vec<u8>, ts: u64) -> (r: Result<Option<Vec<u8>>, MvccError>)
        requires
            self.wf(),
        ensures
            r is Ok <==> read_spec(self@, key@, ts) is Ok,
            r is Ok ==> opt_bytes(r.unwrap()) == read_spec(self@, key@, ts).unwrap(),
            r is Err ==> r.unwrap_err() is DefaultNotFound,
    {
        match self.find_newest(key, Pick::DataAtOrBelow(ts)) {
            Some(i) => {
                proof {
                    let c = self.writes.entries@[i as int].ts;
                    lemma_newest_unique(self@.writes, key@, Pick::DataAtOrBelow(ts), c);
                    self.writes.lemma_entry(i as int);
                }
                self.load_data(key, &self.writes.entries[i].value)
            },
            None => {
                proof {
                    lemma_none_selected(self@.writes, key@, Pick::DataAtOrBelow(ts));
                }
                Ok(None)
            },
        }
    }

    /// The value of `key` visible to a reader at `ts`. Under snapshot
    /// isolation an outstanding put or delete lock at or below `ts`, not in
    /// `bypass_locks`, fails the read with `KeyIsLocked`; reading the latest
    /// value (`ts == u64::MAX`) of a primary key ignores its own lock.
    pub fn get(&self, key: &Vec<u8>, ts: u64, isolation: IsolationLevel, bypass_locks: &Vec<u64>) -> (r:
        Result<Option<Vec<u8>>, MvccError>)
        requires
            self.wf(),
        ensures
            ({
                let blocked = isolation == IsolationLevel::Si && self@.locks.contains_key(
                    (key@, LOCK_TS),
                ) && lock_blocks(self@.locks[(key@, LOCK_TS)], key@, ts, bypass_locks@);
                &&& blocked ==> (r matches Err(MvccError::KeyIsLocked(info)) && is_lock_info(
                    info,
                    self@.locks[(key@, LOCK_TS)],
                    key@,
                    self@.locks[(key@, LOCK_TS)].ttl,
                ))
                &&& !blocked ==> (r is Ok <==> read_spec(self@, key@, ts) is Ok)
                &&& !blocked && r is Ok ==> opt_bytes(r.unwrap()) == read_spec(
                    self@,
                    key@,
                    ts,
                ).unwrap()
                &&& !blocked && r is Err ==> r.unwrap_err() is DefaultNotFound
            }),
    {
        if isolation == IsolationLevel::Si {
            if let Some(l) = self.locks.get(key, LOCK_TS) {
                if l.ts <= ts && (l.lock_type == LockType::Put || l.lock_type == LockType::Delete) {
                    let mut bypassed = false;
                    let mut i: usize = 0;
                    while i < bypass_locks.len()
                        invariant
                            i <= bypass_locks.len(),
                            bypassed == (exists|j: int| 0 <= j < i && bypass_locks@[j] == l.ts),
                        decreases bypass_locks.len() - i,
                    {
                        if bypass_locks[i] == l.ts {
                            bypassed = true;
                        }
                        i += 1;
                    }
                    let own_primary = ts == u64::MAX && bytes_eq(key, &l.primary);
                    if !bypassed && !own_primary {
                        return Err(MvccError::KeyIsLocked(lock_info(l, key)));
                    }
                }
            }
        }
        self.get_value(key, ts)
    }

    /// How the outcome of the transaction started at `start_ts` is recorded
    /// for `key`: the newest record committed at or above `start_ts` that
    /// either belongs to the transaction or is committed exactly at
    /// `start_ts` decides.
    pub fn get_txn_commit_record(&self, key: &Vec<u8>, start_ts: u64) -> (r: TxnCommitRecord)
        requires
            self.wf(),
        ensures
            r@ == record_spec(self@, key@, start_ts),
            none_selected(self@.writes, key@, Pick::RecordOf(start_ts)) ==> (r matches TxnCommitRecord::NotFound {
                overlapped_write,
            } && overlapped_write is None),
            forall|c: u64|
                #![trigger newest(self@.writes, key@, Pick::RecordOf(start_ts), c)]
                newest(self@.writes, key@, Pick::RecordOf(start_ts), c) ==> {
                    let w = self@.writes[(key@, c)];
                    &&& w.start_ts == start_ts ==> (r matches TxnCommitRecord::SingleRecord {
                        commit_ts,
                        write,
                    } && commit_ts == c && write@ == w)
                    &&& w.start_ts != start_ts && w.has_overlapped_rollback ==> (
                    r matches TxnCommitRecord::OverlappedRollback { commit_ts } && commit_ts == c)
                    &&& w.start_ts != start_ts && !w.has_overlapped_rollback ==> (
                    r matches TxnCommitRecord::NotFound { overlapped_write } && overlapped_write is Some
                        && overlapped_write.unwrap()@ == w && c == start_ts)
                },
    {
        match self.find_newest(key, Pick::RecordOf(start_ts)) {
            None => {
                proof {
                    lemma_none_selected(self@.writes, key@, Pick::RecordOf(start_ts));
                }
                TxnCommitRecord::NotFound { overlapped_write: None }
            },
            Some(i) => {
                proof {
                    self.writes.lemma_entry(i as int);
                    lemma_newest_unique(
                        self@.writes,
                        key@,
                        Pick::RecordOf(start_ts),
                        self.writes.entries@[i as int].ts,
                    );
                }
                let e = &self.writes.entries[i];
                proof {
                    assert forall|c: u64|
                        #![trigger newest(self@.writes, key@, Pick::RecordOf(start_ts), c)]
                        newest(self@.writes, key@, Pick::RecordOf(start_ts), c) implies c
                        == e.ts by {}
                }
                if e.value.start_ts == start_ts {
                    TxnCommitRecord::SingleRecord { commit_ts: e.ts, write: e.value.duplicate() }
                } else if e.value.has_overlapped_rollback {
                    TxnCommitRecord::OverlappedRollback { commit_ts: e.ts }
                } else {
                    TxnCommitRecord::NotFound { overlapped_write: Some(e.value.duplicate()) }
                }
            },
        }
    }
}

} // verus!
