//! The forward scanner: walks the lock and write families together in key
//! order and yields, for each raw key in range, the value visible at the
//! scan timestamp.
use vstd::prelude::*;
use crate::cursor::{after, is_first_after, none_after, Cursor, ScanMode};
use crate::errors::{LockInfo, MvccError};
use crate::order::{
    bytes_lt, compare_bytes, entry_lt, lemma_bytes_lt_asymmetric, lemma_bytes_lt_irreflexive,
    lemma_bytes_lt_total, lemma_bytes_lt_transitive, lemma_entry_lt_transitive,
};
use crate::store::{
    is_lock_info, lemma_newest_unique, lemma_none_selected, lock_blocks, lock_info, newest, newest_commit, read_spec,
    value_of_spec, IsolationLevel, Pick, Snapshot, SnapshotView, LOCK_TS,
};
use crate::table::Entry;
use crate::txn::read_below;
use crate::types::{opt_bytes, Dagger, DaggerView, LockType, Write, WriteType, WriteView};

verus! {

/// Whether a scan has met data newer than its timestamp.
#[derive(Debug, PartialEq, Eq, Clone, Copy, Structural)]
pub enum NewerTsCheckState {
    Unknown,
    Met,
    NotMetYet,
}

/// The lock and write cursors of a scan.
pub struct Cursors<'a> {
    pub lock: Cursor<'a, Dagger>,
    pub write: Cursor<'a, Write>,
}

/// The policy that yields the latest visible value of each key.
#[derive(Debug, Clone, Copy, PartialEq, Eq, Structural)]
pub struct LatestKvPolicy;

/// The policy that yields the newest put, or delete where asked, of each
/// key, when it is newer than `after_ts`.
#[derive(Debug, Clone, Copy, PartialEq, Eq, Structural)]
pub struct LatestEntryPolicy {
    pub after_ts: u64,
    pub output_delete: bool,
}

impl LatestEntryPolicy {
    pub fn new(after_ts: u64, output_delete: bool) -> (r: LatestEntryPolicy)
        ensures
            r.after_ts == after_ts,
            r.output_delete == output_delete,
    {
        LatestEntryPolicy { after_ts, output_delete }
    }
}

/// A committed version of a key: its record and, for a put, its value.
#[derive(Debug)]
pub struct TxnEntry {
    pub key: Vec<u8>,
    pub commit_ts: u64,
    pub write: Write,
    pub value: Option<Vec<u8>>,
}

/// The commit timestamp of the entry that `policy` yields for `k` at `ts`.
pub open spec fn entry_spec(s: SnapshotView, k: Seq<u8>, ts: u64, policy: LatestEntryPolicy) -> Option<u64> {
    match newest_commit(s.writes, k, Pick::DataAtOrBelow(ts)) {
        Some(c) => if c > policy.after_ts && (s.writes[(k, c)].write_type == WriteType::Put
            || policy.output_delete) {
            Some(c)
        } else {
            None
        },
        None => None,
    }
}

/// A key that an entry scan passes over: nothing blocks it and it yields no
/// entry.
pub open spec fn quiet_entry(
    s: SnapshotView,
    k: Seq<u8>,
    ts: u64,
    iso: IsolationLevel,
    bp: Seq<u64>,
    policy: LatestEntryPolicy,
) -> bool {
    !blocked(s, k, ts, iso, bp) && entry_spec(s, k, ts, policy) is None
}

/// The policy that yields, for each key, its lock and every put or delete
/// whose timestamp lies in `(from_ts, ts]`, `ts` being the scan timestamp;
/// with `read_old_value`, each with the value it replaces.
#[derive(Debug, Clone, Copy, PartialEq, Eq, Structural)]
pub struct DeltaEntryPolicy {
    pub from_ts: u64,
    pub read_old_value: bool,
}

impl DeltaEntryPolicy {
    pub fn new(from_ts: u64, read_old_value: bool) -> (r: DeltaEntryPolicy)
        ensures
            r.from_ts == from_ts,
            r.read_old_value == read_old_value,
    {
        DeltaEntryPolicy { from_ts, read_old_value }
    }
}

/// The value that the commit of `k` at `c` replaces, where asked for.
pub open spec fn commit_old_spec(s: SnapshotView, k: Seq<u8>, c: u64, read_old: bool) -> Result<Option<Seq<u8>>, ()> {
    if read_old {
        read_below(s, k, c)
    } else {
        Ok(None)
    }
}

/// The value that a put or delete lock `l` on `k` replaces, where asked
/// for: the one visible at its start or for-update timestamp, the later.
pub open spec fn lock_old_spec(s: SnapshotView, k: Seq<u8>, l: DaggerView, read_old: bool) -> Result<Option<Seq<u8>>, ()> {
    if read_old && (l.lock_type == LockType::Put || l.lock_type == LockType::Delete) {
        read_spec(s, k, if l.ts > l.for_update_ts { l.ts } else { l.for_update_ts })
    } else {
        Ok(None)
    }
}

/// The commit of `k` at `c` cannot be read whole.
pub open spec fn commit_corrupt(s: SnapshotView, k: Seq<u8>, c: u64, read_old: bool) -> bool {
    value_of_spec(s, k, s.writes[(k, c)]) is Err || commit_old_spec(s, k, c, read_old) is Err
}

/// One change of a key that a delta scan yields.
#[derive(Debug)]
pub enum DeltaEntry {
    /// An outstanding lock, with its long value for a put and the value it
    /// replaces.
    Prewrite { key: Vec<u8>, lock: Dagger, value: Option<Vec<u8>>, old_value: Option<Vec<u8>> },
    /// A committed put or delete, with the put's value and the value it
    /// replaces.
    Commit { key: Vec<u8>, commit_ts: u64, write: Write, value: Option<Vec<u8>>, old_value: Option<Vec<u8>> },
}

/// `k` has a lock started after `from` and at or below `ts`.
pub open spec fn delta_lock(s: SnapshotView, k: Seq<u8>, from: u64, ts: u64) -> bool {
    s.locks.contains_key((k, LOCK_TS)) && from < s.locks[(k, LOCK_TS)].ts <= ts
}

/// The commit timestamps of the puts and deletes of `k` committed after
/// `from` and at or below `bound`, newest first.
pub open spec fn delta_commits(s: SnapshotView, k: Seq<u8>, from: u64, bound: u64) -> Seq<u64>
    decreases bound,
{
    match newest_commit(s.writes, k, Pick::DataAtOrBelow(bound)) {
        Some(c) => if c > from && c <= bound {
            if c == 0 {
                seq![c]
            } else {
                seq![c] + delta_commits(s, k, from, (c - 1) as u64)
            }
        } else {
            Seq::empty()
        },
        None => Seq::empty(),
    }
}

/// The long value a lock carries in the default family, if it is a put
/// without an inlined value.
pub open spec fn lock_value_spec(s: SnapshotView, k: Seq<u8>, l: DaggerView) -> Result<Option<Seq<u8>>, ()> {
    if l.lock_type == LockType::Put && l.short_value is None {
        if s.values.contains_key((k, l.ts)) {
            Ok(Some(s.values[(k, l.ts)]))
        } else {
            Err(())
        }
    } else {
        Ok(None)
    }
}

/// A key that a delta scan passes over.
pub open spec fn quiet_delta(s: SnapshotView, k: Seq<u8>, ts: u64, policy: DeltaEntryPolicy) -> bool {
    !delta_lock(s, k, policy.from_ts, ts) && delta_commits(s, k, policy.from_ts, ts).len() == 0
}

/// `e` is the commit of `k` at `c` as the store holds it.
pub open spec fn commit_entry(s: SnapshotView, e: DeltaEntry, k: Seq<u8>, c: u64, read_old: bool) -> bool {
    e matches DeltaEntry::Commit { key, commit_ts, write, value, old_value } && key@ == k && commit_ts == c
        && write@ == s.writes[(k, c)] && value_of_spec(s, k, write@) == Ok::<Option<Seq<u8>>, ()>(opt_bytes(value))
        && commit_old_spec(s, k, c, read_old) == Ok::<Option<Seq<u8>>, ()>(opt_bytes(old_value))
}

/// A put or delete record.
pub open spec fn is_data(w: WriteView) -> bool {
    w.write_type == WriteType::Put || w.write_type == WriteType::Delete
}

/// Whether a snapshot-isolation read of `k` at `ts` is blocked by a lock.
pub open spec fn blocked(s: SnapshotView, k: Seq<u8>, ts: u64, iso: IsolationLevel, bypass: Seq<u64>) -> bool {
    iso == IsolationLevel::Si && s.locks.contains_key((k, LOCK_TS)) && lock_blocks(
        s.locks[(k, LOCK_TS)],
        k,
        ts,
        bypass,
    )
}

/// A key that the scan passes over: nothing blocks it and nothing is visible.
pub open spec fn quiet(s: SnapshotView, k: Seq<u8>, ts: u64, iso: IsolationLevel, bypass: Seq<u64>) -> bool {
    !blocked(s, k, ts, iso, bypass) && read_spec(s, k, ts) == Ok::<Option<Seq<u8>>, ()>(None)
}

/// `k` lies below the upper bound, if there is one.
pub open spec fn below(k: Seq<u8>, upper: Option<Seq<u8>>) -> bool {
    match upper {
        Some(u) => bytes_lt(k, u),
        None => true,
    }
}

/// `k` lies after the scan position: past the last key handled, or at or
/// past the lower bound before the first.
pub open spec fn past(k: Seq<u8>, last: Option<Seq<u8>>, lower: Seq<u8>) -> bool {
    match last {
        Some(l) => bytes_lt(l, k),
        None => !bytes_lt(k, lower),
    }
}

/// The number of entries of `t` whose key sorts after `k`.
pub open spec fn count_past<V>(t: Seq<Entry<V>>, k: Seq<u8>) -> nat
    decreases t.len(),
{
    if t.len() == 0 {
        0
    } else {
        count_past(t.drop_last(), k) + if bytes_lt(k, t.last().key@) {
            1nat
        } else {
            0nat
        }
    }
}

proof fn lemma_count_past<V>(t: Seq<Entry<V>>, k1: Seq<u8>, k2: Seq<u8>)
    requires
        bytes_lt(k1, k2),
    ensures
        count_past(t, k2) <= count_past(t, k1),
        (exists|i: int| 0 <= i < t.len() && bytes_lt(k1, t[i].key@) && !bytes_lt(k2, t[i].key@))
            ==> count_past(t, k2) < count_past(t, k1),
    decreases t.len(),
{
    if t.len() > 0 {
        let d = t.drop_last();
        lemma_count_past(d, k1, k2);
        if bytes_lt(k2, t.last().key@) {
            lemma_bytes_lt_transitive(k1, k2, t.last().key@);
        }
        if exists|i: int| 0 <= i < t.len() && bytes_lt(k1, t[i].key@) && !bytes_lt(k2, t[i].key@) {
            let i = choose|i: int| 0 <= i < t.len() && bytes_lt(k1, t[i].key@) && !bytes_lt(k2, t[i].key@);
            if i < t.len() - 1 {
                assert(d[i] == t[i]);
            }
        }
    }
}

/// Scans the keys of a snapshot in order, yielding the value of each that
/// is visible at `ts`.
pub struct ForwardScanner<'a> {
    pub snapshot: &'a Snapshot,
    pub cursors: Cursors<'a>,
    pub ts: u64,
    pub lower_bound: Vec<u8>,
    pub upper_bound: Option<Vec<u8>>,
    pub isolation: IsolationLevel,
    pub bypass_locks: Vec<u64>,
    /// The last key handled; none before the first.
    pub last_key: Option<Vec<u8>>,
    pub met_newer_ts_data: NewerTsCheckState,
    pub scan_policy: LatestKvPolicy,
}

impl<'a> ForwardScanner<'a> {
    pub open spec fn wf(&self) -> bool {
        &&& self.snapshot.wf()
        &&& self.cursors.lock.table == &self.snapshot.locks
        &&& self.cursors.write.table == &self.snapshot.writes
        &&& opt_bytes(self.last_key) is Some ==> !bytes_lt(opt_bytes(self.last_key).unwrap(), self.lower_bound@)
    }

    pub open spec fn last_view(&self) -> Option<Seq<u8>> {
        opt_bytes(self.last_key)
    }

    pub open spec fn upper_view(&self) -> Option<Seq<u8>> {
        opt_bytes(self.upper_bound)
    }

    /// A scan of `snapshot` at `ts` over `[lower_bound, upper_bound)`.
    pub fn new(
        snapshot: &'a Snapshot,
        ts: u64,
        lower_bound: Vec<u8>,
        upper_bound: Option<Vec<u8>>,
        isolation: IsolationLevel,
        bypass_locks: Vec<u64>,
        check_has_newer_ts_data: bool,
    ) -> (r: Self)
        requires
            snapshot.wf(),
        ensures
            r.wf(),
            r.snapshot == snapshot,
            r.ts == ts,
            r.lower_bound@ == lower_bound@,
            r.upper_view() == opt_bytes(upper_bound),
            r.isolation == isolation,
            r.bypass_locks@ == bypass_locks@,
            r.last_view() is None,
            r.met_newer_ts_data == (if check_has_newer_ts_data {
                NewerTsCheckState::NotMetYet
            } else {
                NewerTsCheckState::Unknown
            }),
    {
        ForwardScanner {
            snapshot,
            cursors: Cursors {
                lock: Cursor::new(&snapshot.locks, ScanMode::Forward),
                write: Cursor::new(&snapshot.writes, ScanMode::Forward),
            },
            ts,
            lower_bound,
            upper_bound,
            isolation,
            bypass_locks,
            last_key: None,
            met_newer_ts_data: if check_has_newer_ts_data {
                NewerTsCheckState::NotMetYet
            } else {
                NewerTsCheckState::Unknown
            },
            scan_policy: LatestKvPolicy,
        }
    }

    /// Whether the scan has met data newer than its timestamp.
    pub fn met_newer_ts_data(&self) -> (r: NewerTsCheckState)
        ensures
            r == self.met_newer_ts_data,
    {
        self.met_newer_ts_data
    }

    /// Positions both cursors on the first entries past the scan position.
    fn position(&mut self)
        requires
            old(self).wf(),
        ensures
            final(self).wf(),
            final(self).snapshot == old(self).snapshot,
            final(self).last_key == old(self).last_key,
            final(self).ts == old(self).ts,
            final(self).lower_bound == old(self).lower_bound,
            final(self).upper_bound == old(self).upper_bound,
            final(self).isolation == old(self).isolation,
            final(self).bypass_locks == old(self).bypass_locks,
            final(self).met_newer_ts_data == old(self).met_newer_ts_data,
            positioned(final(self).cursors.lock, final(self).last_view(), final(self).lower_bound@),
            positioned(final(self).cursors.write, final(self).last_view(), final(self).lower_bound@),
    {
        match &self.last_key {
            Some(l) => {
                self.cursors.lock.seek_past(l, 0);
                self.cursors.write.seek_past(l, 0);
            },
            None => {
                self.cursors.lock.seek(&self.lower_bound, u64::MAX);
                self.cursors.write.seek(&self.lower_bound, u64::MAX);
            },
        }
        proof {
            lemma_positioned(self.cursors.lock, self.last_view(), self.lower_bound@);
            lemma_positioned(self.cursors.write, self.last_view(), self.lower_bound@);
        }
    }

    /// Moves the scan position to the next key in range that has an entry
    /// in either family and returns it; the keys passed over have none.
    fn advance(&mut self) -> (r: Option<Vec<u8>>)
        requires
            old(self).wf(),
        ensures
            final(self).wf(),
            final(self).snapshot == old(self).snapshot,
            final(self).ts == old(self).ts,
            final(self).isolation == old(self).isolation,
            final(self).bypass_locks == old(self).bypass_locks,
            final(self).lower_bound == old(self).lower_bound,
            final(self).upper_bound == old(self).upper_bound,
            final(self).met_newer_ts_data == old(self).met_newer_ts_data,
            r is Some ==> {
                let k = r.unwrap()@;
                &&& past(k, old(self).last_view(), old(self).lower_bound@)
                &&& below(k, old(self).upper_view())
                &&& final(self).last_view() == Some(k)
                &&& forall|k2: Seq<u8>|
                    past(k2, old(self).last_view(), old(self).lower_bound@) && #[trigger] bytes_lt(k2, k)
                        ==> absent(old(self).snapshot@, k2)
                &&& measure(final(self).snapshot, final(self).last_view()) < measure(
                    old(self).snapshot,
                    old(self).last_view(),
                )
            },
            r is None ==> final(self).last_view() == old(self).last_view() && forall|k2: Seq<u8>|
                #[trigger] past(k2, old(self).last_view(), old(self).lower_bound@) && below(
                    k2,
                    old(self).upper_view(),
                ) ==> absent(old(self).snapshot@, k2),
    {
        let ghost s = self.snapshot@;
        let ghost last = self.last_view();
        let ghost lower = self.lower_bound@;
        let ghost upper = self.upper_view();
        self.position();
        let lv = self.cursors.lock.valid();
        let wv = self.cursors.write.valid();
        if !lv && !wv {
            proof {
                assert forall|k2: Seq<u8>| #[trigger] past(k2, last, lower) && below(k2, upper) implies absent(s, k2) by {
                    lemma_entries_absent(self.snapshot, k2);
                }
            }
            return None;
        }
        let cur: Vec<u8> = if lv && wv {
            let lk = self.cursors.lock.key();
            let wk = self.cursors.write.key();
            if compare_bytes(lk, wk) <= 0 {
                lk.clone()
            } else {
                wk.clone()
            }
        } else if lv {
            self.cursors.lock.key().clone()
        } else {
            self.cursors.write.key().clone()
        };
        proof {
            lemma_bytes_lt_irreflexive(cur@);
            if lv {
                lemma_bytes_lt_irreflexive(self.cursors.lock.cur_key());
            }
            if wv {
                lemma_bytes_lt_irreflexive(self.cursors.write.cur_key());
            }
            if lv && wv {
                lemma_bytes_lt_asymmetric(self.cursors.lock.cur_key(), self.cursors.write.cur_key());
                lemma_bytes_lt_total(self.cursors.lock.cur_key(), self.cursors.write.cur_key());
            }
            assert(lv ==> !bytes_lt(self.cursors.lock.cur_key(), cur@));
            assert(wv ==> !bytes_lt(self.cursors.write.cur_key(), cur@));
            assert(past(cur@, last, lower));
            assert forall|k2: Seq<u8>| past(k2, last, lower) && #[trigger] bytes_lt(k2, cur@) implies absent(s, k2) by {
                lemma_before_absent(self.cursors.lock, last, lower, cur@, k2);
                lemma_before_absent(self.cursors.write, last, lower, cur@, k2);
                lemma_entries_absent(self.snapshot, k2);
            }
            lemma_measure(self.snapshot, last, cur@, self.cursors.lock, self.cursors.write, lower);
        }
        match &self.upper_bound {
            Some(u) => {
                if compare_bytes(&cur, u) >= 0 {
                    proof {
                        assert forall|k2: Seq<u8>| #[trigger] past(k2, last, lower) && below(k2, upper) implies absent(s, k2) by {
                            if !bytes_lt(k2, cur@) {
                                lemma_bytes_lt_total(cur@, u@);
                                if bytes_lt(u@, cur@) {
                                    lemma_bytes_lt_transitive(k2, u@, cur@);
                                }
                                lemma_bytes_lt_asymmetric(k2, cur@);
                            }
                        }
                    }
                    return None;
                }
            },
            None => {},
        }
        self.last_key = Some(cur.clone());
        proof {
            if let Some(l) = last {
                if bytes_lt(cur@, lower) {
                    lemma_bytes_lt_transitive(l, cur@, lower);
                }
            }
        }
        Some(cur)
    }

    /// Whether the lock on `key`, if any, blocks this scan's read of it.
    fn lock_conflict(&self, key: &Vec<u8>) -> (r: Option<LockInfo>)
        requires
            self.wf(),
        ensures
            r is Some <==> blocked(self.snapshot@, key@, self.ts, self.isolation, self.bypass_locks@),
            r is Some ==> is_lock_info(
                r.unwrap(),
                self.snapshot@.locks[(key@, LOCK_TS)],
                key@,
                self.snapshot@.locks[(key@, LOCK_TS)].ttl,
            ),
    {
        if self.isolation != IsolationLevel::Si {
            return None;
        }
        match self.snapshot.locks.get(key, LOCK_TS) {
            Some(l) => {
                if l.ts <= self.ts && (l.lock_type == LockType::Put || l.lock_type == LockType::Delete) {
                    let mut bypassed = false;
                    let mut i: usize = 0;
                    while i < self.bypass_locks.len()
                        invariant
                            i <= self.bypass_locks.len(),
                            bypassed == (exists|j: int| 0 <= j < i && self.bypass_locks@[j] == l.ts),
                        decreases self.bypass_locks.len() - i,
                    {
                        if self.bypass_locks[i] == l.ts {
                            bypassed = true;
                        }
                        i += 1;
                    }
                    let own_primary = self.ts == u64::MAX && compare_bytes(key, &l.primary) == 0;
                    if !bypassed && !own_primary {
                        return Some(lock_info(l, key));
                    }
                }
                None
            },
            None => None,
        }
    }

    /// The value of `key` visible at the scan timestamp, read through the
    /// write cursor: it moves to the newest version at or below the scan
    /// timestamp, then steps over lock and rollback records to the first put
    /// or delete of the key.
    fn read_value(&mut self, key: &Vec<u8>) -> (r: Result<Option<Vec<u8>>, MvccError>)
        requires
            old(self).wf(),
        ensures
            final(self).wf(),
            final(self).snapshot == old(self).snapshot,
            final(self).ts == old(self).ts,
            final(self).isolation == old(self).isolation,
            final(self).bypass_locks == old(self).bypass_locks,
            final(self).lower_bound == old(self).lower_bound,
            final(self).upper_bound == old(self).upper_bound,
            final(self).last_key == old(self).last_key,
            final(self).met_newer_ts_data == old(self).met_newer_ts_data,
            r is Ok <==> read_spec(old(self).snapshot@, key@, old(self).ts) is Ok,
            r is Ok ==> opt_bytes(r.unwrap()) == read_spec(old(self).snapshot@, key@, old(self).ts).unwrap(),
            r is Err ==> r.unwrap_err() is DefaultNotFound,
    {
        let ghost s = self.snapshot@;
        let ghost k = key@;
        let ts = self.ts;
        let ghost t = &self.snapshot.writes;
        let mut on = self.cursors.write.seek(key, ts);
        let ghost mut left: int = 0;
        proof {
            if on && self.cursors.write.cur_key() == k {
                left = self.cursors.write.cur_ts() as int + 1;
            }
            if on {
                let i = self.cursors.write.pos.unwrap() as int;
                assert forall|j: int|
                    0 <= j < t.entries@.len() && after(t, j, k, ts, false) && #[trigger] entry_lt(
                        t.entries@[j].key@,
                        t.entries@[j].ts,
                        t.entries@[i].key@,
                        t.entries@[i].ts,
                    ) implies t.entries@[j].key@ == k && !is_data(t.entries@[j].value@) by {}
            }
        }
        loop
            invariant
                self.wf(),
                self.snapshot == old(self).snapshot,
                s == self.snapshot@,
                k == key@,
                t == &self.snapshot.writes,
                self.ts == ts,
                ts == old(self).ts,
                self.isolation == old(self).isolation,
                self.bypass_locks == old(self).bypass_locks,
                self.lower_bound == old(self).lower_bound,
                self.upper_bound == old(self).upper_bound,
                self.last_key == old(self).last_key,
                self.met_newer_ts_data == old(self).met_newer_ts_data,
                on == self.cursors.write.on_entry(),
                self.cursors.write.pos is Some ==> self.cursors.write.pos.unwrap() < t.entries@.len(),
                on ==> after(t, self.cursors.write.pos.unwrap() as int, k, ts, false),
                on ==> forall|j: int|
                    0 <= j < t.entries@.len() && after(t, j, k, ts, false) && #[trigger] entry_lt(
                        t.entries@[j].key@,
                        t.entries@[j].ts,
                        self.cursors.write.cur_key(),
                        self.cursors.write.cur_ts(),
                    ) ==> t.entries@[j].key@ == k && !is_data(t.entries@[j].value@),
                !on ==> forall|j: int|
                    0 <= j < t.entries@.len() && #[trigger] after(t, j, k, ts, false) ==> t.entries@[j].key@ == k
                        && !is_data(t.entries@[j].value@),
                on && self.cursors.write.cur_key() == k ==> left == self.cursors.write.cur_ts() as int + 1,
            decreases left,
        {
            if !on {
                proof {
                    assert forall|c: u64| #[trigger] s.writes.contains_key((k, c)) implies !crate::store::selected(
                        Pick::DataAtOrBelow(ts),
                        c,
                        s.writes[(k, c)],
                    ) by {
                        let j = choose|j: int| t.holds(j, k, c);
                        t.lemma_entry(j);
                        if c <= ts && is_data(s.writes[(k, c)]) {
                            lemma_bytes_lt_irreflexive(k);
                            assert(t.entries@[j].key@ == k && t.entries@[j].ts == c);
                            assert(after(t, j, k, ts, false));
                            assert(!is_data(t.entries@[j].value@));
                            assert(t.entries@[j].value@ == s.writes[(k, c)]);
                        }
                    }
                    lemma_none_selected(s.writes, k, Pick::DataAtOrBelow(ts));
                }
                return Ok(None);
            }
            let same = compare_bytes(self.cursors.write.key(), key) == 0;
            if !same {
                proof {
                    let ck = self.cursors.write.cur_key();
                    let ct = self.cursors.write.cur_ts();
                    assert(ck != k);
                    assert(after(t, self.cursors.write.pos.unwrap() as int, k, ts, false));
                    assert(bytes_lt(k, ck));
                    assert forall|c: u64| #[trigger] s.writes.contains_key((k, c)) implies !crate::store::selected(
                        Pick::DataAtOrBelow(ts),
                        c,
                        s.writes[(k, c)],
                    ) by {
                        let j = choose|j: int| t.holds(j, k, c);
                        t.lemma_entry(j);
                        if c <= ts && is_data(s.writes[(k, c)]) {
                            lemma_bytes_lt_irreflexive(k);
                            assert(after(t, j, k, ts, false));
                            assert(entry_lt(k, c, ck, ct));
                        }
                    }
                    lemma_none_selected(s.writes, k, Pick::DataAtOrBelow(ts));
                }
                return Ok(None);
            }
            let w = self.cursors.write.value();
            if w.write_type == WriteType::Put || w.write_type == WriteType::Delete {
                proof {
                    let i = self.cursors.write.pos.unwrap() as int;
                    let ct = t.entries@[i].ts;
                    t.lemma_entry(i);
                    lemma_bytes_lt_irreflexive(k);
                    assert(ct <= ts);
                    assert forall|c2: u64| #[trigger] s.writes.contains_key((k, c2)) && crate::store::selected(
                        Pick::DataAtOrBelow(ts),
                        c2,
                        s.writes[(k, c2)],
                    ) implies c2 <= ct by {
                        let j = choose|j: int| t.holds(j, k, c2);
                        t.lemma_entry(j);
                        if c2 > ct {
                            assert(after(t, j, k, ts, false));
                            assert(entry_lt(k, c2, k, ct));
                        }
                    }
                    assert(newest(s.writes, k, Pick::DataAtOrBelow(ts), ct));
                    lemma_newest_unique(s.writes, k, Pick::DataAtOrBelow(ts), ct);
                }
                let snapshot = self.snapshot;
                return snapshot.load_data(key, w);
            }
            let ghost i0 = self.cursors.write.pos.unwrap() as int;
            let ghost ck0 = self.cursors.write.cur_key();
            let ghost ct0 = self.cursors.write.cur_ts();
            on = self.cursors.write.next();
            proof {
                lemma_bytes_lt_irreflexive(k);
                if on {
                    let i = self.cursors.write.pos.unwrap() as int;
                    assert(entry_lt(ck0, ct0, t.entries@[i].key@, t.entries@[i].ts));
                    if entry_lt(k, ts, ck0, ct0) {
                        lemma_entry_lt_transitive(k, ts, ck0, ct0, t.entries@[i].key@, t.entries@[i].ts);
                    }
                    assert forall|j: int|
                        0 <= j < t.entries@.len() && after(t, j, k, ts, false) && #[trigger] entry_lt(
                            t.entries@[j].key@,
                            t.entries@[j].ts,
                            self.cursors.write.cur_key(),
                            self.cursors.write.cur_ts(),
                        ) implies t.entries@[j].key@ == k && !is_data(t.entries@[j].value@) by {
                        let ej = t.entries@[j];
                        if !entry_lt(ej.key@, ej.ts, ck0, ct0) {
                            lemma_bytes_lt_total(ej.key@, ck0);
                            if !(ej.key@ == ck0 && ej.ts == ct0) {
                                assert(after(t, j, ck0, ct0, true));
                            } else {
                                assert(j == i0) by {
                                    assert(t.entries@[i0].key@ == ej.key@ && t.entries@[i0].ts == ej.ts);
                                }
                            }
                        }
                    }
                    if self.cursors.write.cur_key() == k {
                        assert(self.cursors.write.cur_ts() < ct0);
                        left = self.cursors.write.cur_ts() as int + 1;
                    } else {
                        left = 0;
                    }
                } else {
                    assert forall|j: int|
                        0 <= j < t.entries@.len() && #[trigger] after(t, j, k, ts, false) implies t.entries@[j].key@ == k
                            && !is_data(t.entries@[j].value@) by {
                        let ej = t.entries@[j];
                        lemma_bytes_lt_total(ej.key@, ck0);
                        if !(ej.key@ == ck0 && ej.ts == ct0) && !entry_lt(ej.key@, ej.ts, ck0, ct0) {
                            assert(after(t, j, ck0, ct0, true));
                        } else if ej.key@ == ck0 && ej.ts == ct0 {
                            assert(j == i0) by {
                                assert(t.entries@[i0].key@ == ej.key@ && t.entries@[i0].ts == ej.ts);
                            }
                        }
                    }
                    left = 0;
                }
            }
        }
    }

    /// Records meeting data newer than the scan timestamp on `key`.
    fn check_newer(&mut self, key: &Vec<u8>)
        requires
            old(self).wf(),
        ensures
            final(self).wf(),
            final(self).snapshot == old(self).snapshot,
            final(self).ts == old(self).ts,
            final(self).isolation == old(self).isolation,
            final(self).bypass_locks == old(self).bypass_locks,
            final(self).lower_bound == old(self).lower_bound,
            final(self).upper_bound == old(self).upper_bound,
            final(self).last_key == old(self).last_key,
            old(self).met_newer_ts_data != NewerTsCheckState::NotMetYet ==> final(self).met_newer_ts_data
                == old(self).met_newer_ts_data,
            old(self).met_newer_ts_data != NewerTsCheckState::Unknown ==> final(self).met_newer_ts_data
                != NewerTsCheckState::Unknown,
            old(self).met_newer_ts_data == NewerTsCheckState::Unknown ==> final(self).met_newer_ts_data
                == NewerTsCheckState::Unknown,
    {
        if self.met_newer_ts_data == NewerTsCheckState::NotMetYet {
            let newer = self.snapshot.locks.get(key, LOCK_TS).is_some() || match self.snapshot.seek_write(key, u64::MAX) {
                Some((c, _)) => c > self.ts,
                None => false,
            };
            if newer {
                self.met_newer_ts_data = NewerTsCheckState::Met;
            }
        }
    }

    /// The next key in range, in key order, whose value is visible at the
    /// scan timestamp, with that value; none once the range is exhausted.
    /// Keys passed over hold no visible value. A lock that blocks the read
    /// fails the scan with `KeyIsLocked` at that key.
    pub fn read_next(&mut self) -> (r: Result<Option<(Vec<u8>, Vec<u8>)>, MvccError>)
        requires
            old(self).wf(),
        ensures
            ({
                let s = old(self).snapshot@;
                let ts = old(self).ts;
                let iso = old(self).isolation;
                let bp = old(self).bypass_locks@;
                let last = old(self).last_view();
                let lower = old(self).lower_bound@;
                let upper = old(self).upper_view();
                &&& final(self).wf()
                &&& final(self).snapshot == old(self).snapshot
                &&& final(self).ts == ts
                &&& final(self).isolation == iso
                &&& final(self).bypass_locks@ == bp
                &&& final(self).lower_bound@ == lower
                &&& final(self).upper_view() == upper
                &&& old(self).met_newer_ts_data != NewerTsCheckState::NotMetYet ==> final(self).met_newer_ts_data
                    == old(self).met_newer_ts_data
                &&& final(self).met_newer_ts_data == NewerTsCheckState::Unknown ==> old(self).met_newer_ts_data
                    == NewerTsCheckState::Unknown
                &&& (r matches Ok(Some((k, v))) ==> {
                    &&& past(k@, last, lower)
                    &&& below(k@, upper)
                    &&& !blocked(s, k@, ts, iso, bp)
                    &&& read_spec(s, k@, ts) == Ok::<Option<Seq<u8>>, ()>(Some(v@))
                    &&& final(self).last_view() == Some(k@)
                    &&& forall|k2: Seq<u8>| past(k2, last, lower) && #[trigger] bytes_lt(k2, k@) ==> quiet(s, k2, ts, iso, bp)
                })
                &&& (r matches Ok(None) ==> forall|k2: Seq<u8>|
                    #[trigger] past(k2, last, lower) && below(k2, upper) ==> quiet(s, k2, ts, iso, bp))
                &&& (r matches Err(MvccError::KeyIsLocked(info)) ==> {
                    &&& past(info.key@, last, lower)
                    &&& below(info.key@, upper)
                    &&& blocked(s, info.key@, ts, iso, bp)
                    &&& is_lock_info(info, s.locks[(info.key@, LOCK_TS)], info.key@, s.locks[(info.key@, LOCK_TS)].ttl)
                    &&& final(self).last_view() == Some(info.key@)
                    &&& forall|k2: Seq<u8>| past(k2, last, lower) && #[trigger] bytes_lt(k2, info.key@) ==> quiet(s, k2, ts, iso, bp)
                })
                &&& (r is Err ==> r.unwrap_err() is KeyIsLocked || r.unwrap_err() is DefaultNotFound)
                &&& (r is Err && r.unwrap_err() is DefaultNotFound ==> final(self).last_view() is Some && {
                    let k = final(self).last_view().unwrap();
                    &&& past(k, last, lower)
                    &&& below(k, upper)
                    &&& !blocked(s, k, ts, iso, bp)
                    &&& read_spec(s, k, ts) is Err
                    &&& forall|k2: Seq<u8>| past(k2, last, lower) && #[trigger] bytes_lt(k2, k) ==> quiet(s, k2, ts, iso, bp)
                })
            }),
    {
        let ghost s = self.snapshot@;
        let ghost last0 = self.last_view();
        let ghost lower = self.lower_bound@;
        let ghost upper = self.upper_view();
        proof {
            if last0 is Some {
                lemma_bytes_lt_irreflexive(last0.unwrap());
            }
        }
        loop
            invariant
                self.wf(),
                self.snapshot == old(self).snapshot,
                s == self.snapshot@,
                self.ts == old(self).ts,
                self.isolation == old(self).isolation,
                self.bypass_locks == old(self).bypass_locks,
                self.lower_bound == old(self).lower_bound,
                self.upper_bound == old(self).upper_bound,
                old(self).met_newer_ts_data != NewerTsCheckState::NotMetYet ==> self.met_newer_ts_data
                    == old(self).met_newer_ts_data,
                self.met_newer_ts_data == NewerTsCheckState::Unknown ==> old(self).met_newer_ts_data
                    == NewerTsCheckState::Unknown,
                lower == self.lower_bound@,
                upper == self.upper_view(),
                last0 == old(self).last_view(),
                self.last_view() == last0 || (self.last_view() is Some && past(self.last_view().unwrap(), last0, lower)),
                last0 is Some ==> self.last_view() is Some && !bytes_lt(self.last_view().unwrap(), last0.unwrap()),
                forall|k2: Seq<u8>| #[trigger] past(k2, last0, lower) && !past(k2, self.last_view(), lower) ==> quiet(
                    s,
                    k2,
                    self.ts,
                    self.isolation,
                    self.bypass_locks@,
                ),
            decreases measure(self.snapshot, self.last_view()),
        {
            let ghost last = self.last_view();
            let ghost ts = self.ts;
            let ghost iso = self.isolation;
            let ghost bp = self.bypass_locks@;
            let cur = match self.advance() {
                None => {
                    proof {
                        assert forall|k2: Seq<u8>| #[trigger] past(k2, last0, lower) && below(k2, upper) implies quiet(
                            s, k2, ts, iso, bp) by {
                            if past(k2, last, lower) {
                                lemma_absent_quiet(s, k2, ts, iso, bp);
                            }
                        }
                    }
                    return Ok(None);
                },
                Some(cur) => cur,
            };
            proof {
                lemma_past_chain(last0, last, lower, cur@);
                assert forall|k2: Seq<u8>| past(k2, last0, lower) && #[trigger] bytes_lt(k2, cur@) implies quiet(
                    s, k2, ts, iso, bp) by {
                    if past(k2, last, lower) {
                        lemma_absent_quiet(s, k2, ts, iso, bp);
                    }
                }
            }
            if let Some(info) = self.lock_conflict(&cur) {
                return Err(MvccError::KeyIsLocked(info));
            }
            let value = match self.read_value(&cur) {
                Ok(v) => v,
                Err(e) => {
                    return Err(e);
                },
            };
            self.check_newer(&cur);
            match value {
                Some(v) => {
                    return Ok(Some((cur, v)));
                },
                None => {
                    proof {
                        assert(quiet(s, cur@, ts, iso, bp));
                        assert forall|k2: Seq<u8>| #[trigger] past(k2, last0, lower) && !past(k2, self.last_view(), lower) implies quiet(
                            s, k2, ts, iso, bp) by {
                            if past(k2, last, lower) {
                                lemma_bytes_lt_total(k2, cur@);
                            }
                        }
                    }
                },
            }
        }
    }

    /// The next key in range, in key order, whose newest put or delete at or
    /// below the scan timestamp is newer than the policy's `after_ts`, with
    /// that record; deletes only where the policy asks for them. Keys passed
    /// over yield no entry. A lock that blocks the read fails the scan with
    /// `KeyIsLocked` at that key.
    pub fn read_next_entry(&mut self, policy: &LatestEntryPolicy) -> (r: Result<Option<TxnEntry>, MvccError>)
        requires
            old(self).wf(),
        ensures
            ({
                let s = old(self).snapshot@;
                let ts = old(self).ts;
                let iso = old(self).isolation;
                let bp = old(self).bypass_locks@;
                let last = old(self).last_view();
                let lower = old(self).lower_bound@;
                let upper = old(self).upper_view();
                &&& final(self).wf()
                &&& final(self).snapshot == old(self).snapshot
                &&& final(self).ts == ts
                &&& final(self).isolation == iso
                &&& final(self).bypass_locks@ == bp
                &&& final(self).lower_bound@ == lower
                &&& final(self).upper_view() == upper
                &&& (r matches Ok(Some(e)) ==> {
                    &&& past(e.key@, last, lower)
                    &&& below(e.key@, upper)
                    &&& !blocked(s, e.key@, ts, iso, bp)
                    &&& entry_spec(s, e.key@, ts, *policy) == Some(e.commit_ts)
                    &&& e.write@ == s.writes[(e.key@, e.commit_ts)]
                    &&& value_of_spec(s, e.key@, e.write@) == Ok::<Option<Seq<u8>>, ()>(opt_bytes(e.value))
                    &&& final(self).last_view() == Some(e.key@)
                    &&& forall|k2: Seq<u8>| past(k2, last, lower) && #[trigger] bytes_lt(k2, e.key@) ==> quiet_entry(s, k2, ts, iso, bp, *policy)
                })
                &&& (r matches Ok(None) ==> forall|k2: Seq<u8>|
                    #[trigger] past(k2, last, lower) && below(k2, upper) ==> quiet_entry(s, k2, ts, iso, bp, *policy))
                &&& (r matches Err(MvccError::KeyIsLocked(info)) ==> {
                    &&& past(info.key@, last, lower)
                    &&& below(info.key@, upper)
                    &&& blocked(s, info.key@, ts, iso, bp)
                    &&& is_lock_info(info, s.locks[(info.key@, LOCK_TS)], info.key@, s.locks[(info.key@, LOCK_TS)].ttl)
                    &&& final(self).last_view() == Some(info.key@)
                    &&& forall|k2: Seq<u8>| past(k2, last, lower) && #[trigger] bytes_lt(k2, info.key@) ==> quiet_entry(s, k2, ts, iso, bp, *policy)
                })
                &&& (r is Err ==> r.unwrap_err() is KeyIsLocked || r.unwrap_err() is DefaultNotFound)
                &&& (r is Err && r.unwrap_err() is DefaultNotFound ==> final(self).last_view() is Some && {
                    let k = final(self).last_view().unwrap();
                    &&& past(k, last, lower)
                    &&& below(k, upper)
                    &&& !blocked(s, k, ts, iso, bp)
                    &&& entry_spec(s, k, ts, *policy) is Some
                    &&& value_of_spec(s, k, s.writes[(k, entry_spec(s, k, ts, *policy).unwrap())]) is Err
                    &&& forall|k2: Seq<u8>| past(k2, last, lower) && #[trigger] bytes_lt(k2, k) ==> quiet_entry(s, k2, ts, iso, bp, *policy)
                })
            }),
    {
        let ghost s = self.snapshot@;
        let ghost last0 = self.last_view();
        let ghost lower = self.lower_bound@;
        let ghost upper = self.upper_view();
        proof {
            if last0 is Some {
                lemma_bytes_lt_irreflexive(last0.unwrap());
            }
        }
        loop
            invariant
                self.wf(),
                self.snapshot == old(self).snapshot,
                s == self.snapshot@,
                self.ts == old(self).ts,
                self.isolation == old(self).isolation,
                self.bypass_locks == old(self).bypass_locks,
                self.lower_bound == old(self).lower_bound,
                self.upper_bound == old(self).upper_bound,
                lower == self.lower_bound@,
                upper == self.upper_view(),
                last0 == old(self).last_view(),
                self.last_view() == last0 || (self.last_view() is Some && past(self.last_view().unwrap(), last0, lower)),
                last0 is Some ==> self.last_view() is Some && !bytes_lt(self.last_view().unwrap(), last0.unwrap()),
                forall|k2: Seq<u8>| #[trigger] past(k2, last0, lower) && !past(k2, self.last_view(), lower) ==> quiet_entry(
                    s,
                    k2,
                    self.ts,
                    self.isolation,
                    self.bypass_locks@,
                    *policy,
                ),
            decreases measure(self.snapshot, self.last_view()),
        {
            let ghost last = self.last_view();
            let ghost ts = self.ts;
            let ghost iso = self.isolation;
            let ghost bp = self.bypass_locks@;
            let cur = match self.advance() {
                None => {
                    proof {
                        assert forall|k2: Seq<u8>| #[trigger] past(k2, last0, lower) && below(k2, upper) implies quiet_entry(
                            s, k2, ts, iso, bp, *policy) by {
                            if past(k2, last, lower) {
                                lemma_absent_quiet_entry(s, k2, ts, iso, bp, *policy);
                            }
                        }
                    }
                    return Ok(None);
                },
                Some(cur) => cur,
            };
            proof {
                lemma_past_chain(last0, last, lower, cur@);
                assert forall|k2: Seq<u8>| past(k2, last0, lower) && #[trigger] bytes_lt(k2, cur@) implies quiet_entry(
                    s, k2, ts, iso, bp, *policy) by {
                    if past(k2, last, lower) {
                        lemma_absent_quiet_entry(s, k2, ts, iso, bp, *policy);
                    }
                }
            }
            if let Some(info) = self.lock_conflict(&cur) {
                return Err(MvccError::KeyIsLocked(info));
            }
            let mut found: Option<TxnEntry> = None;
            match self.snapshot.find_newest(&cur, Pick::DataAtOrBelow(self.ts)) {
                Some(i) => {
                    let e = &self.snapshot.writes.entries[i];
                    proof {
                        lemma_newest_unique(s.writes, cur@, Pick::DataAtOrBelow(ts), e.ts);
                        self.snapshot.writes.lemma_entry(i as int);
                    }
                    if e.ts > policy.after_ts && (e.value.write_type == WriteType::Put || policy.output_delete) {
                        let value = match self.snapshot.load_data(&cur, &e.value) {
                            Ok(Some(v)) => v,
                            Ok(None) => Vec::new(),
                            Err(err) => {
                                return Err(err);
                            },
                        };
                        proof {
                            if e.value.write_type != WriteType::Put {
                                assert(value@ =~= Seq::<u8>::empty());
                            }
                        }
                        found = Some(TxnEntry {
                            key: cur.clone(),
                            commit_ts: e.ts,
                            write: e.value.duplicate(),
                            value: if e.value.write_type == WriteType::Put { Some(value) } else { None },
                        });
                    }
                },
                None => {
                    proof {
                        lemma_none_selected(s.writes, cur@, Pick::DataAtOrBelow(ts));
                    }
                },
            }
            match found {
                Some(entry) => {
                    return Ok(Some(entry));
                },
                None => {
                    proof {
                        assert(quiet_entry(s, cur@, ts, iso, bp, *policy));
                        assert forall|k2: Seq<u8>| #[trigger] past(k2, last0, lower) && !past(k2, self.last_view(), lower) implies quiet_entry(
                            s, k2, ts, iso, bp, *policy) by {
                            if past(k2, last, lower) {
                                lemma_bytes_lt_total(k2, cur@);
                            }
                        }
                    }
                },
            }
        }
    }

    /// The puts and deletes of `key` committed after `from` and at or below
    /// the scan timestamp, newest first.
    fn delta_commits_of(&self, key: &Vec<u8>, from: u64, read_old: bool) -> (r: Result<Vec<DeltaEntry>, MvccError>)
        requires
            self.wf(),
        ensures
            r is Ok ==> ({
                let cs = delta_commits(self.snapshot@, key@, from, self.ts);
                &&& r.unwrap()@.len() == cs.len()
                &&& forall|i: int| 0 <= i < cs.len() ==> commit_entry(self.snapshot@, #[trigger] r.unwrap()@[i], key@, cs[i], read_old)
            }),
            r is Err ==> r.unwrap_err() is DefaultNotFound && exists|i: int|
                0 <= i < delta_commits(self.snapshot@, key@, from, self.ts).len() && commit_corrupt(
                    self.snapshot@,
                    key@,
                    #[trigger] delta_commits(self.snapshot@, key@, from, self.ts)[i],
                    read_old,
                ),
    {
        let ghost s = self.snapshot@;
        let mut out: Vec<DeltaEntry> = Vec::new();
        let mut bound: u64 = self.ts;
        let mut more = true;
        let ghost mut rest: Seq<u64> = delta_commits(s, key@, from, self.ts);
        while more
            invariant
                self.wf(),
                s == self.snapshot@,
                more ==> rest == delta_commits(s, key@, from, bound),
                !more ==> rest.len() == 0,
                out@.len() + rest.len() == delta_commits(s, key@, from, self.ts).len(),
                forall|i: int| 0 <= i < out@.len() ==> commit_entry(s, #[trigger] out@[i], key@, delta_commits(s, key@, from, self.ts)[i], read_old),
                rest == delta_commits(s, key@, from, self.ts).subrange(out@.len() as int, delta_commits(s, key@, from, self.ts).len() as int),
            decreases bound as int + if more { 1int } else { 0int },
        {
            match self.snapshot.find_newest(key, Pick::DataAtOrBelow(bound)) {
                Some(i) => {
                    let e = &self.snapshot.writes.entries[i];
                    proof {
                        lemma_newest_unique(s.writes, key@, Pick::DataAtOrBelow(bound), e.ts);
                        self.snapshot.writes.lemma_entry(i as int);
                    }
                    if e.ts > from {
                        let value = match self.snapshot.load_data(key, &e.value) {
                            Ok(v) => v,
                            Err(err) => {
                                proof {
                                    let all = delta_commits(s, key@, from, self.ts);
                                    let n = out@.len() as int;
                                    assert(rest[0] == e.ts);
                                    assert(all[n] == rest[0]);
                                    assert(commit_corrupt(s, key@, all[n], read_old));
                                }
                                return Err(err);
                            },
                        };
                        let old_value = if read_old && e.ts > 0 {
                            match self.snapshot.get_value(key, e.ts - 1) {
                                Ok(v) => v,
                                Err(err) => {
                                    proof {
                                        let all = delta_commits(s, key@, from, self.ts);
                                        let n = out@.len() as int;
                                        assert(rest[0] == e.ts);
                                        assert(all[n] == rest[0]);
                                        assert(commit_corrupt(s, key@, all[n], read_old));
                                    }
                                    return Err(err);
                                },
                            }
                        } else {
                            None
                        };
                        let ghost n = out@.len();
                        out.push(DeltaEntry::Commit { key: key.clone(), commit_ts: e.ts, write: e.value.duplicate(), value, old_value });
                        proof {
                            let all = delta_commits(s, key@, from, self.ts);
                            if e.ts == 0 {
                                assert(rest == seq![e.ts]);
                            } else {
                                assert(rest == seq![e.ts] + delta_commits(s, key@, from, (e.ts - 1) as u64));
                                assert(all.subrange(n as int + 1, all.len() as int) =~= rest.subrange(1, rest.len() as int));
                                assert(rest.subrange(1, rest.len() as int) =~= delta_commits(s, key@, from, (e.ts - 1) as u64));
                            }
                            assert(rest[0] == e.ts);
                            assert(all[n as int] == rest[0]);
                        }
                        if e.ts == 0 {
                            more = false;
                            proof {
                                rest = Seq::empty();
                            }
                        } else {
                            bound = e.ts - 1;
                            proof {
                                rest = delta_commits(s, key@, from, bound);
                            }
                        }
                    } else {
                        more = false;
                        proof {
                            assert(rest =~= Seq::<u64>::empty());
                            rest = Seq::empty();
                        }
                    }
                },
                None => {
                    proof {
                        lemma_none_selected(s.writes, key@, Pick::DataAtOrBelow(bound));
                        assert(rest =~= Seq::<u64>::empty());
                        rest = Seq::empty();
                    }
                    more = false;
                },
            }
        }
        Ok(out)
    }

    /// The changes of the next key in range, in key order, that has any: its
    /// lock at or below the scan timestamp first, then its puts and deletes
    /// committed after the policy's `from_ts`, newest first. Keys passed over
    /// have none.
    pub fn read_next_delta(&mut self, policy: &DeltaEntryPolicy) -> (r: Result<Option<Vec<DeltaEntry>>, MvccError>)
        requires
            old(self).wf(),
        ensures
            ({
                let s = old(self).snapshot@;
                let ts = old(self).ts;
                let last = old(self).last_view();
                let lower = old(self).lower_bound@;
                let upper = old(self).upper_view();
                &&& final(self).wf()
                &&& final(self).snapshot == old(self).snapshot
                &&& final(self).ts == ts
                &&& final(self).lower_bound@ == lower
                &&& final(self).upper_view() == upper
                &&& (r matches Ok(Some(es)) ==> final(self).last_view() is Some && {
                    let k = final(self).last_view().unwrap();
                    let off: int = if delta_lock(s, k, policy.from_ts, ts) { 1 } else { 0 };
                    let cs = delta_commits(s, k, policy.from_ts, ts);
                    &&& past(k, last, lower)
                    &&& below(k, upper)
                    &&& !quiet_delta(s, k, ts, *policy)
                    &&& es@.len() == off + cs.len()
                    &&& delta_lock(s, k, policy.from_ts, ts) ==> (es@[0] matches DeltaEntry::Prewrite { key, lock, value, old_value }
                        && key@ == k && lock@ == s.locks[(k, LOCK_TS)]
                        && lock_value_spec(s, k, lock@) == Ok::<Option<Seq<u8>>, ()>(opt_bytes(value))
                        && lock_old_spec(s, k, lock@, policy.read_old_value) == Ok::<Option<Seq<u8>>, ()>(opt_bytes(old_value)))
                    &&& forall|i: int| off <= i < es@.len() ==> commit_entry(s, #[trigger] es@[i], k, cs[i - off], policy.read_old_value)
                    &&& !delta_lock(s, k, policy.from_ts, ts) ==> forall|i: int| 0 <= i < es@.len() ==> commit_entry(s, #[trigger] es@[i], k, cs[i], policy.read_old_value)
                    &&& delta_lock(s, k, policy.from_ts, ts) ==> forall|i: int| 1 <= i < es@.len() ==> commit_entry(s, #[trigger] es@[i], k, cs[i - 1], policy.read_old_value)
                    &&& forall|k2: Seq<u8>| past(k2, last, lower) && #[trigger] bytes_lt(k2, k) ==> quiet_delta(s, k2, ts, *policy)
                })
                &&& (r matches Ok(None) ==> forall|k2: Seq<u8>|
                    #[trigger] past(k2, last, lower) && below(k2, upper) ==> quiet_delta(s, k2, ts, *policy))
                &&& (r is Err ==> r.unwrap_err() is DefaultNotFound && final(self).last_view() is Some && {
                    let k = final(self).last_view().unwrap();
                    let cs = delta_commits(s, k, policy.from_ts, ts);
                    &&& past(k, last, lower)
                    &&& below(k, upper)
                    &&& ((delta_lock(s, k, policy.from_ts, ts) && (lock_value_spec(s, k, s.locks[(k, LOCK_TS)]) is Err
                        || lock_old_spec(s, k, s.locks[(k, LOCK_TS)], policy.read_old_value) is Err))
                        || exists|i: int| 0 <= i < cs.len() && commit_corrupt(s, k, #[trigger] cs[i], policy.read_old_value))
                    &&& forall|k2: Seq<u8>| past(k2, last, lower) && #[trigger] bytes_lt(k2, k) ==> quiet_delta(s, k2, ts, *policy)
                })
            }),
    {
        let ghost s = self.snapshot@;
        let ghost last0 = self.last_view();
        let ghost lower = self.lower_bound@;
        let ghost upper = self.upper_view();
        proof {
            if last0 is Some {
                lemma_bytes_lt_irreflexive(last0.unwrap());
            }
        }
        loop
            invariant
                self.wf(),
                self.snapshot == old(self).snapshot,
                s == self.snapshot@,
                self.ts == old(self).ts,
                self.lower_bound == old(self).lower_bound,
                self.upper_bound == old(self).upper_bound,
                lower == self.lower_bound@,
                upper == self.upper_view(),
                last0 == old(self).last_view(),
                self.last_view() == last0 || (self.last_view() is Some && past(self.last_view().unwrap(), last0, lower)),
                last0 is Some ==> self.last_view() is Some && !bytes_lt(self.last_view().unwrap(), last0.unwrap()),
                forall|k2: Seq<u8>| #[trigger] past(k2, last0, lower) && !past(k2, self.last_view(), lower) ==> quiet_delta(
                    s,
                    k2,
                    self.ts,
                    *policy,
                ),
            decreases measure(self.snapshot, self.last_view()),
        {
            let ghost last = self.last_view();
            let ghost ts = self.ts;
            let cur = match self.advance() {
                None => {
                    proof {
                        assert forall|k2: Seq<u8>| #[trigger] past(k2, last0, lower) && below(k2, upper) implies quiet_delta(
                            s, k2, ts, *policy) by {
                            if past(k2, last, lower) {
                                lemma_absent_quiet_delta(s, k2, ts, *policy);
                            }
                        }
                    }
                    return Ok(None);
                },
                Some(cur) => cur,
            };
            proof {
                lemma_past_chain(last0, last, lower, cur@);
                assert forall|k2: Seq<u8>| past(k2, last0, lower) && #[trigger] bytes_lt(k2, cur@) implies quiet_delta(
                    s, k2, ts, *policy) by {
                    if past(k2, last, lower) {
                        lemma_absent_quiet_delta(s, k2, ts, *policy);
                    }
                }
            }
            let mut out: Vec<DeltaEntry> = Vec::new();
            match self.snapshot.load_lock(&cur) {
                Some(lock) => {
                    if policy.from_ts < lock.ts && lock.ts <= self.ts {
                        let value = if lock.lock_type == LockType::Put && lock.short_value.is_none() {
                            match self.snapshot.values.get(&cur, lock.ts) {
                                Some(v) => Some(v.clone()),
                                None => {
                                    return Err(MvccError::DefaultNotFound { key: cur, start_ts: lock.ts });
                                },
                            }
                        } else {
                            None
                        };
                        let old_value = if policy.read_old_value && (lock.lock_type == LockType::Put
                            || lock.lock_type == LockType::Delete) {
                            let t = if lock.ts > lock.for_update_ts {
                                lock.ts
                            } else {
                                lock.for_update_ts
                            };
                            match self.snapshot.get_value(&cur, t) {
                                Ok(v) => v,
                                Err(e) => {
                                    return Err(e);
                                },
                            }
                        } else {
                            None
                        };
                        out.push(DeltaEntry::Prewrite { key: cur.clone(), lock, value, old_value });
                    }
                },
                None => {},
            }
            let ghost off = out@.len();
            let commits = match self.delta_commits_of(&cur, policy.from_ts, policy.read_old_value) {
                Ok(c) => c,
                Err(e) => {
                    return Err(e);
                },
            };
            let ghost cs = delta_commits(s, cur@, policy.from_ts, ts);
            let mut commits = commits;
            let ghost cv = commits@;
            assert(cv.len() <= usize::MAX) by {
                assert(commits@.len() == commits.len());
            }
            let mut j: usize = 0;
            while commits.len() > 0
                invariant
                    off == (if delta_lock(s, cur@, policy.from_ts, ts) { 1int } else { 0int }),
                    out@.len() == off + j,
                    j + commits@.len() == cv.len(),
                    cv.len() <= usize::MAX,
                    cv.len() == cs.len(),
                    commits@ == cv.subrange(j as int, cv.len() as int),
                    forall|i: int| 0 <= i < cv.len() ==> commit_entry(s, #[trigger] cv[i], cur@, cs[i], policy.read_old_value),
                    forall|i: int| off <= i < off + j ==> commit_entry(s, #[trigger] out@[i], cur@, cs[i - off], policy.read_old_value),
                    delta_lock(s, cur@, policy.from_ts, ts) ==> (out@[0] matches DeltaEntry::Prewrite { key, lock, value, old_value }
                        && key@ == cur@ && lock@ == s.locks[(cur@, LOCK_TS)]
                        && lock_value_spec(s, cur@, lock@) == Ok::<Option<Seq<u8>>, ()>(opt_bytes(value))
                        && lock_old_spec(s, cur@, lock@, policy.read_old_value) == Ok::<Option<Seq<u8>>, ()>(opt_bytes(old_value))),
                decreases commits@.len(),
            {
                let e = commits.remove(0);
                proof {
                    assert(e == cv[j as int]);
                    assert(commits@ =~= cv.subrange(j + 1, cv.len() as int));
                }
                out.push(e);
                j += 1;
            }
            if out.len() > 0 {
                return Ok(Some(out));
            }
            proof {
                assert(quiet_delta(s, cur@, ts, *policy));
                assert forall|k2: Seq<u8>| #[trigger] past(k2, last0, lower) && !past(k2, self.last_view(), lower) implies quiet_delta(
                    s, k2, ts, *policy) by {
                    if past(k2, last, lower) {
                        lemma_bytes_lt_total(k2, cur@);
                    }
                }
            }
        }
    }
}

/// No lock and no record of `k` is in the store.
pub open spec fn absent(s: SnapshotView, k: Seq<u8>) -> bool {
    &&& !s.locks.contains_key((k, LOCK_TS))
    &&& forall|c: u64| !#[trigger] s.writes.contains_key((k, c))
}

/// A key with no entry in either family has none in the store's view.
proof fn lemma_entries_absent(snap: &Snapshot, k: Seq<u8>)
    requires
        snap.wf(),
        forall|j: int| 0 <= j < snap.locks.entries@.len() ==> (#[trigger] snap.locks.entries@[j]).key@ != k,
        forall|j: int| 0 <= j < snap.writes.entries@.len() ==> (#[trigger] snap.writes.entries@[j]).key@ != k,
    ensures
        absent(snap@, k),
{
    if snap@.locks.contains_key((k, LOCK_TS)) {
        let j = choose|j: int| snap.locks.holds(j, k, LOCK_TS);
        assert(snap.locks.entries@[j].key@ == k);
    }
    assert forall|c: u64| !#[trigger] snap@.writes.contains_key((k, c)) by {
        if snap@.writes.contains_key((k, c)) {
            let j = choose|j: int| snap.writes.holds(j, k, c);
            assert(snap.writes.entries@[j].key@ == k);
        }
    }
}

/// An absent key is passed over.
proof fn lemma_absent_quiet(s: SnapshotView, k: Seq<u8>, ts: u64, iso: IsolationLevel, bp: Seq<u64>)
    requires
        absent(s, k),
    ensures
        quiet(s, k, ts, iso, bp),
{
    lemma_none_selected(s.writes, k, Pick::DataAtOrBelow(ts));
}

/// An absent key yields no entry.
proof fn lemma_absent_quiet_entry(
    s: SnapshotView,
    k: Seq<u8>,
    ts: u64,
    iso: IsolationLevel,
    bp: Seq<u64>,
    policy: LatestEntryPolicy,
)
    requires
        absent(s, k),
    ensures
        quiet_entry(s, k, ts, iso, bp, policy),
{
    lemma_none_selected(s.writes, k, Pick::DataAtOrBelow(ts));
}

/// An absent key yields no delta.
proof fn lemma_absent_quiet_delta(s: SnapshotView, k: Seq<u8>, ts: u64, policy: DeltaEntryPolicy)
    requires
        absent(s, k),
    ensures
        quiet_delta(s, k, ts, policy),
{
    lemma_none_selected(s.writes, k, Pick::DataAtOrBelow(ts));
}

/// No entry past the scan position sorts before the key under a positioned
/// cursor.
proof fn lemma_before_absent<V>(c: Cursor<V>, last: Option<Seq<u8>>, lower: Seq<u8>, cur: Seq<u8>, k2: Seq<u8>)
    requires
        positioned(c, last, lower),
        past(k2, last, lower),
        bytes_lt(k2, cur),
        c.pos is Some ==> !bytes_lt(c.table.entries@[c.pos.unwrap() as int].key@, cur),
    ensures
        forall|j: int| 0 <= j < c.table.entries@.len() ==> (#[trigger] c.table.entries@[j]).key@ != k2,
{
    assert forall|j: int| 0 <= j < c.table.entries@.len() implies (#[trigger] c.table.entries@[j]).key@ != k2 by {
        if c.table.entries@[j].key@ == k2 {
            let ck = c.table.entries@[c.pos.unwrap() as int].key@;
            assert(!bytes_lt(k2, ck));
            lemma_bytes_lt_total(k2, ck);
            lemma_bytes_lt_total(ck, cur);
            if bytes_lt(ck, k2) {
                lemma_bytes_lt_transitive(ck, k2, cur);
            }
            lemma_bytes_lt_asymmetric(ck, cur);
        }
    }
}

proof fn lemma_count_le_len<V>(t: Seq<Entry<V>>, k: Seq<u8>)
    ensures
        count_past(t, k) <= t.len(),
    decreases t.len(),
{
    if t.len() > 0 {
        lemma_count_le_len(t.drop_last(), k);
    }
}

/// Moving the scan position to `cur`, the key under one of the cursors,
/// shrinks what is left.
proof fn lemma_measure(
    snap: &Snapshot,
    last: Option<Seq<u8>>,
    cur: Seq<u8>,
    lc: Cursor<Dagger>,
    wc: Cursor<Write>,
    lower: Seq<u8>,
)
    requires
        lc.table == &snap.locks,
        wc.table == &snap.writes,
        past(cur, last, lower),
        (lc.pos is Some && lc.pos.unwrap() < snap.locks.entries@.len() && snap.locks.entries@[lc.pos.unwrap() as int].key@ == cur)
            || (wc.pos is Some && wc.pos.unwrap() < snap.writes.entries@.len() && snap.writes.entries@[wc.pos.unwrap() as int].key@ == cur),
    ensures
        measure(snap, Some(cur)) < measure(snap, last),
{
    lemma_count_le_len(snap.locks.entries@, cur);
    lemma_count_le_len(snap.writes.entries@, cur);
    lemma_bytes_lt_irreflexive(cur);
    match last {
        Some(l) => {
            lemma_count_past(snap.locks.entries@, l, cur);
            lemma_count_past(snap.writes.entries@, l, cur);
            if lc.pos is Some && lc.pos.unwrap() < snap.locks.entries@.len() && snap.locks.entries@[lc.pos.unwrap() as int].key@ == cur {
                let i = lc.pos.unwrap() as int;
                assert(bytes_lt(l, snap.locks.entries@[i].key@) && !bytes_lt(cur, snap.locks.entries@[i].key@));
            } else {
                let i = wc.pos.unwrap() as int;
                assert(bytes_lt(l, snap.writes.entries@[i].key@) && !bytes_lt(cur, snap.writes.entries@[i].key@));
            }
        },
        None => {},
    }
}

/// A key past the current position is past the first position too.
proof fn lemma_past_chain(last0: Option<Seq<u8>>, last: Option<Seq<u8>>, lower: Seq<u8>, cur: Seq<u8>)
    requires
        past(cur, last, lower),
        last == last0 || (last is Some && past(last.unwrap(), last0, lower)),
        last0 is Some ==> last is Some && !bytes_lt(last.unwrap(), last0.unwrap()),
        last0 is None && last is None ==> true,
    ensures
        past(cur, last0, lower),
        last0 is Some ==> !bytes_lt(cur, last0.unwrap()),
{
    if last == last0 {
        if let Some(l0) = last0 {
            lemma_bytes_lt_asymmetric(cur, l0);
        }
    } else {
        match last0 {
            Some(l0) => {
                let l = last.unwrap();
                lemma_bytes_lt_total(l, l0);
                if bytes_lt(l0, l) {
                    lemma_bytes_lt_transitive(l0, l, cur);
                }
                lemma_bytes_lt_asymmetric(cur, l0);
            },
            None => {
                match last {
                    Some(l) => {
                        if bytes_lt(cur, lower) {
                            lemma_bytes_lt_transitive(l, cur, lower);
                        }
                    },
                    None => {},
                }
            },
        }
    }
}

/// What is left to scan past the position `last`.
pub open spec fn measure(snap: &Snapshot, last: Option<Seq<u8>>) -> nat {
    match last {
        Some(l) => count_past(snap.locks.entries@, l) + count_past(snap.writes.entries@, l),
        None => snap.locks.entries@.len() + snap.writes.entries@.len() + 1,
    }
}

/// The cursor is on the first entry whose key is past the scan position, or
/// there is none.
pub open spec fn positioned<V>(c: Cursor<V>, last: Option<Seq<u8>>, lower: Seq<u8>) -> bool {
    &&& c.pos is Some ==> c.pos.unwrap() < c.table.entries@.len() && past(c.table.entries@[c.pos.unwrap() as int].key@, last, lower)
        && forall|j: int| 0 <= j < c.table.entries@.len() && past(#[trigger] c.table.entries@[j].key@, last, lower)
            ==> !bytes_lt(c.table.entries@[j].key@, c.table.entries@[c.pos.unwrap() as int].key@)
    &&& c.pos is None ==> forall|j: int| 0 <= j < c.table.entries@.len() ==> !past(#[trigger] c.table.entries@[j].key@, last, lower)
}

proof fn lemma_positioned<V>(c: Cursor<V>, last: Option<Seq<u8>>, lower: Seq<u8>)
    requires
        match last {
            Some(l) => (c.pos is Some ==> is_first_after(c.table, c.pos.unwrap() as int, l, 0, true))
                && (c.pos is None ==> none_after(c.table, l, 0, true)),
            None => (c.pos is Some ==> is_first_after(c.table, c.pos.unwrap() as int, lower, u64::MAX, false))
                && (c.pos is None ==> none_after(c.table, lower, u64::MAX, false)),
        },
    ensures
        positioned(c, last, lower),
{
    let t = c.table;
    assert forall|j: int| 0 <= j < t.entries@.len() implies (past(#[trigger] t.entries@[j].key@, last, lower) <==> match last {
        Some(l) => after(t, j, l, 0, true),
        None => after(t, j, lower, u64::MAX, false),
    }) by {
        let e = t.entries@[j];
        lemma_bytes_lt_irreflexive(e.key@);
        match last {
            Some(l) => {
                lemma_bytes_lt_asymmetric(l, e.key@);
            },
            None => {
                lemma_bytes_lt_total(e.key@, lower);
                lemma_bytes_lt_asymmetric(e.key@, lower);
            },
        }
    }
    if c.pos is Some {
        let i = c.pos.unwrap() as int;
        assert forall|j: int| 0 <= j < t.entries@.len() && past(#[trigger] t.entries@[j].key@, last, lower)
            implies !bytes_lt(t.entries@[j].key@, t.entries@[i].key@) by {
            match last {
                Some(l) => assert(after(t, j, l, 0, true)),
                None => assert(after(t, j, lower, u64::MAX, false)),
            }
        }
    }
}

} // verus!
