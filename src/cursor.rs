//! A cursor over one column family, moving through its entries in key order
//! (raw key ascending, then timestamp descending).
use vstd::prelude::*;
use crate::order::{
    compare_bytes, entry_lt, lemma_bytes_lt_irreflexive,
    lemma_bytes_lt_total, lemma_entry_lt_asymmetric, lemma_entry_lt_transitive,
};
use crate::table::Table;

verus! {

/// How many steps a near seek tries before it seeks directly.
pub const SEEK_BOUND: usize = 8;

/// The direction a cursor is used in.
#[derive(Debug, Clone, Copy, PartialEq, Eq, Structural)]
pub enum ScanMode {
    Forward,
    Backward,
    Mixed,
}

/// Entry `e` of `t` lies after `(key, ts)`, or at it unless `strict`.
pub open spec fn after<V>(t: &Table<V>, i: int, key: Seq<u8>, ts: u64, strict: bool) -> bool {
    let e = t.entries@[i];
    entry_lt(key, ts, e.key@, e.ts) || (!strict && e.key@ == key && e.ts == ts)
}

/// Entry `i` of `t` is the first one after `(key, ts)`.
pub open spec fn is_first_after<V>(t: &Table<V>, i: int, key: Seq<u8>, ts: u64, strict: bool) -> bool {
    &&& 0 <= i < t.entries@.len()
    &&& after(t, i, key, ts, strict)
    &&& forall|j: int|
        0 <= j < t.entries@.len() && #[trigger] after(t, j, key, ts, strict) ==> !entry_lt(
            t.entries@[j].key@,
            t.entries@[j].ts,
            t.entries@[i].key@,
            t.entries@[i].ts,
        )
}

/// No entry of `t` lies after `(key, ts)`.
pub open spec fn none_after<V>(t: &Table<V>, key: Seq<u8>, ts: u64, strict: bool) -> bool {
    forall|j: int| 0 <= j < t.entries@.len() ==> !#[trigger] after(t, j, key, ts, strict)
}

/// Whether `(a, ta)` sorts before `(b, tb)`.
fn entry_before(a: &Vec<u8>, ta: u64, b: &Vec<u8>, tb: u64) -> (r: bool)
    ensures
        r == entry_lt(a@, ta, b@, tb),
{
    let c = compare_bytes(a, b);
    c < 0 || (c == 0 && ta > tb)
}

/// The index of the first entry of `t` after `(key, ts)`.
pub fn first_after<V: View>(t: &Table<V>, key: &Vec<u8>, ts: u64, strict: bool) -> (r: Option<usize>)
    ensures
        r is Some ==> is_first_after(t, r.unwrap() as int, key@, ts, strict),
        r is None ==> none_after(t, key@, ts, strict),
{
    let mut best: Option<usize> = None;
    let mut i: usize = 0;
    while i < t.entries.len()
        invariant
            i <= t.entries@.len(),
            best is Some ==> best.unwrap() < i && after(t, best.unwrap() as int, key@, ts, strict)
                && forall|j: int|
                0 <= j < i && #[trigger] after(t, j, key@, ts, strict) ==> !entry_lt(
                    t.entries@[j].key@,
                    t.entries@[j].ts,
                    t.entries@[best.unwrap() as int].key@,
                    t.entries@[best.unwrap() as int].ts,
                ),
            best is None ==> forall|j: int| 0 <= j < i ==> !#[trigger] after(t, j, key@, ts, strict),
        decreases t.entries@.len() - i,
    {
        let e = &t.entries[i];
        let is_after = entry_before(key, ts, &e.key, e.ts) || (!strict && compare_bytes(&e.key, key)
            == 0 && e.ts == ts);
        if is_after {
            match best {
                Some(b) => {
                    let be = &t.entries[b];
                    if entry_before(&e.key, e.ts, &be.key, be.ts) {
                        proof {
                            assert forall|j: int|
                                0 <= j < i && #[trigger] after(t, j, key@, ts, strict) implies !entry_lt(
                                t.entries@[j].key@,
                                t.entries@[j].ts,
                                e.key@,
                                e.ts,
                            ) by {
                                if entry_lt(t.entries@[j].key@, t.entries@[j].ts, e.key@, e.ts) {
                                    lemma_entry_lt_transitive(
                                        t.entries@[j].key@,
                                        t.entries@[j].ts,
                                        e.key@,
                                        e.ts,
                                        be.key@,
                                        be.ts,
                                    );
                                }
                            }
                            lemma_entry_lt_asymmetric(e.key@, e.ts, e.key@, e.ts);
                        }
                        best = Some(i);
                    }
                },
                None => {
                    proof {
                        lemma_entry_lt_asymmetric(e.key@, e.ts, e.key@, e.ts);
                    }
                    best = Some(i);
                },
            }
        }
        i += 1;
    }
    best
}

/// Entry `i` of `t` lies before `(key, ts)`, or at it unless `strict`.
pub open spec fn before<V>(t: &Table<V>, i: int, key: Seq<u8>, ts: u64, strict: bool) -> bool {
    let e = t.entries@[i];
    entry_lt(e.key@, e.ts, key, ts) || (!strict && e.key@ == key && e.ts == ts)
}

/// Entry `i` of `t` is the last one before `(key, ts)`.
pub open spec fn is_last_before<V>(t: &Table<V>, i: int, key: Seq<u8>, ts: u64, strict: bool) -> bool {
    &&& 0 <= i < t.entries@.len()
    &&& before(t, i, key, ts, strict)
    &&& forall|j: int|
        0 <= j < t.entries@.len() && #[trigger] before(t, j, key, ts, strict) ==> !entry_lt(
            t.entries@[i].key@,
            t.entries@[i].ts,
            t.entries@[j].key@,
            t.entries@[j].ts,
        )
}

/// No entry of `t` lies before `(key, ts)`.
pub open spec fn none_before<V>(t: &Table<V>, key: Seq<u8>, ts: u64, strict: bool) -> bool {
    forall|j: int| 0 <= j < t.entries@.len() ==> !#[trigger] before(t, j, key, ts, strict)
}

/// The index of the last entry of `t` before `(key, ts)`.
pub fn last_before<V: View>(t: &Table<V>, key: &Vec<u8>, ts: u64, strict: bool) -> (r: Option<usize>)
    ensures
        r is Some ==> is_last_before(t, r.unwrap() as int, key@, ts, strict),
        r is None ==> none_before(t, key@, ts, strict),
{
    let mut best: Option<usize> = None;
    let mut i: usize = 0;
    while i < t.entries.len()
        invariant
            i <= t.entries@.len(),
            best is Some ==> best.unwrap() < i && before(t, best.unwrap() as int, key@, ts, strict)
                && forall|j: int|
                0 <= j < i && #[trigger] before(t, j, key@, ts, strict) ==> !entry_lt(
                    t.entries@[best.unwrap() as int].key@,
                    t.entries@[best.unwrap() as int].ts,
                    t.entries@[j].key@,
                    t.entries@[j].ts,
                ),
            best is None ==> forall|j: int| 0 <= j < i ==> !#[trigger] before(t, j, key@, ts, strict),
        decreases t.entries@.len() - i,
    {
        let e = &t.entries[i];
        let is_before = entry_before(&e.key, e.ts, key, ts) || (!strict && compare_bytes(&e.key, key)
            == 0 && e.ts == ts);
        if is_before {
            match best {
                Some(b) => {
                    let be = &t.entries[b];
                    if entry_before(&be.key, be.ts, &e.key, e.ts) {
                        proof {
                            assert forall|j: int|
                                0 <= j < i && #[trigger] before(t, j, key@, ts, strict) implies !entry_lt(
                                e.key@,
                                e.ts,
                                t.entries@[j].key@,
                                t.entries@[j].ts,
                            ) by {
                                if entry_lt(e.key@, e.ts, t.entries@[j].key@, t.entries@[j].ts) {
                                    lemma_entry_lt_transitive(
                                        be.key@,
                                        be.ts,
                                        e.key@,
                                        e.ts,
                                        t.entries@[j].key@,
                                        t.entries@[j].ts,
                                    );
                                }
                            }
                            lemma_entry_lt_asymmetric(e.key@, e.ts, e.key@, e.ts);
                        }
                        best = Some(i);
                    }
                },
                None => {
                    proof {
                        lemma_entry_lt_asymmetric(e.key@, e.ts, e.key@, e.ts);
                    }
                    best = Some(i);
                },
            }
        }
        i += 1;
    }
    best
}

/// A position in one column family.
pub struct Cursor<'a, V> {
    pub table: &'a Table<V>,
    pub scan_mode: ScanMode,
    /// The index of the current entry; none when the cursor is not on one.
    pub pos: Option<usize>,
}

impl<'a, V: View> Cursor<'a, V> {
    /// The cursor is on an entry.
    pub open spec fn on_entry(&self) -> bool {
        self.pos is Some && self.pos.unwrap() < self.table.entries@.len()
    }

    /// The raw key of the current entry.
    pub open spec fn cur_key(&self) -> Seq<u8> {
        self.table.entries@[self.pos.unwrap() as int].key@
    }

    /// The timestamp of the current entry.
    pub open spec fn cur_ts(&self) -> u64 {
        self.table.entries@[self.pos.unwrap() as int].ts
    }

    /// A cursor over `table` that is not yet on an entry.
    pub fn new(table: &'a Table<V>, mode: ScanMode) -> (r: Self)
        ensures
            r.table == table,
            r.scan_mode == mode,
            !r.on_entry(),
    {
        Cursor { table, scan_mode: mode, pos: None }
    }

    /// Whether the cursor is on an entry.
    pub fn valid(&self) -> (r: bool)
        requires
            self.pos is Some ==> self.pos.unwrap() < self.table.entries@.len(),
        ensures
            r == self.on_entry(),
    {
        self.pos.is_some()
    }

    /// The raw key of the current entry.
    pub fn key(&self) -> (r: &'a Vec<u8>)
        requires
            self.on_entry(),
        ensures
            r@ == self.cur_key(),
    {
        &self.table.entries[self.pos.unwrap()].key
    }

    /// The timestamp of the current entry.
    pub fn ts(&self) -> (r: u64)
        requires
            self.on_entry(),
        ensures
            r == self.cur_ts(),
    {
        self.table.entries[self.pos.unwrap()].ts
    }

    /// The value of the current entry.
    pub fn value(&self) -> (r: &'a V)
        requires
            self.on_entry(),
        ensures
            r@ == self.table.entries@[self.pos.unwrap() as int].value@,
    {
        &self.table.entries[self.pos.unwrap()].value
    }

    /// Moves to the first entry at or after `(key, ts)`; returns whether
    /// there is one.
    pub fn seek(&mut self, key: &Vec<u8>, ts: u64) -> (r: bool)
        ensures
            final(self).table == old(self).table,
            final(self).scan_mode == old(self).scan_mode,
            r == final(self).on_entry(),
            r ==> is_first_after(final(self).table, final(self).pos.unwrap() as int, key@, ts, false),
            !r ==> none_after(final(self).table, key@, ts, false) && final(self).pos is None,
    {
        self.pos = first_after(self.table, key, ts, false);
        self.pos.is_some()
    }

    /// Moves to the first entry strictly after `(key, ts)`; returns whether
    /// there is one.
    pub fn seek_past(&mut self, key: &Vec<u8>, ts: u64) -> (r: bool)
        ensures
            final(self).table == old(self).table,
            final(self).scan_mode == old(self).scan_mode,
            r == final(self).on_entry(),
            r ==> is_first_after(final(self).table, final(self).pos.unwrap() as int, key@, ts, true),
            !r ==> none_after(final(self).table, key@, ts, true) && final(self).pos is None,
    {
        self.pos = first_after(self.table, key, ts, true);
        self.pos.is_some()
    }

    /// Moves to the first entry; returns whether there is one.
    pub fn seek_to_first(&mut self) -> (r: bool)
        ensures
            final(self).table == old(self).table,
            final(self).scan_mode == old(self).scan_mode,
            r == final(self).on_entry(),
            r ==> is_first_after(final(self).table, final(self).pos.unwrap() as int, Seq::empty(), u64::MAX, false),
            !r ==> final(self).table.entries@.len() == 0,
    {
        let empty: Vec<u8> = Vec::new();
        let r = self.seek(&empty, u64::MAX);
        proof {
            if !r && self.table.entries@.len() > 0 {
                let e = self.table.entries@[0];
                if e.key@.len() == 0 {
                    assert(e.key@ =~= Seq::<u8>::empty());
                }
                assert(after(self.table, 0, Seq::<u8>::empty(), u64::MAX, false));
            }
        }
        r
    }

    /// Moves to the last entry; returns whether there is one.
    pub fn seek_to_last(&mut self) -> (r: bool)
        ensures
            final(self).table == old(self).table,
            final(self).scan_mode == old(self).scan_mode,
            r == final(self).on_entry(),
            r ==> forall|j: int|
                0 <= j < final(self).table.entries@.len() ==> !entry_lt(
                    final(self).cur_key(),
                    final(self).cur_ts(),
                    #[trigger] final(self).table.entries@[j].key@,
                    final(self).table.entries@[j].ts,
                ),
            !r ==> final(self).table.entries@.len() == 0,
    {
        let t = self.table;
        let mut best: Option<usize> = None;
        let mut i: usize = 0;
        while i < t.entries.len()
            invariant
                i <= t.entries@.len(),
                best is Some ==> best.unwrap() < i && forall|j: int|
                    0 <= j < i ==> !entry_lt(
                        t.entries@[best.unwrap() as int].key@,
                        t.entries@[best.unwrap() as int].ts,
                        #[trigger] t.entries@[j].key@,
                        t.entries@[j].ts,
                    ),
                best is None ==> i == 0,
            decreases t.entries@.len() - i,
        {
            let e = &t.entries[i];
            match best {
                Some(b) => {
                    let be = &t.entries[b];
                    if entry_before(&be.key, be.ts, &e.key, e.ts) {
                        proof {
                            assert forall|j: int| 0 <= j < i implies !entry_lt(
                                e.key@,
                                e.ts,
                                #[trigger] t.entries@[j].key@,
                                t.entries@[j].ts,
                            ) by {
                                if entry_lt(e.key@, e.ts, t.entries@[j].key@, t.entries@[j].ts) {
                                    lemma_entry_lt_transitive(be.key@, be.ts, e.key@, e.ts, t.entries@[j].key@, t.entries@[j].ts);
                                }
                            }
                            lemma_entry_lt_asymmetric(e.key@, e.ts, e.key@, e.ts);
                        }
                        best = Some(i);
                    }
                },
                None => {
                    proof {
                        lemma_entry_lt_asymmetric(e.key@, e.ts, e.key@, e.ts);
                    }
                    best = Some(i);
                },
            }
            i += 1;
        }
        self.pos = best;
        self.pos.is_some()
    }

    /// Moves to the last entry at or before `(key, ts)`; returns whether
    /// there is one.
    pub fn seek_for_prev(&mut self, key: &Vec<u8>, ts: u64) -> (r: bool)
        ensures
            final(self).table == old(self).table,
            final(self).scan_mode == old(self).scan_mode,
            r == final(self).on_entry(),
            r ==> is_last_before(final(self).table, final(self).pos.unwrap() as int, key@, ts, false),
            !r ==> none_before(final(self).table, key@, ts, false) && final(self).pos is None,
    {
        self.pos = last_before(self.table, key, ts, false);
        self.pos.is_some()
    }

    /// Moves to the last entry strictly before `(key, ts)`; returns whether
    /// there is one.
    pub fn reverse_seek(&mut self, key: &Vec<u8>, ts: u64) -> (r: bool)
        ensures
            final(self).table == old(self).table,
            final(self).scan_mode == old(self).scan_mode,
            r == final(self).on_entry(),
            r ==> is_last_before(final(self).table, final(self).pos.unwrap() as int, key@, ts, true),
            !r ==> none_before(final(self).table, key@, ts, true) && final(self).pos is None,
    {
        self.pos = last_before(self.table, key, ts, true);
        self.pos.is_some()
    }

    /// Moves to the last entry strictly before the current one.
    pub fn prev(&mut self) -> (r: bool)
        requires
            old(self).on_entry(),
        ensures
            final(self).table == old(self).table,
            final(self).scan_mode == old(self).scan_mode,
            r == final(self).on_entry(),
            r ==> is_last_before(
                final(self).table,
                final(self).pos.unwrap() as int,
                old(self).cur_key(),
                old(self).cur_ts(),
                true,
            ),
            !r ==> none_before(final(self).table, old(self).cur_key(), old(self).cur_ts(), true)
                && final(self).pos is None,
    {
        let i = self.pos.unwrap();
        let table = self.table;
        let e = &table.entries[i];
        self.pos = last_before(table, &e.key, e.ts, true);
        self.pos.is_some()
    }

    /// Moves to the last entry at or before `(key, ts)`, assuming it is
    /// near. In backward mode a cursor already at or before it stays; in
    /// other modes it lands where `seek_for_prev` would. A cursor after it
    /// steps back a few times before it seeks.
    pub fn near_seek_for_prev(&mut self, key: &Vec<u8>, ts: u64) -> (r: bool)
        requires
            old(self).pos is Some ==> old(self).pos.unwrap() < old(self).table.entries@.len(),
        ensures
            final(self).table == old(self).table,
            final(self).scan_mode == old(self).scan_mode,
            r == final(self).on_entry(),
            r ==> before(final(self).table, final(self).pos.unwrap() as int, key@, ts, false),
            r && !(old(self).scan_mode == ScanMode::Backward && old(self).on_entry() && before(
                old(self).table,
                old(self).pos.unwrap() as int,
                key@,
                ts,
                false,
            )) ==> is_last_before(final(self).table, final(self).pos.unwrap() as int, key@, ts, false),
            old(self).scan_mode == ScanMode::Backward && old(self).on_entry() && before(
                old(self).table,
                old(self).pos.unwrap() as int,
                key@,
                ts,
                false,
            ) ==> final(self).pos == old(self).pos,
            !r ==> none_before(final(self).table, key@, ts, false),
    {
        if !self.valid() {
            return self.seek_for_prev(key, ts);
        }
        let c = compare_bytes(self.key(), key);
        if c < 0 || (c == 0 && self.ts() >= ts) {
            if self.scan_mode != ScanMode::Backward {
                return self.seek_for_prev(key, ts);
            }
            proof {
                lemma_bytes_lt_irreflexive(key@);
            }
            return true;
        }
        let ghost t = self.table;
        proof {
            lemma_bytes_lt_irreflexive(key@);
        }
        let mut steps: usize = 0;
        while steps < SEEK_BOUND
            invariant
                self.table == t,
                t == old(self).table,
                old(self).on_entry(),
                !before(t, old(self).pos.unwrap() as int, key@, ts, false),
                self.scan_mode == old(self).scan_mode,
                self.on_entry(),
                !before(t, self.pos.unwrap() as int, key@, ts, false),
            decreases SEEK_BOUND - steps,
        {
            let ghost ck = self.cur_key();
            let ghost ct = self.cur_ts();
            proof {
                lemma_bytes_lt_total(ck, key@);
            }
            if !self.prev() {
                proof {
                    assert forall|j: int| 0 <= j < t.entries@.len() implies !#[trigger] before(t, j, key@, ts, false) by {
                        if before(t, j, key@, ts, false) {
                            lemma_below(t, j, ck, ct, key@, ts);
                            assert(before(t, j, ck, ct, true));
                        }
                    }
                }
                return false;
            }
            let c = compare_bytes(self.key(), key);
            if c < 0 || (c == 0 && self.ts() >= ts) {
                proof {
                    let i = self.pos.unwrap() as int;
                    assert forall|j: int| 0 <= j < t.entries@.len() && #[trigger] before(t, j, key@, ts, false) implies !entry_lt(
                        t.entries@[i].key@,
                        t.entries@[i].ts,
                        t.entries@[j].key@,
                        t.entries@[j].ts,
                    ) by {
                        lemma_below(t, j, ck, ct, key@, ts);
                        assert(before(t, j, ck, ct, true));
                    }
                }
                return true;
            }
            steps += 1;
        }
        self.seek_for_prev(key, ts)
    }

    /// Moves to the first entry strictly after the current one.
    pub fn next(&mut self) -> (r: bool)
        requires
            old(self).on_entry(),
        ensures
            final(self).table == old(self).table,
            final(self).scan_mode == old(self).scan_mode,
            r == final(self).on_entry(),
            r ==> is_first_after(
                final(self).table,
                final(self).pos.unwrap() as int,
                old(self).cur_key(),
                old(self).cur_ts(),
                true,
            ),
            !r ==> none_after(final(self).table, old(self).cur_key(), old(self).cur_ts(), true)
                && final(self).pos is None,
    {
        let i = self.pos.unwrap();
        let table = self.table;
        let e = &table.entries[i];
        self.pos = first_after(table, &e.key, e.ts, true);
        self.pos.is_some()
    }

    /// Moves to the first entry at or after `(key, ts)`, assuming it is near.
    /// In forward mode a cursor already at or after it stays, as the cursor
    /// never moves backwards; in other modes it lands where `seek` would. A
    /// cursor before it steps forward a few times before it seeks.
    pub fn near_seek(&mut self, key: &Vec<u8>, ts: u64) -> (r: bool)
        requires
            old(self).pos is Some ==> old(self).pos.unwrap() < old(self).table.entries@.len(),
        ensures
            final(self).table == old(self).table,
            final(self).scan_mode == old(self).scan_mode,
            r == final(self).on_entry(),
            r ==> after(final(self).table, final(self).pos.unwrap() as int, key@, ts, false),
            r && !(old(self).scan_mode == ScanMode::Forward && old(self).on_entry() && after(
                old(self).table,
                old(self).pos.unwrap() as int,
                key@,
                ts,
                false,
            )) ==> is_first_after(final(self).table, final(self).pos.unwrap() as int, key@, ts, false),
            old(self).scan_mode == ScanMode::Forward && old(self).on_entry() && after(
                old(self).table,
                old(self).pos.unwrap() as int,
                key@,
                ts,
                false,
            ) ==> final(self).pos == old(self).pos,
            !r ==> none_after(final(self).table, key@, ts, false),
    {
        if !self.valid() {
            return self.seek(key, ts);
        }
        let c = compare_bytes(self.key(), key);
        if c > 0 || (c == 0 && self.ts() <= ts) {
            if self.scan_mode != ScanMode::Forward {
                return self.seek(key, ts);
            }
            proof {
                lemma_bytes_lt_irreflexive(key@);
            }
            return true;
        }
        let ghost t = self.table;
        proof {
            lemma_bytes_lt_irreflexive(key@);
        }
        let mut steps: usize = 0;
        while steps < SEEK_BOUND
            invariant
                self.table == t,
                t == old(self).table,
                old(self).on_entry(),
                !after(t, old(self).pos.unwrap() as int, key@, ts, false),
                self.scan_mode == old(self).scan_mode,
                self.on_entry(),
                !after(t, self.pos.unwrap() as int, key@, ts, false),
            decreases SEEK_BOUND - steps,
        {
            let ghost ck = self.cur_key();
            let ghost ct = self.cur_ts();
            if !self.next() {
                proof {
                    assert forall|j: int| 0 <= j < t.entries@.len() implies !#[trigger] after(t, j, key@, ts, false) by {
                        if after(t, j, key@, ts, false) {
                            lemma_beyond(t, j, ck, ct, key@, ts);
                            assert(after(t, j, ck, ct, true));
                        }
                    }
                }
                return false;
            }
            let c = compare_bytes(self.key(), key);
            if c > 0 || (c == 0 && self.ts() <= ts) {
                proof {
                    let i = self.pos.unwrap() as int;
                    assert forall|j: int| 0 <= j < t.entries@.len() && #[trigger] after(t, j, key@, ts, false) implies !entry_lt(
                        t.entries@[j].key@,
                        t.entries@[j].ts,
                        t.entries@[i].key@,
                        t.entries@[i].ts,
                    ) by {
                        lemma_beyond(t, j, ck, ct, key@, ts);
                        assert(after(t, j, ck, ct, true));
                    }
                }
                return true;
            }
            steps += 1;
        }
        self.seek(key, ts)
    }
}

/// An entry at or before `(key, ts)` lies strictly before any position
/// after `(key, ts)`.
proof fn lemma_below<V>(t: &Table<V>, j: int, ck: Seq<u8>, ct: u64, key: Seq<u8>, ts: u64)
    requires
        0 <= j < t.entries@.len(),
        before(t, j, key, ts, false),
        !(entry_lt(ck, ct, key, ts) || (ck == key && ct == ts)),
    ensures
        entry_lt(t.entries@[j].key@, t.entries@[j].ts, ck, ct),
{
    lemma_bytes_lt_total(ck, key);
    let e = t.entries@[j];
    if e.key@ == key && e.ts == ts {
    } else {
        lemma_entry_lt_transitive(e.key@, e.ts, key, ts, ck, ct);
    }
}

/// An entry at or after `(key, ts)` lies strictly after any position
/// before `(key, ts)`.
proof fn lemma_beyond<V>(t: &Table<V>, j: int, ck: Seq<u8>, ct: u64, key: Seq<u8>, ts: u64)
    requires
        0 <= j < t.entries@.len(),
        after(t, j, key, ts, false),
        !(entry_lt(key, ts, ck, ct) || (ck == key && ct == ts)),
    ensures
        entry_lt(ck, ct, t.entries@[j].key@, t.entries@[j].ts),
{
    lemma_bytes_lt_total(ck, key);
    let e = t.entries@[j];
    if e.key@ == key && e.ts == ts {
    } else {
        lemma_entry_lt_transitive(ck, ct, key, ts, e.key@, e.ts);
    }
}

} // verus!
