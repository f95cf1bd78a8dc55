//! A column family: a finite map from a byte key and a timestamp to a value,
//! held as a list of entries whose (key, timestamp) pairs are distinct.
use vstd::prelude::*;

verus! {

/// Whether two byte strings are equal.
pub fn bytes_eq(a: &Vec<u8>, b: &Vec<u8>) -> (r: bool)
    ensures
        r == (a@ == b@),
{
    if a.len() != b.len() {
        return false;
    }
    let mut i: usize = 0;
    while i < a.len()
        invariant
            a.len() == b.len(),
            i <= a.len(),
            forall|j: int| 0 <= j < i ==> a@[j] == b@[j],
        decreases a.len() - i,
    {
        if a[i] != b[i] {
            return false;
        }
        i += 1;
    }
    assert(a@ =~= b@);
    true
}

/// One entry of a column family.
#[derive(Debug)]
pub struct Entry<V> {
    pub key: Vec<u8>,
    pub ts: u64,
    pub value: V,
}

/// A column family keyed by (raw key, timestamp).
#[derive(Debug)]
pub struct Table<V> {
    pub entries: Vec<Entry<V>>,
}

impl<V: View> Table<V> {
    /// Whether entry `i` is stored under `(k, ts)`.
    pub open spec fn holds(&self, i: int, k: Seq<u8>, ts: u64) -> bool {
        &&& 0 <= i < self.entries@.len()
        &&& self.entries@[i].key@ == k
        &&& self.entries@[i].ts == ts
    }

    /// No two entries share a (key, timestamp) pair.
    pub open spec fn wf(&self) -> bool {
        forall|i: int, j: int|
            #![trigger self.entries@[i], self.entries@[j]]
            0 <= i < self.entries@.len() && 0 <= j < self.entries@.len() && i != j
                ==> !(self.entries@[i].key@ == self.entries@[j].key@ && self.entries@[i].ts
                == self.entries@[j].ts)
    }

    /// Every entry is stored under timestamp `t`.
    pub open spec fn all_at(&self, t: u64) -> bool {
        forall|i: int| 0 <= i < self.entries@.len() ==> (#[trigger] self.entries@[i]).ts == t
    }

    pub open spec fn has(&self, k: Seq<u8>, ts: u64) -> bool {
        exists|i: int| self.holds(i, k, ts)
    }

    pub proof fn lemma_entry(&self, i: int)
        requires
            self.wf(),
            0 <= i < self.entries@.len(),
        ensures
            self@.contains_key((self.entries@[i].key@, self.entries@[i].ts)),
            self@[(self.entries@[i].key@, self.entries@[i].ts)] == self.entries@[i].value@,
    {
        let k = self.entries@[i].key@;
        let ts = self.entries@[i].ts;
        assert(self.holds(i, k, ts));
        let j = choose|j: int| self.holds(j, k, ts);
        assert(j == i);
    }

    /// An empty column family.
    pub fn new() -> (r: Self)
        ensures
            r.wf(),
            r@ == Map::<(Seq<u8>, u64), V::V>::empty(),
            r.entries@.len() == 0,
    {
        let r = Table { entries: Vec::new() };
        assert(r@ =~= Map::<(Seq<u8>, u64), V::V>::empty());
        r
    }

    /// The index of the entry stored under `(key, ts)`, if there is one.
    pub fn find(&self, key: &Vec<u8>, ts: u64) -> (r: Option<usize>)
        requires
            self.wf(),
        ensures
            r is None ==> !self@.contains_key((key@, ts)),
            r is Some ==> self.holds(r.unwrap() as int, key@, ts),
    {
        let mut i: usize = 0;
        while i < self.entries.len()
            invariant
                i <= self.entries.len(),
                forall|j: int| 0 <= j < i ==> !self.holds(j, key@, ts),
            decreases self.entries.len() - i,
        {
            if self.entries[i].ts == ts && bytes_eq(&self.entries[i].key, key) {
                return Some(i);
            }
            i += 1;
        }
        None
    }

    /// The value stored under `(key, ts)`.
    pub fn get(&self, key: &Vec<u8>, ts: u64) -> (r: Option<&V>)
        requires
            self.wf(),
        ensures
            r is None <==> !self@.contains_key((key@, ts)),
            r is Some ==> r.unwrap()@ == self@[(key@, ts)],
    {
        match self.find(key, ts) {
            Some(i) => {
                proof {
                    self.lemma_entry(i as int);
                }
                Some(&self.entries[i].value)
            },
            None => None,
        }
    }

    /// Stores `value` under `(key, ts)`, replacing what was there.
    pub fn put(&mut self, key: Vec<u8>, ts: u64, value: V)
        requires
            old(self).wf(),
        ensures
            final(self).wf(),
            final(self)@ == old(self)@.insert((key@, ts), value@),
            old(self).all_at(ts) ==> final(self).all_at(ts),
    {
        let ghost k = key@;
        let ghost v = value@;
        let ghost prev = *self;
        match self.find(&key, ts) {
            Some(i) => {
                self.entries.set(i, Entry { key, ts, value });
                proof {
                    assert forall|p: (Seq<u8>, u64)|
                        #![trigger self@.contains_key(p)]
                        self@.contains_key(p) == prev@.insert((k, ts), v).contains_key(p) by {
                        if p != (k, ts) {
                            if self.has(p.0, p.1) {
                                let j = choose|j: int| self.holds(j, p.0, p.1);
                                assert(prev.holds(j, p.0, p.1));
                            }
                            if prev.has(p.0, p.1) {
                                let j = choose|j: int| prev.holds(j, p.0, p.1);
                                assert(self.holds(j, p.0, p.1));
                            }
                        } else {
                            assert(self.holds(i as int, k, ts));
                        }
                    }
                    assert forall|p: (Seq<u8>, u64)| #[trigger]
                        self@.contains_key(p) implies self@[p] == prev@.insert((k, ts), v)[p] by {
                        let j = choose|j: int| self.holds(j, p.0, p.1);
                        self.lemma_entry(j);
                        if p != (k, ts) {
                            prev.lemma_entry(j);
                        }
                    }
                    assert(self@ =~= prev@.insert((k, ts), v));
                }
            },
            None => {
                self.entries.push(Entry { key, ts, value });
                proof {
                    let n = prev.entries@.len() as int;
                    assert(!prev.has(k, ts));
                    assert forall|a: int, b: int|
                        0 <= a < self.entries@.len() && 0 <= b < self.entries@.len() && a != b
                            implies !(#[trigger] self.entries@[a].key@ == #[trigger] self.entries@[b].key@
                        && self.entries@[a].ts == self.entries@[b].ts) by {
                        if a == n {
                            assert(!prev.holds(b, k, ts));
                        } else if b == n {
                            assert(!prev.holds(a, k, ts));
                        } else {
                            assert(self.entries@[a] == prev.entries@[a]);
                            assert(self.entries@[b] == prev.entries@[b]);
                        }
                    }
                    assert forall|p: (Seq<u8>, u64)|
                        #![trigger self@.contains_key(p)]
                        self@.contains_key(p) == prev@.insert((k, ts), v).contains_key(p) by {
                        if p != (k, ts) {
                            if self.has(p.0, p.1) {
                                let j = choose|j: int| self.holds(j, p.0, p.1);
                                assert(prev.holds(j, p.0, p.1));
                            }
                            if prev.has(p.0, p.1) {
                                let j = choose|j: int| prev.holds(j, p.0, p.1);
                                assert(self.holds(j, p.0, p.1));
                            }
                        } else {
                            assert(self.holds(n, k, ts));
                        }
                    }
                    assert forall|p: (Seq<u8>, u64)| #[trigger]
                        self@.contains_key(p) implies self@[p] == prev@.insert((k, ts), v)[p] by {
                        let j = choose|j: int| self.holds(j, p.0, p.1);
                        self.lemma_entry(j);
                        if p != (k, ts) {
                            prev.lemma_entry(j);
                        }
                    }
                    assert(self@ =~= prev@.insert((k, ts), v));
                }
            },
        }
    }

    /// Removes what is stored under `(key, ts)`, if anything.
    pub fn delete(&mut self, key: &Vec<u8>, ts: u64)
        requires
            old(self).wf(),
        ensures
            final(self).wf(),
            final(self)@ == old(self)@.remove((key@, ts)),
            forall|t0: u64| old(self).all_at(t0) ==> #[trigger] final(self).all_at(t0),
    {
        let ghost prev = *self;
        match self.find(key, ts) {
            Some(i) => {
                self.entries.remove(i);
                proof {
                    let k = key@;
                    assert forall|t0: u64| prev.all_at(t0) implies #[trigger] self.all_at(t0) by {
                        assert forall|j: int| 0 <= j < self.entries@.len() implies (#[trigger] self.entries@[j]).ts == t0 by {
                            if j < i {
                                assert(self.entries@[j] == prev.entries@[j]);
                            } else {
                                assert(self.entries@[j] == prev.entries@[j + 1]);
                            }
                        }
                    }
                    assert forall|j: int|
                        0 <= j < self.entries@.len() implies #[trigger] self.entries@[j] == (if j
                        < i {
                        prev.entries@[j]
                    } else {
                        prev.entries@[j + 1]
                    }) by {}
                    assert forall|p: (Seq<u8>, u64)|
                        #![trigger self@.contains_key(p)]
                        self@.contains_key(p) == prev@.remove((k, ts)).contains_key(p) by {
                        if self.has(p.0, p.1) {
                            let j = choose|j: int| self.holds(j, p.0, p.1);
                            if j < i {
                                assert(prev.holds(j, p.0, p.1));
                            } else {
                                assert(prev.holds(j + 1, p.0, p.1));
                            }
                        }
                        if p != (k, ts) && prev.has(p.0, p.1) {
                            let j = choose|j: int| prev.holds(j, p.0, p.1);
                            if j < i {
                                assert(self.holds(j, p.0, p.1));
                            } else {
                                assert(self.holds(j - 1, p.0, p.1));
                            }
                        }
                    }
                    assert forall|p: (Seq<u8>, u64)| #[trigger]
                        self@.contains_key(p) implies self@[p] == prev@.remove((k, ts))[p] by {
                        let j = choose|j: int| self.holds(j, p.0, p.1);
                        self.lemma_entry(j);
                        if j < i {
                            prev.lemma_entry(j);
                        } else {
                            prev.lemma_entry(j + 1);
                        }
                    }
                    assert(self@ =~= prev@.remove((k, ts)));
                }
            },
            None => {
                proof {
                    assert(self@ =~= prev@.remove((key@, ts)));
                }
            },
        }
    }
}

impl<V: View> View for Table<V> {
    type V = Map<(Seq<u8>, u64), V::V>;

    open spec fn view(&self) -> Map<(Seq<u8>, u64), V::V> {
        Map::new(
            |p: (Seq<u8>, u64)| self.has(p.0, p.1),
            |p: (Seq<u8>, u64)| self.entries@[choose|i: int| self.holds(i, p.0, p.1)].value@,
        )
    }
}

} // verus!
