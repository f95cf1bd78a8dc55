//! The records stored in the three column families, and the mutations that a
//! transaction applies to a key.
use vstd::prelude::*;

verus! {

/// The short value that marks a rollback record as protected from collapsing.
pub const PROTECTED_ROLLBACK_SHORT_VALUE: u8 = 112;

/// Values no longer than this are inlined in the lock or write record.
pub const SHORT_VALUE_MAX_LEN: usize = 255;

/// The kind of an outstanding lock.
#[derive(Debug, Clone, Copy, PartialEq, Eq, Structural)]
pub enum LockType {
    Put,
    Delete,
    Dagger,
    Pessimistic,
}

/// The kind of a commit or rollback record.
#[derive(Debug, Clone, Copy, PartialEq, Eq, Structural)]
pub enum WriteType {
    Put,
    Delete,
    Dagger,
    Rollback,
}

/// An outstanding lock (a "dagger"): the key is owned by the transaction that
/// started at `ts`.
#[derive(Debug)]
pub struct Dagger {
    pub lock_type: LockType,
    pub primary: Vec<u8>,
    pub ts: u64,
    pub ttl: u64,
    pub short_value: Option<Vec<u8>>,
    pub for_update_ts: u64,
    pub txn_size: u64,
    pub min_commit_ts: u64,
    pub use_async_commit: bool,
    pub secondaries: Vec<Vec<u8>>,
    pub rollback_ts: Vec<u64>,
}

/// The mathematical value of a [`Dagger`].
pub struct DaggerView {
    pub lock_type: LockType,
    pub primary: Seq<u8>,
    pub ts: u64,
    pub ttl: u64,
    pub short_value: Option<Seq<u8>>,
    pub for_update_ts: u64,
    pub txn_size: u64,
    pub min_commit_ts: u64,
    pub use_async_commit: bool,
    pub secondaries: Seq<Seq<u8>>,
    pub rollback_ts: Seq<u64>,
}

/// The view of an optional byte string.
pub open spec fn opt_bytes(o: Option<Vec<u8>>) -> Option<Seq<u8>> {
    match o {
        Some(v) => Some(v@),
        None => None,
    }
}

impl View for Dagger {
    type V = DaggerView;

    open spec fn view(&self) -> DaggerView {
        DaggerView {
            lock_type: self.lock_type,
            primary: self.primary@,
            ts: self.ts,
            ttl: self.ttl,
            short_value: opt_bytes(self.short_value),
            for_update_ts: self.for_update_ts,
            txn_size: self.txn_size,
            min_commit_ts: self.min_commit_ts,
            use_async_commit: self.use_async_commit,
            secondaries: bytes_list(self.secondaries@),
            rollback_ts: self.rollback_ts@,
        }
    }
}

/// The view of an optional value.
pub open spec fn opt_view<T: View>(o: Option<T>) -> Option<T::V> {
    match o {
        Some(v) => Some(v@),
        None => None,
    }
}

/// A copy of an optional byte string.
pub fn copy_opt_bytes(o: &Option<Vec<u8>>) -> (r: Option<Vec<u8>>)
    ensures
        opt_bytes(r) == opt_bytes(*o),
{
    match o {
        Some(v) => Some(v.clone()),
        None => None,
    }
}

/// The view of a list of byte strings.
pub open spec fn bytes_list(v: Seq<Vec<u8>>) -> Seq<Seq<u8>> {
    v.map_values(|b: Vec<u8>| b@)
}

/// A copy of a list of byte strings.
pub fn copy_byte_lists(v: &Vec<Vec<u8>>) -> (r: Vec<Vec<u8>>)
    ensures
        bytes_list(r@) == bytes_list(v@),
{
    let mut r: Vec<Vec<u8>> = Vec::new();
    let mut i: usize = 0;
    while i < v.len()
        invariant
            i <= v.len(),
            r@.len() == i,
            forall|j: int| 0 <= j < i ==> (#[trigger] r@[j])@ == v@[j]@,
        decreases v.len() - i,
    {
        let e = v[i].clone();
        assert(e@ =~= v@[i as int]@);
        r.push(e);
        i += 1;
    }
    assert(bytes_list(r@) =~= bytes_list(v@));
    r
}

impl Dagger {
    /// A lock with no secondaries and no rollback timestamps.
    pub fn new(
        lock_type: LockType,
        primary: Vec<u8>,
        ts: u64,
        ttl: u64,
        short_value: Option<Vec<u8>>,
        for_update_ts: u64,
        txn_size: u64,
        min_commit_ts: u64,
    ) -> (r: Dagger)
        ensures
            r@ == (DaggerView {
                lock_type,
                primary: primary@,
                ts,
                ttl,
                short_value: opt_bytes(short_value),
                for_update_ts,
                txn_size,
                min_commit_ts,
                use_async_commit: false,
                secondaries: Seq::empty(),
                rollback_ts: Seq::empty(),
            }),
    {
        let r = Dagger {
            lock_type,
            primary,
            ts,
            ttl,
            short_value,
            for_update_ts,
            txn_size,
            min_commit_ts,
            use_async_commit: false,
            secondaries: Vec::new(),
            rollback_ts: Vec::new(),
        };
        assert(bytes_list(r.secondaries@) =~= Seq::<Seq<u8>>::empty());
        assert(r.rollback_ts@ =~= Seq::<u64>::empty());
        r
    }

    /// A copy of this lock.
    pub fn duplicate(&self) -> (r: Dagger)
        ensures
            r@ == self@,
    {
        Dagger {
            lock_type: self.lock_type,
            primary: self.primary.clone(),
            ts: self.ts,
            ttl: self.ttl,
            short_value: copy_opt_bytes(&self.short_value),
            for_update_ts: self.for_update_ts,
            txn_size: self.txn_size,
            min_commit_ts: self.min_commit_ts,
            use_async_commit: self.use_async_commit,
            secondaries: copy_byte_lists(&self.secondaries),
            rollback_ts: self.rollback_ts.clone(),
        }
    }
}

/// A commit or rollback record of one version of a key.
#[derive(Debug)]
pub struct Write {
    pub write_type: WriteType,
    pub start_ts: u64,
    pub short_value: Option<Vec<u8>>,
    pub has_overlapped_rollback: bool,
}

/// The mathematical value of a [`Write`].
pub struct WriteView {
    pub write_type: WriteType,
    pub start_ts: u64,
    pub short_value: Option<Seq<u8>>,
    pub has_overlapped_rollback: bool,
}

impl View for Write {
    type V = WriteView;

    open spec fn view(&self) -> WriteView {
        WriteView {
            write_type: self.write_type,
            start_ts: self.start_ts,
            short_value: opt_bytes(self.short_value),
            has_overlapped_rollback: self.has_overlapped_rollback,
        }
    }
}

impl WriteView {
    /// A rollback record that later writers must not collapse.
    pub open spec fn is_protected(self) -> bool {
        self.write_type == WriteType::Rollback && self.short_value == Some(
            seq![PROTECTED_ROLLBACK_SHORT_VALUE],
        )
    }
}

/// The rollback record of the transaction that started at `start_ts`.
pub open spec fn rollback_view(start_ts: u64, protected: bool) -> WriteView {
    WriteView {
        write_type: WriteType::Rollback,
        start_ts,
        short_value: if protected {
            Some(seq![PROTECTED_ROLLBACK_SHORT_VALUE])
        } else {
            None
        },
        has_overlapped_rollback: false,
    }
}

impl Write {
    pub fn new(write_type: WriteType, start_ts: u64, short_value: Option<Vec<u8>>) -> (r: Write)
        ensures
            r@ == (WriteView {
                write_type,
                start_ts,
                short_value: opt_bytes(short_value),
                has_overlapped_rollback: false,
            }),
    {
        Write { write_type, start_ts, short_value, has_overlapped_rollback: false }
    }

    /// The rollback record of the transaction that started at `start_ts`.
    pub fn new_rollback(start_ts: u64, protected: bool) -> (r: Write)
        ensures
            r@ == rollback_view(start_ts, protected),
    {
        let short_value = if protected {
            Some(vec![PROTECTED_ROLLBACK_SHORT_VALUE])
        } else {
            None
        };
        let r = Write {
            write_type: WriteType::Rollback,
            start_ts,
            short_value,
            has_overlapped_rollback: false,
        };
        proof {
            if protected {
                assert(opt_bytes(r.short_value) =~= Some(seq![PROTECTED_ROLLBACK_SHORT_VALUE]));
            }
        }
        r
    }

    /// Whether this is a rollback record that later writers must not collapse.
    pub fn is_protected(&self) -> (r: bool)
        ensures
            r == self@.is_protected(),
    {
        match &self.short_value {
            Some(v) => {
                let r = self.write_type == WriteType::Rollback && v.len() == 1
                    && v[0] == PROTECTED_ROLLBACK_SHORT_VALUE;
                proof {
                    if self.write_type == WriteType::Rollback && v.len() == 1 && v[0]
                        == PROTECTED_ROLLBACK_SHORT_VALUE {
                        assert(v@ =~= seq![PROTECTED_ROLLBACK_SHORT_VALUE]);
                    }
                }
                r
            },
            None => false,
        }
    }

    /// A copy of this record.
    pub fn duplicate(&self) -> (r: Write)
        ensures
            r@ == self@,
    {
        Write {
            write_type: self.write_type,
            start_ts: self.start_ts,
            short_value: copy_opt_bytes(&self.short_value),
            has_overlapped_rollback: self.has_overlapped_rollback,
        }
    }
}

/// The write type that committing a lock of the given type records; none for
/// a pessimistic lock.
pub open spec fn write_type_of_lock(t: LockType) -> WriteType {
    match t {
        LockType::Put => WriteType::Put,
        LockType::Delete => WriteType::Delete,
        _ => WriteType::Dagger,
    }
}

/// One operation on one key of a transaction.
#[derive(Debug)]
pub enum Mutation {
    Put { key: Vec<u8>, value: Vec<u8> },
    Delete { key: Vec<u8> },
    Dagger { key: Vec<u8> },
    /// A put that requires the key not to exist.
    Insert { key: Vec<u8>, value: Vec<u8> },
    /// Only checks that the key does not exist; writes nothing.
    CheckNotExists { key: Vec<u8> },
}

impl Mutation {
    pub open spec fn key_view(&self) -> Seq<u8> {
        match self {
            Mutation::Put { key, .. } => key@,
            Mutation::Delete { key } => key@,
            Mutation::Dagger { key } => key@,
            Mutation::Insert { key, .. } => key@,
            Mutation::CheckNotExists { key } => key@,
        }
    }

    pub open spec fn value_view(&self) -> Option<Seq<u8>> {
        match self {
            Mutation::Put { value, .. } => Some(value@),
            Mutation::Insert { value, .. } => Some(value@),
            _ => None,
        }
    }

    /// The lock type that prewriting this mutation leaves.
    pub open spec fn lock_type_spec(&self) -> LockType {
        match self {
            Mutation::Put { .. } => LockType::Put,
            Mutation::Insert { .. } => LockType::Put,
            Mutation::Delete { .. } => LockType::Delete,
            _ => LockType::Dagger,
        }
    }

    pub open spec fn should_not_exist_spec(&self) -> bool {
        self is Insert || self is CheckNotExists
    }

    /// Splits the mutation into its key, its value and its lock type.
    pub fn into_parts(self) -> (r: (Vec<u8>, Option<Vec<u8>>, LockType))
        ensures
            r.0@ == self.key_view(),
            opt_bytes(r.1) == self.value_view(),
            r.2 == self.lock_type_spec(),
    {
        match self {
            Mutation::Put { key, value } => (key, Some(value), LockType::Put),
            Mutation::Insert { key, value } => (key, Some(value), LockType::Put),
            Mutation::Delete { key } => (key, None, LockType::Delete),
            Mutation::Dagger { key } => (key, None, LockType::Dagger),
            Mutation::CheckNotExists { key } => (key, None, LockType::Dagger),
        }
    }

    /// Whether the key must not exist for this mutation to succeed.
    pub fn should_not_exist(&self) -> (r: bool)
        ensures
            r == self.should_not_exist_spec(),
    {
        match self {
            Mutation::Insert { .. } | Mutation::CheckNotExists { .. } => true,
            _ => false,
        }
    }

    /// Whether this mutation only checks and writes nothing.
    pub fn should_not_write(&self) -> (r: bool)
        ensures
            r == (self is CheckNotExists),
    {
        match self {
            Mutation::CheckNotExists { .. } => true,
            _ => false,
        }
    }
}

} // verus!
