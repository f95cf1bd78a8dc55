//! The errors of the transaction engine.
use vstd::prelude::*;
use crate::types::LockType;

verus! {

/// What a caller needs to resolve a lock that blocked it.
#[derive(Debug)]
pub struct LockInfo {
    pub key: Vec<u8>,
    pub primary_lock: Vec<u8>,
    pub lock_version: u64,
    pub lock_ttl: u64,
    pub lock_type: LockType,
    pub lock_for_update_ts: u64,
    pub txn_size: u64,
    pub min_commit_ts: u64,
    pub use_async_commit: bool,
}

/// Errors of reads and of the transaction write path.
///
/// `DefaultNotFound` and `CorruptRecord` report stored data that contradicts
/// itself and are fatal; the others are conflicts that the caller resolves
/// or retries.
#[derive(Debug)]
pub enum MvccError {
    KeyIsLocked(LockInfo),
    WriteConflict {
        start_ts: u64,
        conflict_start_ts: u64,
        conflict_commit_ts: u64,
        key: Vec<u8>,
        primary: Vec<u8>,
    },
    AlreadyExist { key: Vec<u8> },
    PessimisticLockNotFound { start_ts: u64, key: Vec<u8> },
    PessimisticLockRolledBack { start_ts: u64, key: Vec<u8> },
    LockTypeNotMatch { start_ts: u64, key: Vec<u8>, pessimistic: bool },
    TxnNotFound { start_ts: u64, key: Vec<u8> },
    TxnLockNotFound { start_ts: u64, commit_ts: u64, key: Vec<u8> },
    Committed { commit_ts: u64 },
    CommitTsExpired { start_ts: u64, commit_ts: u64, key: Vec<u8>, min_commit_ts: u64 },
    Deadlock { start_ts: u64, lock_ts: u64, lock_key: Vec<u8>, deadlock_key_hash: u64 },
    /// A put record whose value is neither inlined nor in the default family.
    DefaultNotFound { key: Vec<u8>, start_ts: u64 },
    /// Async commit asked for while the largest read timestamp may be stale.
    MaxTimestampNotSynced { start_ts: u64 },
    /// The transaction's own lock sits beside a record of its outcome: the
    /// stored data contradicts itself.
    CorruptRecord { key: Vec<u8>, start_ts: u64 },
    /// A check-not-exists mutation handed to a pessimistic prewrite.
    CheckNotExistsInPessimisticPrewrite { key: Vec<u8> },
}

} // verus!
