use mvcc::errors::MvccError;
use mvcc::store::{IsolationLevel, Snapshot, TxnCommitRecord};
use mvcc::txn::{MvccTxn, TxnStatus, MAX_TXN_WRITE_SIZE};
use mvcc::types::{Mutation, WriteType, SHORT_VALUE_MAX_LEN};

fn write(engine: &mut Snapshot, txn: MvccTxn) {
    engine.write_modifies(txn.into_modifies());
}

fn try_prewrite(engine: &mut Snapshot, m: Mutation, pk: &[u8], ts: u64) -> Result<u64, MvccError> {
    let mut txn = MvccTxn::new(ts, 0);
    let r = txn.prewrite(engine, m, &pk.to_vec(), &None, false, 0, 0, 0);
    if r.is_ok() {
        write(engine, txn);
    }
    r
}

fn must_prewrite_put(engine: &mut Snapshot, key: &[u8], value: &[u8], pk: &[u8], ts: u64) {
    let m = Mutation::Put { key: key.to_vec(), value: value.to_vec() };
    try_prewrite(engine, m, pk, ts).unwrap();
}

fn must_prewrite_put_err(engine: &mut Snapshot, key: &[u8], value: &[u8], pk: &[u8], ts: u64) {
    let m = Mutation::Put { key: key.to_vec(), value: value.to_vec() };
    assert!(try_prewrite(engine, m, pk, ts).is_err());
}

fn must_prewrite_delete(engine: &mut Snapshot, key: &[u8], pk: &[u8], ts: u64) {
    try_prewrite(engine, Mutation::Delete { key: key.to_vec() }, pk, ts).unwrap();
}

fn must_prewrite_lock(engine: &mut Snapshot, key: &[u8], pk: &[u8], ts: u64) {
    try_prewrite(engine, Mutation::Dagger { key: key.to_vec() }, pk, ts).unwrap();
}

fn must_prewrite_lock_err(engine: &mut Snapshot, key: &[u8], pk: &[u8], ts: u64) {
    assert!(try_prewrite(engine, Mutation::Dagger { key: key.to_vec() }, pk, ts).is_err());
}

fn try_prewrite_insert(engine: &mut Snapshot, key: &[u8], value: &[u8], pk: &[u8], ts: u64) -> Result<u64, MvccError> {
    try_prewrite(engine, Mutation::Insert { key: key.to_vec(), value: value.to_vec() }, pk, ts)
}

fn try_prewrite_check_not_exists(engine: &mut Snapshot, key: &[u8], pk: &[u8], ts: u64) -> Result<u64, MvccError> {
    try_prewrite(engine, Mutation::CheckNotExists { key: key.to_vec() }, pk, ts)
}

fn try_pessimistic_prewrite(
    engine: &mut Snapshot,
    m: Mutation,
    pk: &[u8],
    ts: u64,
    for_update_ts: u64,
    is_pessimistic_lock: bool,
) -> Result<u64, MvccError> {
    let mut txn = MvccTxn::new(ts, 0);
    let r = txn.pessimistic_prewrite(engine, m, &pk.to_vec(), &None, is_pessimistic_lock, 0, for_update_ts, 0, 0, false);
    if r.is_ok() {
        write(engine, txn);
    }
    r
}

fn must_pessimistic_prewrite_put(
    engine: &mut Snapshot,
    key: &[u8],
    value: &[u8],
    pk: &[u8],
    ts: u64,
    for_update_ts: u64,
    is_pessimistic_lock: bool,
) {
    let m = Mutation::Put { key: key.to_vec(), value: value.to_vec() };
    try_pessimistic_prewrite(engine, m, pk, ts, for_update_ts, is_pessimistic_lock).unwrap();
}

fn must_pessimistic_prewrite_delete(
    engine: &mut Snapshot,
    key: &[u8],
    pk: &[u8],
    ts: u64,
    for_update_ts: u64,
    is_pessimistic_lock: bool,
) {
    let m = Mutation::Delete { key: key.to_vec() };
    try_pessimistic_prewrite(engine, m, pk, ts, for_update_ts, is_pessimistic_lock).unwrap();
}

fn try_acquire_pessimistic_lock(
    engine: &mut Snapshot,
    key: &[u8],
    pk: &[u8],
    start_ts: u64,
    for_update_ts: u64,
    need_value: bool,
) -> Result<Option<Vec<u8>>, MvccError> {
    let mut txn = MvccTxn::new(start_ts, 0);
    let r = txn.acquire_pessimistic_lock(engine, key.to_vec(), &pk.to_vec(), false, 0, for_update_ts, need_value, 0);
    if r.is_ok() {
        write(engine, txn);
    }
    r
}

fn must_acquire_pessimistic_lock(engine: &mut Snapshot, key: &[u8], pk: &[u8], start_ts: u64, for_update_ts: u64) {
    try_acquire_pessimistic_lock(engine, key, pk, start_ts, for_update_ts, false).unwrap();
}

fn must_commit(engine: &mut Snapshot, key: &[u8], start_ts: u64, commit_ts: u64) {
    let mut txn = MvccTxn::new(start_ts, 0);
    txn.commit(engine, key.to_vec(), commit_ts).unwrap();
    write(engine, txn);
}

fn try_rollback(engine: &mut Snapshot, key: &[u8], start_ts: u64) -> Result<(), MvccError> {
    let mut txn = MvccTxn::new(start_ts, 0);
    txn.collapse_rollback(false);
    txn.rollback(engine, key.to_vec())?;
    write(engine, txn);
    Ok(())
}

fn must_rollback(engine: &mut Snapshot, key: &[u8], start_ts: u64) {
    try_rollback(engine, key, start_ts).unwrap();
}

fn must_rollback_err(engine: &mut Snapshot, key: &[u8], start_ts: u64) {
    assert!(try_rollback(engine, key, start_ts).is_err());
}

fn must_rollback_collapsed(engine: &mut Snapshot, key: &[u8], start_ts: u64) {
    let mut txn = MvccTxn::new(start_ts, 0);
    txn.rollback(engine, key.to_vec()).unwrap();
    write(engine, txn);
}

fn try_cleanup(engine: &mut Snapshot, key: &[u8], start_ts: u64, current_ts: u64) -> Result<(), MvccError> {
    let mut txn = MvccTxn::new(start_ts, 0);
    txn.cleanup(engine, key.to_vec(), current_ts, true)?;
    write(engine, txn);
    Ok(())
}

fn must_cleanup(engine: &mut Snapshot, key: &[u8], start_ts: u64, current_ts: u64) {
    try_cleanup(engine, key, start_ts, current_ts).unwrap();
}

fn must_cleanup_err(engine: &mut Snapshot, key: &[u8], start_ts: u64, current_ts: u64) {
    assert!(try_cleanup(engine, key, start_ts, current_ts).is_err());
}

fn must_gc(engine: &mut Snapshot, key: &[u8], safe_point: u64) {
    let mut txn = MvccTxn::new(safe_point, 0);
    let info = txn.gc(engine, key.to_vec(), safe_point);
    assert!(info.is_completed);
    write(engine, txn);
}

fn get(engine: &Snapshot, key: &[u8], ts: u64) -> Result<Option<Vec<u8>>, MvccError> {
    engine.get(&key.to_vec(), ts, IsolationLevel::Si, &vec![])
}

fn must_get(engine: &Snapshot, key: &[u8], ts: u64, expect: &[u8]) {
    assert_eq!(get(engine, key, ts).unwrap().unwrap(), expect.to_vec());
}

fn must_get_none(engine: &Snapshot, key: &[u8], ts: u64) {
    assert!(get(engine, key, ts).unwrap().is_none());
}

fn must_get_err(engine: &Snapshot, key: &[u8], ts: u64) {
    assert!(get(engine, key, ts).is_err());
}

fn must_locked(engine: &Snapshot, key: &[u8], start_ts: u64) {
    let lock = engine.load_lock(&key.to_vec()).unwrap();
    assert_eq!(lock.ts, start_ts);
}

fn must_unlocked(engine: &Snapshot, key: &[u8]) {
    assert!(engine.load_lock(&key.to_vec()).is_none());
}

fn must_written(engine: &Snapshot, key: &[u8], start_ts: u64, commit_ts: u64, tp: WriteType) -> mvcc::types::Write {
    let w = engine.writes.get(&key.to_vec(), commit_ts).unwrap();
    assert_eq!(w.start_ts, start_ts);
    assert_eq!(w.write_type, tp);
    w.duplicate()
}

fn must_get_rollback_protected(engine: &Snapshot, key: &[u8], start_ts: u64, protected: bool) {
    let w = engine.writes.get(&key.to_vec(), start_ts).unwrap();
    assert_eq!(w.write_type, WriteType::Rollback);
    assert_eq!(w.start_ts, start_ts);
    assert_eq!(w.is_protected(), protected);
}

fn must_seek_write(engine: &Snapshot, key: &[u8], ts: u64, start_ts: u64, commit_ts: u64, tp: WriteType) {
    let (c, w) = engine.seek_write(&key.to_vec(), ts).unwrap();
    assert_eq!(c, commit_ts);
    assert_eq!(w.start_ts, start_ts);
    assert_eq!(w.write_type, tp);
}

fn must_seek_write_none(engine: &Snapshot, key: &[u8], ts: u64) {
    assert!(engine.seek_write(&key.to_vec(), ts).is_none());
}

fn must_get_commit_ts(engine: &Snapshot, key: &[u8], start_ts: u64, commit_ts: u64) {
    match engine.get_txn_commit_record(&key.to_vec(), start_ts) {
        TxnCommitRecord::SingleRecord { commit_ts: c, write } => {
            assert_eq!(c, commit_ts);
            assert_ne!(write.write_type, WriteType::Rollback);
        }
        _ => panic!("no commit record"),
    }
}

fn must_get_commit_ts_none(engine: &Snapshot, key: &[u8], start_ts: u64) {
    match engine.get_txn_commit_record(&key.to_vec(), start_ts) {
        TxnCommitRecord::SingleRecord { write, .. } => assert_eq!(write.write_type, WriteType::Rollback),
        _ => {}
    }
}

fn long_value(c: &str) -> Vec<u8> {
    c.repeat(SHORT_VALUE_MAX_LEN + 1).into_bytes()
}

fn test_tail_pointer_txn_read_imp(k1: &[u8], k2: &[u8], v: &[u8]) {
    let engine = &mut Snapshot::new();

    must_get_none(engine, k1, 1);

    must_prewrite_put(engine, k1, v, k1, 2);
    must_rollback(engine, k1, 2);
    // should ignore rollback
    must_get_none(engine, k1, 3);

    must_prewrite_lock(engine, k1, k1, 3);
    must_commit(engine, k1, 3, 4);
    // should ignore read lock
    must_get_none(engine, k1, 5);

    must_prewrite_put(engine, k1, v, k1, 5);
    must_prewrite_put(engine, k2, v, k1, 5);
    // should not be affected by later locks
    must_get_none(engine, k1, 4);
    // should read pending locks
    must_get_err(engine, k1, 7);
    // should ignore the primary lock and get none when reading the latest record
    must_get_none(engine, k1, u64::MAX);
    // should read secondary locks even when reading the latest record
    must_get_err(engine, k2, u64::MAX);

    must_commit(engine, k1, 5, 10);
    must_commit(engine, k2, 5, 10);
    must_get_none(engine, k1, 3);
    // should not read with ts < commit_ts
    must_get_none(engine, k1, 7);
    // should read with ts > commit_ts
    must_get(engine, k1, 13, v);
    // should read the latest record if `ts == u64::MAX`
    must_get(engine, k1, u64::MAX, v);

    must_prewrite_delete(engine, k1, k1, 15);
    // should ignore the lock and get previous record when reading the latest record
    must_get(engine, k1, u64::MAX, v);
    must_commit(engine, k1, 15, 20);
    must_get_none(engine, k1, 3);
    must_get_none(engine, k1, 7);
    must_get(engine, k1, 13, v);
    must_get(engine, k1, 17, v);
    must_get_none(engine, k1, 23);

    // intersecting timestamps with pessimistic txn
    // T1: start_ts = 25, commit_ts = 27
    // T2: start_ts = 23, commit_ts = 31
    must_prewrite_put(engine, k1, v, k1, 25);
    must_commit(engine, k1, 25, 27);
    must_acquire_pessimistic_lock(engine, k1, k1, 23, 29);
    must_get(engine, k1, 30, v);
    must_pessimistic_prewrite_delete(engine, k1, k1, 23, 29, true);
    must_get_err(engine, k1, 30);
    // should read the latest record when `ts == u64::MAX`
    // even if lock.start_ts(23) < latest write.commit_ts(27)
    must_get(engine, k1, u64::MAX, v);
    must_commit(engine, k1, 23, 31);
    must_get(engine, k1, 30, v);
    must_get_none(engine, k1, 32);
}

#[test]
fn test_tail_pointer_txn_read() {
    test_tail_pointer_txn_read_imp(b"k1", b"k2", b"v1");
    test_tail_pointer_txn_read_imp(b"k1", b"k2", &long_value("v"));
}

fn test_tail_pointer_txn_prewrite_imp(k: &[u8], v: &[u8]) {
    let engine = &mut Snapshot::new();

    must_prewrite_put(engine, k, v, k, 5);
    // Key is locked.
    must_locked(engine, k, 5);
    // Retry prewrite.
    must_prewrite_put(engine, k, v, k, 5);
    // Conflict.
    must_prewrite_lock_err(engine, k, k, 6);

    must_commit(engine, k, 5, 10);
    must_written(engine, k, 5, 10, WriteType::Put);
    // Delayed prewrite request after committing should do nothing.
    must_prewrite_put_err(engine, k, v, k, 5);
    must_unlocked(engine, k);
    // Write conflict.
    must_prewrite_lock_err(engine, k, k, 6);
    must_unlocked(engine, k);
    // Not conflict.
    must_prewrite_lock(engine, k, k, 12);
    must_locked(engine, k, 12);
    must_rollback(engine, k, 12);
    must_unlocked(engine, k);
    must_written(engine, k, 12, 12, WriteType::Rollback);
    // Cannot retry Prewrite after rollback.
    must_prewrite_lock_err(engine, k, k, 12);
    // Can prewrite after rollback.
    must_prewrite_delete(engine, k, k, 13);
    must_rollback(engine, k, 13);
    must_unlocked(engine, k);
}

#[test]
fn test_tail_pointer_txn_prewrite() {
    test_tail_pointer_txn_prewrite_imp(b"k1", b"v1");
    test_tail_pointer_txn_prewrite_imp(b"k2", &long_value("v"));
}

#[test]
fn test_tail_pointer_txn_prewrite_insert() {
    let engine = &mut Snapshot::new();
    let (k1, v1, v2, v3) = (b"k1", b"v1", b"v2", b"v3");
    must_prewrite_put(engine, k1, v1, k1, 1);
    must_commit(engine, k1, 1, 2);

    // "k1" already exist, returns AlreadyExist error.
    assert!(try_prewrite_insert(engine, k1, v2, k1, 3).is_err());

    // Delete "k1"
    must_prewrite_delete(engine, k1, k1, 4);
    must_commit(engine, k1, 4, 5);

    // After delete "k1", insert returns ok.
    assert!(try_prewrite_insert(engine, k1, v2, k1, 6).is_ok());
    must_commit(engine, k1, 6, 7);

    // Rollback
    must_prewrite_put(engine, k1, v3, k1, 8);
    must_rollback(engine, k1, 8);

    assert!(try_prewrite_insert(engine, k1, v3, k1, 9).is_err());

    // Delete "k1" again
    must_prewrite_delete(engine, k1, k1, 10);
    must_commit(engine, k1, 10, 11);

    // Rollback again
    must_prewrite_put(engine, k1, v3, k1, 12);
    must_rollback(engine, k1, 12);

    // After delete "k1", insert returns ok.
    assert!(try_prewrite_insert(engine, k1, v2, k1, 13).is_ok());
    must_commit(engine, k1, 13, 14);
}

#[test]
fn test_tail_pointer_txn_prewrite_check_not_exist() {
    let engine = &mut Snapshot::new();
    let (k1, v1, v2, v3) = (b"k1", b"v1", b"v2", b"v3");
    must_prewrite_put(engine, k1, v1, k1, 1);
    must_commit(engine, k1, 1, 2);

    // "k1" already exist, returns AlreadyExist error.
    assert!(try_prewrite_check_not_exists(engine, k1, k1, 3).is_err());

    // Delete "k1"
    must_prewrite_delete(engine, k1, k1, 4);
    must_commit(engine, k1, 4, 5);

    // After delete "k1", check_not_exists returns ok.
    assert!(try_prewrite_check_not_exists(engine, k1, k1, 6).is_ok());

    assert!(try_prewrite_insert(engine, k1, v2, k1, 7).is_ok());
    must_commit(engine, k1, 7, 8);

    // Rollback
    must_prewrite_put(engine, k1, v3, k1, 9);
    must_rollback(engine, k1, 9);
    assert!(try_prewrite_check_not_exists(engine, k1, k1, 10).is_err());

    // Delete "k1" again
    must_prewrite_delete(engine, k1, k1, 11);
    must_commit(engine, k1, 11, 12);

    // Rollback again
    must_prewrite_put(engine, k1, v3, k1, 13);
    must_rollback(engine, k1, 13);

    // After delete "k1", check_not_exists returns ok.
    assert!(try_prewrite_check_not_exists(engine, k1, k1, 14).is_ok());
}

#[test]
fn test_tail_pointer_txn_pessmistic_prewrite_check_not_exist() {
    let engine = &mut Snapshot::new();
    let k = b"k1";
    let m = Mutation::CheckNotExists { key: k.to_vec() };
    assert!(try_pessimistic_prewrite(engine, m, k, 3, 3, true).is_err());
}

#[test]
fn test_rollback_lock_optimistic() {
    let engine = &mut Snapshot::new();

    let (k, v) = (b"k1", b"v1");
    must_prewrite_put(engine, k, v, k, 5);
    must_commit(engine, k, 5, 10);

    // Lock
    must_prewrite_lock(engine, k, k, 15);
    must_locked(engine, k, 15);

    // Rollback lock
    must_rollback(engine, k, 15);
    // Rollbacks of optimistic transactions needn't be protected
    must_get_rollback_protected(engine, k, 15, false);
}

#[test]
fn test_rollback_lock_pessimistic() {
    let engine = &mut Snapshot::new();

    let (k1, k2, v) = (b"k1", b"k2", b"v1");

    must_acquire_pessimistic_lock(engine, k1, k1, 5, 5);
    must_acquire_pessimistic_lock(engine, k2, k1, 5, 7);
    must_rollback(engine, k1, 5);
    must_rollback(engine, k2, 5);
    // The rollback of the primary key should be protected
    must_get_rollback_protected(engine, k1, 5, true);
    // The rollback of the secondary key needn't be protected
    must_get_rollback_protected(engine, k2, 5, false);

    must_acquire_pessimistic_lock(engine, k1, k1, 15, 15);
    must_acquire_pessimistic_lock(engine, k2, k1, 15, 17);
    must_pessimistic_prewrite_put(engine, k1, v, k1, 15, 17, true);
    must_pessimistic_prewrite_put(engine, k2, v, k1, 15, 17, true);
    must_rollback(engine, k1, 15);
    must_rollback(engine, k2, 15);
    // The rollback of the primary key should be protected
    must_get_rollback_protected(engine, k1, 15, true);
    // The rollback of the secondary key needn't be protected
    must_get_rollback_protected(engine, k2, 15, false);
}

#[test]
fn test_rollback_del() {
    let engine = &mut Snapshot::new();

    let (k, v) = (b"k1", b"v1");
    must_prewrite_put(engine, k, v, k, 5);
    must_commit(engine, k, 5, 10);

    // Prewrite delete
    must_prewrite_delete(engine, k, k, 15);
    must_locked(engine, k, 15);

    // Rollback delete
    must_rollback(engine, k, 15);
}

#[test]
fn test_rollback_overlapped() {
    let engine = &mut Snapshot::new();
    let (k1, v1) = (b"key1", b"v1");
    let (k2, v2) = (b"key2", b"v2");

    must_prewrite_put(engine, k1, v1, k1, 10);
    must_prewrite_put(engine, k2, v2, k2, 11);
    must_commit(engine, k1, 10, 20);
    must_commit(engine, k2, 11, 20);
    let w1 = must_written(engine, k1, 10, 20, WriteType::Put);
    let w2 = must_written(engine, k2, 11, 20, WriteType::Put);
    assert!(!w1.has_overlapped_rollback);
    assert!(!w2.has_overlapped_rollback);

    must_cleanup(engine, k1, 20, 0);
    must_rollback(engine, k2, 20);

    let w1r = must_written(engine, k1, 10, 20, WriteType::Put);
    assert!(w1r.has_overlapped_rollback);
    // The only difference between w1r and w1 is the overlapped_rollback flag.
    assert_eq!(w1r.write_type, w1.write_type);
    assert_eq!(w1r.start_ts, w1.start_ts);
    assert_eq!(w1r.short_value, w1.short_value);

    let w2r = must_written(engine, k2, 11, 20, WriteType::Put);
    // Rollback is invoked on secondaries, so the rollback is not protected and overlapped_rollback
    // won't be set.
    assert_eq!(w2r.has_overlapped_rollback, w2.has_overlapped_rollback);
    assert_eq!(w2r.short_value, w2.short_value);
}

#[test]
fn test_tail_pointer_txn_rollback_after_commit() {
    let engine = &mut Snapshot::new();

    let k = b"k";
    let v = b"v";
    let t1 = 1;
    let t2 = 10;
    let t3 = 20;
    let t4 = 30;

    must_prewrite_put(engine, k, v, k, t1);

    must_rollback(engine, k, t2);
    must_rollback(engine, k, t2);
    must_rollback(engine, k, t4);

    must_commit(engine, k, t1, t3);
    // The rollback should be failed since the transaction
    // was committed before.
    must_rollback_err(engine, k, t1);
    must_get(engine, k, t4, v);
}

fn test_tail_pointer_txn_rollback_imp(k: &[u8], v: &[u8]) {
    let engine = &mut Snapshot::new();

    must_prewrite_put(engine, k, v, k, 5);
    must_rollback(engine, k, 5);
    // Rollback should be idempotent
    must_rollback(engine, k, 5);
    // Lock should be released after rollback
    must_unlocked(engine, k);
    must_prewrite_lock(engine, k, k, 10);
    must_rollback(engine, k, 10);
    // data should be dropped after rollback
    must_get_none(engine, k, 20);

    // Can't rollback committed transaction.
    must_prewrite_put(engine, k, v, k, 25);
    must_commit(engine, k, 25, 30);
    must_rollback_err(engine, k, 25);
    must_rollback_err(engine, k, 25);

    // Can't rollback other transaction's lock
    must_prewrite_delete(engine, k, k, 35);
    must_rollback(engine, k, 34);
    must_rollback(engine, k, 36);
    must_written(engine, k, 34, 34, WriteType::Rollback);
    must_written(engine, k, 36, 36, WriteType::Rollback);
    must_locked(engine, k, 35);
    must_commit(engine, k, 35, 40);
    must_get(engine, k, 39, v);
    must_get_none(engine, k, 41);
}

#[test]
fn test_tail_pointer_txn_rollback() {
    test_tail_pointer_txn_rollback_imp(b"k", b"v");
    test_tail_pointer_txn_rollback_imp(b"k2", &long_value("v"));
}

#[test]
fn test_tail_pointer_txn_rollback_before_prewrite() {
    let engine = &mut Snapshot::new();
    let key = b"key";
    must_rollback(engine, key, 5);
    must_prewrite_lock_err(engine, key, key, 5);
}

fn test_gc_imp(k: &[u8], v1: &[u8], v2: &[u8], v3: &[u8], v4: &[u8]) {
    let engine = &mut Snapshot::new();

    must_prewrite_put(engine, k, v1, k, 5);
    must_commit(engine, k, 5, 10);
    must_prewrite_put(engine, k, v2, k, 15);
    must_commit(engine, k, 15, 20);
    must_prewrite_delete(engine, k, k, 25);
    must_commit(engine, k, 25, 30);
    must_prewrite_put(engine, k, v3, k, 35);
    must_commit(engine, k, 35, 40);
    must_prewrite_lock(engine, k, k, 45);
    must_commit(engine, k, 45, 50);
    must_prewrite_put(engine, k, v4, k, 55);
    must_rollback(engine, k, 55);

    must_gc(engine, k, 12);
    must_get(engine, k, 12, v1);

    must_gc(engine, k, 22);
    must_get(engine, k, 22, v2);
    must_get_none(engine, k, 12);

    must_gc(engine, k, 32);
    must_get_none(engine, k, 22);
    must_get_none(engine, k, 35);

    must_gc(engine, k, 60);
    must_get(engine, k, 62, v3);
}

#[test]
fn test_gc() {
    test_gc_imp(b"k1", b"v1", b"v2", b"v3", b"v4");
    test_gc_imp(b"k2", &long_value("x"), &long_value("y"), &long_value("z"), &long_value("v"));
}

fn test_write_imp(k: &[u8], v: &[u8], k2: &[u8]) {
    let engine = &mut Snapshot::new();

    must_prewrite_put(engine, k, v, k, 5);
    must_seek_write_none(engine, k, 5);

    must_commit(engine, k, 5, 10);
    must_seek_write(engine, k, u64::MAX, 5, 10, WriteType::Put);
    must_seek_write_none(engine, k2, u64::MAX);
    must_get_commit_ts(engine, k, 5, 10);

    must_prewrite_delete(engine, k, k, 15);
    must_rollback(engine, k, 15);
    must_seek_write(engine, k, u64::MAX, 15, 15, WriteType::Rollback);
    must_get_commit_ts(engine, k, 5, 10);
    must_get_commit_ts_none(engine, k, 15);

    must_prewrite_lock(engine, k, k, 25);
    must_commit(engine, k, 25, 30);
    must_seek_write(engine, k, u64::MAX, 25, 30, WriteType::Dagger);
    must_get_commit_ts(engine, k, 25, 30);
}

#[test]
fn test_write() {
    test_write_imp(b"kk", b"v1", b"k");
    test_write_imp(b"kk", &long_value("x"), b"k");
}

#[test]
fn test_collapse_prev_rollback() {
    let engine = &mut Snapshot::new();
    let (key, value) = (b"key", b"value");

    // Add a Rollback whose start ts is 1.
    must_prewrite_put(engine, key, value, key, 1);
    must_rollback_collapsed(engine, key, 1);
    must_get_rollback_ts(engine, key, 1);

    // Add a Rollback whose start ts is 2, the previous Rollback whose
    // start ts is 1 will be collapsed.
    must_prewrite_put(engine, key, value, key, 2);
    must_rollback_collapsed(engine, key, 2);
    must_get_none(engine, key, 2);
    must_get_rollback_ts(engine, key, 2);
    must_get_rollback_ts_none(engine, key, 1);

    // Rollback arrive before Prewrite, it will collapse the
    // previous rollback whose start ts is 2.
    must_rollback_collapsed(engine, key, 3);
    must_get_none(engine, key, 3);
    must_get_rollback_ts(engine, key, 3);
    must_get_rollback_ts_none(engine, key, 2);
}

fn must_get_rollback_ts(engine: &Snapshot, key: &[u8], start_ts: u64) {
    let w = engine.writes.get(&key.to_vec(), start_ts).unwrap();
    assert_eq!(w.write_type, WriteType::Rollback);
    assert_eq!(w.start_ts, start_ts);
}

fn must_get_rollback_ts_none(engine: &Snapshot, key: &[u8], start_ts: u64) {
    if let Some(w) = engine.writes.get(&key.to_vec(), start_ts) {
        assert_ne!(w.write_type, WriteType::Rollback);
    }
}

#[test]
fn test_cleanup() {
    // The lock's time to live is set when it is prewritten.
    let engine = &mut Snapshot::new();
    let ts = |physical: u64, logical: u64| (physical << 18) + logical;
    let (k, v) = (b"k", b"v");

    let mut txn = MvccTxn::new(ts(10, 0), 0);
    txn.prewrite(engine, Mutation::Put { key: k.to_vec(), value: v.to_vec() }, &k.to_vec(), &None, false, 100, 0, 0)
        .unwrap();
    write(engine, txn);
    must_locked(engine, k, ts(10, 0));

    // TTL not expired. Do nothing but returns an error.
    must_cleanup_err(engine, k, ts(10, 0), ts(20, 0));
    must_locked(engine, k, ts(10, 0));

    // Try to cleanup another transaction's lock. Does nothing.
    must_cleanup(engine, k, ts(10, 1), ts(120, 0));
    // If there is no existing lock when cleanup, it may be a pessimistic transaction,
    // so the rollback should be protected.
    must_get_rollback_protected(engine, k, ts(10, 1), true);
    must_locked(engine, k, ts(10, 0));

    // TTL expired. The lock should be removed.
    must_cleanup(engine, k, ts(10, 0), ts(120, 0));
    must_unlocked(engine, k);
    // Rollbacks of optimistic transactions needn't be protected
    must_get_rollback_protected(engine, k, ts(10, 0), false);
    must_get_rollback_ts(engine, k, ts(10, 0));

    // Rollbacks of primary keys in pessimistic transactions should be protected
    must_acquire_pessimistic_lock(engine, k, k, ts(11, 1), ts(12, 1));
    must_cleanup(engine, k, ts(11, 1), ts(120, 0));
    must_get_rollback_protected(engine, k, ts(11, 1), true);

    must_acquire_pessimistic_lock(engine, k, k, ts(13, 1), ts(14, 1));
    must_pessimistic_prewrite_put(engine, k, v, k, ts(13, 1), ts(14, 1), true);
    must_cleanup(engine, k, ts(13, 1), ts(120, 0));
    must_get_rollback_protected(engine, k, ts(13, 1), true);
}

// Scenario: a put committed at 10 is invisible at 7 and visible at 13.
#[test]
fn scenario_commit_visibility() {
    let engine = &mut Snapshot::new();
    must_prewrite_put(engine, b"k", b"v1", b"k", 5);
    must_commit(engine, b"k", 5, 10);
    must_get_none(engine, b"k", 7);
    must_get(engine, b"k", 13, b"v1");
}

// Scenario: a rollback before commit leaves a rollback record and no value;
// a second rollback is a no-op.
#[test]
fn scenario_rollback_before_commit() {
    let engine = &mut Snapshot::new();
    must_prewrite_put(engine, b"k", b"v1", b"k", 5);
    must_rollback(engine, b"k", 5);
    must_written(engine, b"k", 5, 5, WriteType::Rollback);
    must_get_none(engine, b"k", 20);
    let before = engine.writes.entries.len();
    let mut txn = MvccTxn::new(5, 0);
    assert!(txn.rollback(engine, b"k".to_vec()).unwrap().is_none());
    assert!(txn.into_modifies().is_empty());
    assert_eq!(engine.writes.entries.len(), before);
}

// Scenario: a pessimistic delete keeps the old value visible below its commit.
#[test]
fn scenario_pessimistic_delete() {
    let engine = &mut Snapshot::new();
    must_prewrite_put(engine, b"k", b"v0", b"k", 1);
    must_commit(engine, b"k", 1, 2);
    must_acquire_pessimistic_lock(engine, b"k", b"k", 10, 10);
    must_pessimistic_prewrite_delete(engine, b"k", b"k", 10, 10, true);
    must_commit(engine, b"k", 10, 20);
    must_get_none(engine, b"k", 25);
    must_get(engine, b"k", 15, b"v0");
}

// Scenario: GC at 30 removes the puts committed at 10 and 20 and the delete at 30.
#[test]
fn scenario_gc_history() {
    let engine = &mut Snapshot::new();
    let k = b"k";
    let v = long_value("x");
    must_prewrite_put(engine, k, &v, k, 5);
    must_commit(engine, k, 5, 10);
    must_prewrite_put(engine, k, &v, k, 15);
    must_commit(engine, k, 15, 20);
    must_prewrite_delete(engine, k, k, 25);
    must_commit(engine, k, 25, 30);
    must_prewrite_put(engine, k, &v, k, 35);
    must_commit(engine, k, 35, 40);
    let mut txn = MvccTxn::new(30, 0);
    let info = txn.gc(engine, k.to_vec(), 30);
    assert!(info.is_completed);
    assert_eq!(info.found_versions, 4);
    assert_eq!(info.deleted_versions, 3);
    write(engine, txn);
    assert_eq!(engine.writes.entries.len(), 1);
    must_written(engine, k, 35, 40, WriteType::Put);
    assert_eq!(engine.values.entries.len(), 1);
    assert!(engine.values.get(&k.to_vec(), 35).is_some());
}

#[test]
fn gc_stops_at_write_size_limit() {
    let engine = &mut Snapshot::new();
    let k = vec![7u8; 4096];
    for i in 1..12u64 {
        must_prewrite_put(engine, &k, b"v", &k, i * 10);
        must_commit(engine, &k, i * 10, i * 10 + 1);
    }
    let mut txn = MvccTxn::new(1000, 0);
    let info = txn.gc(engine, k.clone(), 1000);
    assert!(!info.is_completed);
    assert!(txn.write_size() >= MAX_TXN_WRITE_SIZE);
}

#[test]
fn prewrite_errors() {
    let engine = &mut Snapshot::new();
    must_prewrite_put(engine, b"k", b"v", b"k", 10);
    // Another transaction's lock.
    match try_prewrite(engine, Mutation::Put { key: b"k".to_vec(), value: b"v".to_vec() }, b"k", 11) {
        Err(MvccError::KeyIsLocked(info)) => assert_eq!(info.lock_version, 10),
        _ => panic!("expected KeyIsLocked"),
    }
    must_commit(engine, b"k", 10, 20);
    match try_prewrite(engine, Mutation::Put { key: b"k".to_vec(), value: b"v".to_vec() }, b"k", 15) {
        Err(MvccError::WriteConflict { conflict_start_ts, conflict_commit_ts, .. }) => {
            assert_eq!(conflict_start_ts, 10);
            assert_eq!(conflict_commit_ts, 20);
        }
        _ => panic!("expected WriteConflict"),
    }
    match try_prewrite_insert(engine, b"k", b"v", b"k", 25) {
        Err(MvccError::AlreadyExist { key }) => assert_eq!(key, b"k".to_vec()),
        _ => panic!("expected AlreadyExist"),
    }
    must_acquire_pessimistic_lock(engine, b"p", b"p", 30, 30);
    match try_prewrite(engine, Mutation::Put { key: b"p".to_vec(), value: b"v".to_vec() }, b"p", 30) {
        Err(MvccError::LockTypeNotMatch { pessimistic, .. }) => assert!(pessimistic),
        _ => panic!("expected LockTypeNotMatch"),
    }
}

#[test]
fn pessimistic_errors() {
    let engine = &mut Snapshot::new();
    must_prewrite_put(engine, b"k", b"v", b"k", 10);
    must_commit(engine, b"k", 10, 20);
    match try_acquire_pessimistic_lock(engine, b"k", b"k", 15, 15, false) {
        Err(MvccError::WriteConflict { conflict_commit_ts, .. }) => assert_eq!(conflict_commit_ts, 20),
        _ => panic!("expected WriteConflict"),
    }
    must_rollback(engine, b"k", 30);
    match try_acquire_pessimistic_lock(engine, b"k", b"k", 30, 30, false) {
        Err(MvccError::PessimisticLockRolledBack { start_ts, .. }) => assert_eq!(start_ts, 30),
        _ => panic!("expected PessimisticLockRolledBack"),
    }
    let m = Mutation::Put { key: b"q".to_vec(), value: b"v".to_vec() };
    match try_pessimistic_prewrite(engine, m, b"q", 40, 40, true) {
        Err(MvccError::PessimisticLockNotFound { start_ts, .. }) => assert_eq!(start_ts, 40),
        _ => panic!("expected PessimisticLockNotFound"),
    }
    // The value read at the for-update timestamp.
    assert_eq!(try_acquire_pessimistic_lock(engine, b"k", b"k", 50, 50, true).unwrap(), Some(b"v".to_vec()));
}

#[test]
fn commit_errors_and_status() {
    let engine = &mut Snapshot::new();
    let mut txn = MvccTxn::new(5, 0);
    match txn.commit(engine, b"k".to_vec(), 10) {
        Err(MvccError::TxnLockNotFound { start_ts, commit_ts, .. }) => {
            assert_eq!(start_ts, 5);
            assert_eq!(commit_ts, 10);
        }
        _ => panic!("expected TxnLockNotFound"),
    }
    must_prewrite_put(engine, b"k", b"v", b"k", 5);
    must_commit(engine, b"k", 5, 10);
    // A second commit is a no-op.
    let mut txn = MvccTxn::new(5, 0);
    assert!(txn.commit(engine, b"k".to_vec(), 10).unwrap().is_none());
    match try_rollback(engine, b"k", 5) {
        Err(MvccError::Committed { commit_ts }) => assert_eq!(commit_ts, 10),
        _ => panic!("expected Committed"),
    }
    let mut txn = MvccTxn::new(7, 0);
    match txn.check_txn_status_missing_lock(engine, b"k".to_vec(), None, mvcc::txn::MissingLockAction::ReturnError) {
        Err(MvccError::TxnNotFound { start_ts, .. }) => assert_eq!(start_ts, 7),
        _ => panic!("expected TxnNotFound"),
    }
    let mut txn = MvccTxn::new(5, 0);
    let st = txn.check_txn_status_missing_lock(engine, b"k".to_vec(), None, mvcc::txn::MissingLockAction::ReturnError);
    assert_eq!(st.unwrap(), TxnStatus::Committed { commit_ts: 10 });
}

#[test]
fn released_lock_hash_depends_on_key() {
    let engine = &mut Snapshot::new();
    must_prewrite_put(engine, b"a", b"v", b"a", 5);
    must_prewrite_put(engine, b"b", b"v", b"a", 5);
    let mut txn = MvccTxn::new(5, 0);
    let ra = txn.commit(engine, b"a".to_vec(), 6).unwrap().unwrap();
    let rb = txn.commit(engine, b"b".to_vec(), 6).unwrap().unwrap();
    assert_ne!(ra.hash, rb.hash);
    assert!(!ra.pessimistic);
    assert_eq!(ra.hash, mvcc::txn::gen_hash(&b"a".to_vec()));
}

#[test]
fn async_commit_min_commit_ts() {
    let engine = &mut Snapshot::new();
    let mut txn = MvccTxn::new(10, 100);
    let secondaries = Some(vec![b"s".to_vec()]);
    let r = txn
        .prewrite(engine, Mutation::Put { key: b"k".to_vec(), value: b"v".to_vec() }, &b"k".to_vec(), &secondaries, false, 0, 0, 0)
        .unwrap();
    assert_eq!(r, 101);
    assert_eq!(txn.take_guards(), vec![b"k".to_vec()]);
    write(engine, txn);
    let lock = engine.load_lock(&b"k".to_vec()).unwrap();
    assert!(lock.use_async_commit);
    assert_eq!(lock.min_commit_ts, 101);
    assert_eq!(lock.secondaries, vec![b"s".to_vec()]);
}

fn must_locked_lock(engine: &Snapshot, key: &[u8], start_ts: u64) -> mvcc::types::Dagger {
    let lock = engine.load_lock(&key.to_vec()).unwrap();
    assert_eq!(lock.ts, start_ts);
    lock
}

fn must_prewrite_put_async_commit(
    engine: &mut Snapshot,
    key: &[u8],
    value: &[u8],
    pk: &[u8],
    secondary_keys: &Option<Vec<Vec<u8>>>,
    ts: u64,
    min_commit_ts: u64,
) {
    let mut txn = MvccTxn::new(ts, ts);
    txn.prewrite(engine, Mutation::Put { key: key.to_vec(), value: value.to_vec() }, &pk.to_vec(), secondary_keys, false, 0, 0, min_commit_ts)
        .unwrap();
    write(engine, txn);
}

fn must_pessimistic_locked(engine: &Snapshot, key: &[u8], start_ts: u64, for_update_ts: u64) {
    let lock = engine.load_lock(&key.to_vec()).unwrap();
    assert_eq!(lock.ts, start_ts);
    assert_eq!(lock.for_update_ts, for_update_ts);
    assert_eq!(lock.lock_type, mvcc::types::LockType::Pessimistic);
}

#[test]
fn test_async_prewrite_primary() {
    let engine = &mut Snapshot::new();
    let secondaries = Some(vec![b"key1".to_vec(), b"key2".to_vec(), b"key3".to_vec()]);
    let do_prewrite = |engine: &mut Snapshot| -> u64 {
        let mut txn = MvccTxn::new(2, 42);
        let mutation = Mutation::Put { key: b"key".to_vec(), value: b"value".to_vec() };
        let min_commit_ts = txn.prewrite(engine, mutation, &b"key".to_vec(), &secondaries, false, 0, 4, 0).unwrap();
        let modifies = txn.into_modifies();
        if !modifies.is_empty() {
            engine.write_modifies(modifies);
        }
        min_commit_ts
    };

    assert_eq!(do_prewrite(engine), 43);

    let lock = engine.load_lock(&b"key".to_vec()).unwrap();
    assert_eq!(lock.ts, 2);
    assert!(lock.use_async_commit);
    assert_eq!(lock.secondaries, vec![b"key1".to_vec(), b"key2".to_vec(), b"key3".to_vec()]);

    // max_ts in the concurrency manager is 42, so the min_commit_ts is 43.
    assert_eq!(lock.min_commit_ts, 43);

    // A duplicate prewrite request should return the min_commit_ts in the primary key
    assert_eq!(do_prewrite(engine), 43);
}

#[test]
fn test_async_pessimistic_prewrite_primary() {
    let engine = &mut Snapshot::new();
    must_acquire_pessimistic_lock(engine, b"key", b"key", 2, 2);
    let secondaries = Some(vec![b"key1".to_vec(), b"key2".to_vec(), b"key3".to_vec()]);

    let do_pessimistic_prewrite = |engine: &mut Snapshot| -> u64 {
        let mut txn = MvccTxn::new(2, 42);
        let mutation = Mutation::Put { key: b"key".to_vec(), value: b"value".to_vec() };
        let min_commit_ts = txn
            .pessimistic_prewrite(engine, mutation, &b"key".to_vec(), &secondaries, true, 0, 4, 4, 0, false)
            .unwrap();
        let modifies = txn.into_modifies();
        if !modifies.is_empty() {
            engine.write_modifies(modifies);
        }
        min_commit_ts
    };

    assert_eq!(do_pessimistic_prewrite(engine), 43);

    let lock = engine.load_lock(&b"key".to_vec()).unwrap();
    assert_eq!(lock.ts, 2);
    assert!(lock.use_async_commit);
    assert_eq!(lock.secondaries, vec![b"key1".to_vec(), b"key2".to_vec(), b"key3".to_vec()]);

    // max_ts in the concurrency manager is 42, so the min_commit_ts is 43.
    assert_eq!(lock.min_commit_ts, 43);

    // A duplicate prewrite request should return the min_commit_ts in the primary key
    assert_eq!(do_pessimistic_prewrite(engine), 43);
}

#[test]
fn test_async_commit_pushed_min_commit_ts() {
    let engine = &mut Snapshot::new();

    // Simulate that min_commit_ts is pushed forward larger than latest_ts
    let mut txn = MvccTxn::new(2, 0);
    txn.acquire_pessimistic_lock(engine, b"key".to_vec(), &b"key".to_vec(), false, 20000, 2, false, 100).unwrap();
    write(engine, txn);

    let mut txn = MvccTxn::new(2, 42);
    let mutation = Mutation::Put { key: b"key".to_vec(), value: b"value".to_vec() };
    let secondaries = Some(vec![b"key1".to_vec(), b"key2".to_vec(), b"key3".to_vec()]);
    let min_commit_ts = txn
        .pessimistic_prewrite(engine, mutation, &b"key".to_vec(), &secondaries, true, 0, 4, 4, 0, false)
        .unwrap();
    assert_eq!(min_commit_ts, 100);
}

#[test]
fn test_txn_timestamp_overlapping() {
    let engine = &mut Snapshot::new();
    let (k, v) = (b"k1", b"v1");

    // Prepare a committed transaction.
    must_prewrite_put(engine, k, v, k, 10);
    must_locked(engine, k, 10);
    must_commit(engine, k, 10, 20);
    must_unlocked(engine, k);
    must_written(engine, k, 10, 20, WriteType::Put);

    // Optimistic transaction allows the start_ts equals to another transaction's commit_ts
    // on the same key.
    must_prewrite_put(engine, k, v, k, 20);
    must_locked(engine, k, 20);
    must_commit(engine, k, 20, 30);
    must_unlocked(engine, k);

    // ...but it can be rejected by overlapped rollback flag.
    must_cleanup(engine, k, 30, 0);
    let w = must_written(engine, k, 20, 30, WriteType::Put);
    assert!(w.has_overlapped_rollback);
    must_unlocked(engine, k);
    must_prewrite_put_err(engine, k, v, k, 30);
    must_unlocked(engine, k);

    // Prepare a committed transaction.
    must_prewrite_put(engine, k, v, k, 40);
    must_locked(engine, k, 40);
    must_commit(engine, k, 40, 50);
    must_unlocked(engine, k);
    must_written(engine, k, 40, 50, WriteType::Put);

    // Pessimistic transaction also works in the same case.
    must_acquire_pessimistic_lock(engine, k, k, 50, 50);
    must_pessimistic_locked(engine, k, 50, 50);
    must_pessimistic_prewrite_put(engine, k, v, k, 50, 50, true);
    must_commit(engine, k, 50, 60);
    must_unlocked(engine, k);
    must_written(engine, k, 50, 60, WriteType::Put);

    // .. and it can also be rejected by overlapped rollback flag.
    must_cleanup(engine, k, 60, 0);
    let w = must_written(engine, k, 50, 60, WriteType::Put);
    assert!(w.has_overlapped_rollback);
    must_unlocked(engine, k);
    assert!(try_acquire_pessimistic_lock(engine, k, k, 60, 60, false).is_err());
    must_unlocked(engine, k);
}

/// Checks the status of the transaction started at `start_ts` whose lock on
/// the primary is missing, rolling it back with protection.
fn must_check_status_rolls_back(engine: &mut Snapshot, key: &[u8], start_ts: u64) {
    let lock = engine.load_lock(&key.to_vec());
    let mut txn = MvccTxn::new(start_ts, 0);
    let status = txn
        .check_txn_status_missing_lock(engine, key.to_vec(), lock, mvcc::txn::MissingLockAction::rollback(true))
        .unwrap();
    assert_eq!(status, TxnStatus::LockNotExist);
    write(engine, txn);
}

#[test]
fn test_rollback_while_other_transaction_running() {
    let engine = &mut Snapshot::new();
    let (k, v) = (b"k1", b"v1");

    must_prewrite_put_async_commit(engine, k, v, k, &Some(vec![]), 10, 0);
    must_cleanup(engine, k, 15, 0);
    must_commit(engine, k, 10, 15);
    let w = must_written(engine, k, 10, 15, WriteType::Put);
    assert!(w.has_overlapped_rollback);

    must_prewrite_put_async_commit(engine, k, v, k, &Some(vec![]), 20, 0);
    must_check_status_rolls_back(engine, k, 25);
    must_commit(engine, k, 20, 25);
    let w = must_written(engine, k, 20, 25, WriteType::Put);
    assert!(w.has_overlapped_rollback);

    must_prewrite_put_async_commit(engine, k, v, k, &Some(vec![]), 30, 0);
    must_check_status_rolls_back(engine, k, 35);
    must_commit(engine, k, 30, 35);
    let w = must_written(engine, k, 30, 35, WriteType::Put);
    assert!(w.has_overlapped_rollback);

    // Do not commit with overlapped_rollback if the rollback ts doesn't equal to commit_ts.
    must_prewrite_put_async_commit(engine, k, v, k, &Some(vec![]), 40, 0);
    must_cleanup(engine, k, 44, 0);
    must_commit(engine, k, 40, 45);
    let w = must_written(engine, k, 40, 45, WriteType::Put);
    assert!(!w.has_overlapped_rollback);

    // Do not put rollback mark to the lock if the lock is not async commit or if lock.ts is
    // before start_ts or min_commit_ts.
    must_prewrite_put(engine, k, v, k, 50);
    must_cleanup(engine, k, 55, 0);
    let l = must_locked_lock(engine, k, 50);
    assert!(l.rollback_ts.is_empty());
    must_commit(engine, k, 50, 56);

    must_prewrite_put_async_commit(engine, k, v, k, &Some(vec![]), 60, 0);
    must_cleanup(engine, k, 59, 0);
    let l = must_locked_lock(engine, k, 60);
    assert!(l.rollback_ts.is_empty());
    must_commit(engine, k, 60, 65);

    must_prewrite_put_async_commit(engine, k, v, k, &Some(vec![]), 70, 75);
    must_cleanup(engine, k, 74, 0);
    must_cleanup(engine, k, 75, 0);
    let l = must_locked_lock(engine, k, 70);
    assert_eq!(l.min_commit_ts, 75);
    assert_eq!(l.rollback_ts, vec![75]);
}

#[test]
fn rollback_twice_changes_nothing() {
    let engine = &mut Snapshot::new();
    must_prewrite_put(engine, b"k", &long_value("v"), b"k", 5);
    must_rollback_collapsed(engine, b"k", 5);
    let writes = engine.writes.entries.len();
    let values = engine.values.entries.len();
    let mut txn = MvccTxn::new(5, 0);
    txn.rollback(engine, b"k".to_vec()).unwrap();
    assert!(txn.into_modifies().is_empty());
    assert_eq!(engine.writes.entries.len(), writes);
    assert_eq!(engine.values.entries.len(), values);
    assert_eq!(values, 0);
}

#[test]
fn one_lock_and_one_version_per_timestamp() {
    let engine = &mut Snapshot::new();
    must_acquire_pessimistic_lock(engine, b"k", b"k", 10, 10);
    must_acquire_pessimistic_lock(engine, b"k", b"k", 10, 12);
    must_pessimistic_prewrite_put(engine, b"k", b"v", b"k", 10, 12, true);
    assert_eq!(engine.locks.entries.len(), 1);
    must_commit(engine, b"k", 10, 20);
    assert_eq!(engine.locks.entries.len(), 0);
    // A rollback landing on the same commit timestamp marks the record instead
    // of adding a second one.
    must_cleanup(engine, b"k", 20, 0);
    assert_eq!(engine.writes.entries.len(), 1);
    assert!(engine.writes.get(&b"k".to_vec(), 20).unwrap().has_overlapped_rollback);
}

fn test_write_size_imp(k: &[u8], v: &[u8], pk: &[u8]) {
    let engine = &mut Snapshot::new();
    let mut txn = MvccTxn::new(10, 10);
    assert_eq!(txn.write_size(), 0);

    txn.prewrite(engine, Mutation::Put { key: k.to_vec(), value: v.to_vec() }, &pk.to_vec(), &None, false, 0, 0, 0)
        .unwrap();
    assert!(txn.write_size() > 0);
    write(engine, txn);

    let mut txn = MvccTxn::new(10, 10);
    txn.commit(engine, k.to_vec(), 15).unwrap();
    assert!(txn.write_size() > 0);
    write(engine, txn);
}

#[test]
fn test_write_size() {
    test_write_size_imp(b"key", b"value", b"pk");
    test_write_size_imp(b"key", &long_value("x"), b"pk");
}
