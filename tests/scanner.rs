use mvcc::table::Table;
use mvcc::cursor::{Cursor, ScanMode};
use mvcc::errors::MvccError;
use mvcc::scanner::{DeltaEntry, DeltaEntryPolicy, ForwardScanner, LatestEntryPolicy, NewerTsCheckState};
use mvcc::store::{IsolationLevel, Snapshot};
use mvcc::txn::MvccTxn;
use mvcc::types::Mutation;

fn put(engine: &mut Snapshot, key: &[u8], value: &[u8], start_ts: u64, commit_ts: u64) {
    let mut txn = MvccTxn::new(start_ts, 0);
    txn.prewrite(engine, Mutation::Put { key: key.to_vec(), value: value.to_vec() }, &key.to_vec(), &None, false, 0, 0, 0)
        .unwrap();
    engine.write_modifies(txn.into_modifies());
    if commit_ts > 0 {
        let mut txn = MvccTxn::new(start_ts, 0);
        txn.commit(engine, key.to_vec(), commit_ts).unwrap();
        engine.write_modifies(txn.into_modifies());
    }
}

fn delete(engine: &mut Snapshot, key: &[u8], start_ts: u64, commit_ts: u64) {
    let mut txn = MvccTxn::new(start_ts, 0);
    txn.prewrite(engine, Mutation::Delete { key: key.to_vec() }, &key.to_vec(), &None, false, 0, 0, 0).unwrap();
    engine.write_modifies(txn.into_modifies());
    let mut txn = MvccTxn::new(start_ts, 0);
    txn.commit(engine, key.to_vec(), commit_ts).unwrap();
    engine.write_modifies(txn.into_modifies());
}

fn scan_all(s: &mut ForwardScanner) -> Vec<(Vec<u8>, Vec<u8>)> {
    let mut out = vec![];
    while let Some(kv) = s.read_next().unwrap() {
        out.push(kv);
    }
    out
}

#[test]
fn scan_latest_values_in_order() {
    let engine = &mut Snapshot::new();
    put(engine, b"c", b"c1", 1, 2);
    put(engine, b"a", b"a1", 1, 2);
    put(engine, b"b", b"b1", 3, 4);
    delete(engine, b"c", 5, 6);
    put(engine, b"a", b"a2", 7, 8);
    let mut s = ForwardScanner::new(engine, 5, vec![], None, IsolationLevel::Si, vec![], true);
    assert_eq!(scan_all(&mut s), vec![(b"a".to_vec(), b"a1".to_vec()), (b"b".to_vec(), b"b1".to_vec()), (b"c".to_vec(), b"c1".to_vec())]);
    assert_eq!(s.met_newer_ts_data(), NewerTsCheckState::Met);
    let mut s = ForwardScanner::new(engine, 10, vec![], None, IsolationLevel::Si, vec![], false);
    assert_eq!(scan_all(&mut s), vec![(b"a".to_vec(), b"a2".to_vec()), (b"b".to_vec(), b"b1".to_vec())]);
    assert_eq!(s.met_newer_ts_data(), NewerTsCheckState::Unknown);
}

#[test]
fn scan_bounds() {
    let engine = &mut Snapshot::new();
    for k in [b"a", b"b", b"c", b"d"] {
        put(engine, k, k, 1, 2);
    }
    let mut s = ForwardScanner::new(engine, 5, b"b".to_vec(), Some(b"d".to_vec()), IsolationLevel::Si, vec![], false);
    assert_eq!(scan_all(&mut s), vec![(b"b".to_vec(), b"b".to_vec()), (b"c".to_vec(), b"c".to_vec())]);
}

#[test]
fn scan_meets_lock() {
    let engine = &mut Snapshot::new();
    put(engine, b"a", b"a1", 1, 2);
    put(engine, b"b", b"b1", 3, 0);
    put(engine, b"c", b"c1", 1, 2);
    let mut s = ForwardScanner::new(engine, 5, vec![], None, IsolationLevel::Si, vec![], false);
    assert_eq!(s.read_next().unwrap().unwrap().0, b"a".to_vec());
    match s.read_next() {
        Err(MvccError::KeyIsLocked(info)) => assert_eq!(info.key, b"b".to_vec()),
        _ => panic!("expected KeyIsLocked"),
    }
    assert_eq!(s.read_next().unwrap().unwrap().0, b"c".to_vec());
    // Read committed ignores the lock; a bypassed lock is ignored too.
    let mut s = ForwardScanner::new(engine, 5, vec![], None, IsolationLevel::Rc, vec![], false);
    assert_eq!(scan_all(&mut s).len(), 2);
    let mut s = ForwardScanner::new(engine, 5, vec![], None, IsolationLevel::Si, vec![3], false);
    assert_eq!(scan_all(&mut s).len(), 2);
}

#[test]
fn cursor_moves_in_key_order() {
    let engine = &mut Snapshot::new();
    put(engine, b"b", b"x", 1, 2);
    put(engine, b"a", b"x", 3, 4);
    put(engine, b"a", b"x", 5, 6);
    let mut c = Cursor::new(&engine.writes, ScanMode::Forward);
    assert!(!c.valid());
    assert!(c.seek(&b"a".to_vec(), u64::MAX));
    assert_eq!((c.key().clone(), c.ts()), (b"a".to_vec(), 6));
    assert_eq!(c.value().start_ts, 5);
    assert!(c.next());
    assert_eq!((c.key().clone(), c.ts()), (b"a".to_vec(), 4));
    assert!(c.next());
    assert_eq!((c.key().clone(), c.ts()), (b"b".to_vec(), 2));
    assert!(!c.next());
    assert!(!c.valid());
    assert!(c.near_seek(&b"a".to_vec(), 5));
    assert_eq!(c.ts(), 4);
    assert!(c.near_seek(&b"b".to_vec(), 3));
    assert_eq!(c.key().clone(), b"b".to_vec());
    assert!(!c.near_seek(&b"c".to_vec(), 3));
}

#[test]
fn test_reverse_iterate() {
    let test_data = vec![
        (b"a1".to_vec(), b"v1".to_vec()),
        (b"a3".to_vec(), b"v3".to_vec()),
        (b"a5".to_vec(), b"v5".to_vec()),
        (b"a7".to_vec(), b"v7".to_vec()),
        (b"a9".to_vec(), b"v9".to_vec()),
    ];
    let mut table: Table<Vec<u8>> = Table::new();
    for (k, v) in &test_data {
        table.put(k.clone(), 0, v.clone());
    }
    let mut iter = Cursor::new(&table, ScanMode::Mixed);
    assert!(!iter.reverse_seek(&b"a1".to_vec(), 0));
    assert!(iter.reverse_seek(&b"a2".to_vec(), 0));
    assert_eq!((iter.key().clone(), iter.value().clone()), (b"a1".to_vec(), b"v1".to_vec()));
    for kv_pairs in test_data.windows(2) {
        assert!(iter.reverse_seek(&kv_pairs[1].0, 0));
        assert_eq!((iter.key().clone(), iter.value().clone()), kv_pairs[0]);
    }

    assert!(iter.seek_to_last());
    let mut res = vec![];
    loop {
        res.push((iter.key().clone(), iter.value().clone()));
        if !iter.prev() {
            break;
        }
    }
    let mut expect = test_data.clone();
    expect.reverse();
    assert_eq!(res, expect);

    assert!(iter.seek_for_prev(&b"a4".to_vec(), 0));
    assert_eq!(iter.key().clone(), b"a3".to_vec());
    assert!(iter.seek_to_first());
    assert_eq!(iter.key().clone(), b"a1".to_vec());
    // Near seeks backwards: stay when already at or before the target.
    assert!(iter.near_seek_for_prev(&b"a2".to_vec(), 0));
    assert_eq!(iter.key().clone(), b"a1".to_vec());
    assert!(iter.seek_to_last());
    assert!(iter.near_seek_for_prev(&b"a6".to_vec(), 0));
    assert_eq!(iter.key().clone(), b"a5".to_vec());
    assert!(!iter.near_seek_for_prev(&b"a0".to_vec(), 0));
    // Outside backward mode a near seek lands where a seek would, also when
    // the cursor stands past the target.
    assert!(iter.seek_to_last());
    assert!(iter.near_seek(&b"a2".to_vec(), 0));
    assert_eq!(iter.key().clone(), b"a3".to_vec());
    assert!(iter.seek_to_first());
    assert!(iter.near_seek_for_prev(&b"a6".to_vec(), 0));
    assert_eq!(iter.key().clone(), b"a5".to_vec());
}

fn kv_scanner(engine: &Snapshot, ts: u64, lower: Option<Vec<u8>>, upper: Option<Vec<u8>>) -> ForwardScanner<'_> {
    ForwardScanner::new(engine, ts, lower.unwrap_or_default(), upper, IsolationLevel::Si, vec![], false)
}

#[test]
fn forward_test_cone() {
    let engine = &mut Snapshot::new();

    // Generate 1 put for [1], [2] ... [6].
    for i in 1..7u8 {
        // ts = 1: value = []
        put(engine, &[i], &[], 1, 1);
        // ts = 7: value = [ts]
        put(engine, &[i], &[i], 7, 7);
        // ts = 14: value = []
        put(engine, &[i], &[], 14, 14);
    }

    // Test both bound specified.
    let mut scanner = kv_scanner(engine, 10, Some(vec![3u8]), Some(vec![5u8]));
    assert_eq!(scanner.read_next().unwrap(), Some((vec![3u8], vec![3u8])));
    assert_eq!(scanner.read_next().unwrap(), Some((vec![4u8], vec![4u8])));
    assert_eq!(scanner.read_next().unwrap(), None);

    // Test left bound not specified.
    let mut scanner = kv_scanner(engine, 10, None, Some(vec![3u8]));
    assert_eq!(scanner.read_next().unwrap(), Some((vec![1u8], vec![1u8])));
    assert_eq!(scanner.read_next().unwrap(), Some((vec![2u8], vec![2u8])));
    assert_eq!(scanner.read_next().unwrap(), None);

    // Test right bound not specified.
    let mut scanner = kv_scanner(engine, 10, Some(vec![5u8]), None);
    assert_eq!(scanner.read_next().unwrap(), Some((vec![5u8], vec![5u8])));
    assert_eq!(scanner.read_next().unwrap(), Some((vec![6u8], vec![6u8])));
    assert_eq!(scanner.read_next().unwrap(), None);

    // Test both bound not specified.
    let mut scanner = kv_scanner(engine, 10, None, None);
    for i in 1..7u8 {
        assert_eq!(scanner.read_next().unwrap(), Some((vec![i], vec![i])));
    }
    assert_eq!(scanner.read_next().unwrap(), None);
}

#[test]
fn test_output_delete_and_after_ts() {
    let engine = &mut Snapshot::new();

    // Generate put for [a] at 3.
    put(engine, b"a", b"a_3", 3, 3);
    // Generate put for [a] at 7.
    put(engine, b"a", b"a_7", 7, 7);
    // Generate put for [b] at 1.
    put(engine, b"b", b"b_1", 1, 1);
    // Generate rollbacks for [b] at 2, 3, 4.
    for ts in 2..5 {
        let mut txn = MvccTxn::new(ts, 0);
        txn.collapse_rollback(false);
        txn.rollback(engine, b"b".to_vec()).unwrap();
        engine.write_modifies(txn.into_modifies());
    }
    // Generate delete for [b] at 10.
    delete(engine, b"b", 10, 10);

    // (key, start_ts, commit_ts, value); a delete has no value.
    type Expected = (&'static [u8], u64, u64, Option<&'static [u8]>);
    let entry_a_3: Expected = (b"a", 3, 3, Some(b"a_3"));
    let entry_a_7: Expected = (b"a", 7, 7, Some(b"a_7"));
    let entry_b_1: Expected = (b"b", 1, 1, Some(b"b_1"));
    let entry_b_10: Expected = (b"b", 10, 10, None);

    let check = |ts: u64, after_ts: u64, output_delete: bool, expected: Vec<Expected>| {
        let mut scanner = ForwardScanner::new(engine, ts, vec![], None, IsolationLevel::Si, vec![], false);
        let policy = LatestEntryPolicy::new(after_ts, output_delete);
        for (key, start_ts, commit_ts, value) in expected {
            let e = scanner.read_next_entry(&policy).unwrap().unwrap();
            assert_eq!(e.key, key.to_vec());
            assert_eq!(e.write.start_ts, start_ts);
            assert_eq!(e.commit_ts, commit_ts);
            assert_eq!(e.value, value.map(|v| v.to_vec()));
        }
        assert!(scanner.read_next_entry(&policy).unwrap().is_none());
    };

    // Scanning entries in (10, 15] should get None
    check(15, 10, true, vec![]);
    // Scanning entries without delete in (7, 10] should get None
    check(10, 7, false, vec![]);
    // Scanning entries include delete in (7, 10] should get entry_b_10
    check(10, 7, true, vec![entry_b_10]);
    // Scanning entries include delete in (3, 10] should get a_7 and b_10
    check(10, 3, true, vec![entry_a_7, entry_b_10]);
    // Scanning entries in (0, 5] should get a_3 and b_1
    check(5, 0, true, vec![entry_a_3, entry_b_1]);
    // Scanning entries without delete in (0, 10] should get a_7
    check(10, 0, false, vec![entry_a_7]);
}

#[test]
fn delta_entries_by_key() {
    let engine = &mut Snapshot::new();
    put(engine, b"a", b"a_3", 3, 3);
    put(engine, b"a", b"a_7", 7, 7);
    put(engine, b"b", b"b_1", 1, 1);
    for ts in 2..5 {
        let mut txn = MvccTxn::new(ts, 0);
        txn.collapse_rollback(false);
        txn.rollback(engine, b"b".to_vec()).unwrap();
        engine.write_modifies(txn.into_modifies());
    }
    delete(engine, b"b", 10, 10);
    // An outstanding put at 12.
    put(engine, b"c", b"c_12", 12, 0);

    let commits = |es: &Vec<DeltaEntry>| -> Vec<(Vec<u8>, u64, Option<Vec<u8>>)> {
        es.iter()
            .map(|e| match e {
                DeltaEntry::Commit { key, commit_ts, value, .. } => (key.clone(), *commit_ts, value.clone()),
                DeltaEntry::Prewrite { key, lock, value, .. } => (key.clone(), lock.ts, value.clone()),
            })
            .collect()
    };

    let policy = DeltaEntryPolicy::new(2, false);
    let mut s = ForwardScanner::new(engine, 10, vec![], None, IsolationLevel::Si, vec![], false);
    let a = s.read_next_delta(&policy).unwrap().unwrap();
    assert_eq!(commits(&a), vec![(b"a".to_vec(), 7, Some(b"a_7".to_vec())), (b"a".to_vec(), 3, Some(b"a_3".to_vec()))]);
    let b = s.read_next_delta(&policy).unwrap().unwrap();
    assert_eq!(commits(&b), vec![(b"b".to_vec(), 10, None)]);
    // The lock on c is above the scan timestamp.
    assert!(s.read_next_delta(&policy).unwrap().is_none());

    let mut s = ForwardScanner::new(engine, 15, b"c".to_vec(), None, IsolationLevel::Si, vec![], false);
    let c = s.read_next_delta(&DeltaEntryPolicy::new(0, false)).unwrap().unwrap();
    assert_eq!(c.len(), 1);
    assert!(matches!(&c[0], DeltaEntry::Prewrite { lock, .. } if lock.ts == 12));
    assert_eq!(commits(&c), vec![(b"c".to_vec(), 12, None)]);
}

#[test]
fn delta_entries_with_old_values() {
    let engine = &mut Snapshot::new();
    put(engine, b"a", b"a_3", 3, 3);
    put(engine, b"a", b"a_7", 7, 7);
    put(engine, b"a", b"a_12", 12, 0);
    let mut s = ForwardScanner::new(engine, 20, vec![], None, IsolationLevel::Si, vec![], false);
    let es = s.read_next_delta(&DeltaEntryPolicy::new(0, true)).unwrap().unwrap();
    assert_eq!(es.len(), 3);
    match &es[0] {
        DeltaEntry::Prewrite { lock, old_value, .. } => {
            assert_eq!(lock.ts, 12);
            assert_eq!(old_value.clone(), Some(b"a_7".to_vec()));
        }
        _ => panic!("expected the lock first"),
    }
    match &es[1] {
        DeltaEntry::Commit { commit_ts, old_value, .. } => {
            assert_eq!(*commit_ts, 7);
            assert_eq!(old_value.clone(), Some(b"a_3".to_vec()));
        }
        _ => panic!("expected a commit"),
    }
    match &es[2] {
        DeltaEntry::Commit { commit_ts, old_value, .. } => {
            assert_eq!(*commit_ts, 3);
            assert!(old_value.is_none());
        }
        _ => panic!("expected a commit"),
    }
}

#[test]
fn scan_reports_missing_value() {
    let engine = &mut Snapshot::new();
    put(engine, b"a", b"a_1", 1, 2);
    put(engine, b"b", &vec![7u8; 300], 1, 2);
    // Drop the long value of b from the default family.
    engine.values.delete(&b"b".to_vec(), 1);
    let mut s = ForwardScanner::new(engine, 5, vec![], None, IsolationLevel::Si, vec![], false);
    assert_eq!(s.read_next().unwrap().unwrap().0, b"a".to_vec());
    match s.read_next() {
        Err(MvccError::DefaultNotFound { key, start_ts }) => {
            assert_eq!(key, b"b".to_vec());
            assert_eq!(start_ts, 1);
        }
        _ => panic!("expected DefaultNotFound"),
    }
    assert!(s.read_next().unwrap().is_none());
}
