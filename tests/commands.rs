use mvcc::commands::{Prewrite, PrewritePessimistic};
use mvcc::errors::MvccError;
use mvcc::store::Snapshot;
use mvcc::txn::MvccTxn;
use mvcc::types::Mutation;

const FORWARD_MIN_MUTATIONS_NUM: usize = 12;

fn prewrite(engine: &mut Snapshot, mutations: Vec<Mutation>, primary: Vec<u8>, start_ts: u64) -> Result<(), MvccError> {
    let cmd = Prewrite::with_defaults(mutations, primary, start_ts);
    let ret = cmd.process_write(engine, start_ts, true, true)?;
    if !ret.locks.is_empty() {
        return Err(MvccError::KeyIsLocked(ret.locks.into_iter().next().unwrap()));
    }
    engine.write_modifies(ret.modifies);
    Ok(())
}

fn commit(engine: &mut Snapshot, keys: Vec<Vec<u8>>, start_ts: u64, commit_ts: u64) -> Result<(), MvccError> {
    let mut txn = MvccTxn::new(start_ts, 0);
    for k in keys {
        txn.commit(engine, k, commit_ts)?;
    }
    engine.write_modifies(txn.into_modifies());
    Ok(())
}

fn inner_test_prewrite_skip_constraint_check(pri_key_number: u8, write_num: usize) {
    let mut mutations = Vec::default();
    let pri_key = &[pri_key_number];
    for i in 0..write_num {
        mutations.push(Mutation::Insert { key: vec![i as u8], value: b"100".to_vec() });
    }
    let engine = &mut Snapshot::new();
    prewrite(engine, vec![Mutation::Put { key: vec![pri_key_number], value: b"100".to_vec() }], pri_key.to_vec(), 99)
        .unwrap();
    let clone = |ms: &Vec<Mutation>| -> Vec<Mutation> {
        ms.iter()
            .map(|m| match m {
                Mutation::Insert { key, value } => Mutation::Insert { key: key.clone(), value: value.clone() },
                _ => unreachable!(),
            })
            .collect()
    };
    let e = prewrite(engine, clone(&mutations), pri_key.to_vec(), 100).err().unwrap();
    match e {
        MvccError::KeyIsLocked(_) => (),
        _ => panic!("error type not match"),
    }
    commit(engine, vec![vec![pri_key_number]], 99, 102).unwrap();
    let e = prewrite(engine, clone(&mutations), pri_key.to_vec(), 101).err().unwrap();
    match e {
        MvccError::WriteConflict { .. } => (),
        _ => panic!("error type not match"),
    }
    let e = prewrite(engine, clone(&mutations), pri_key.to_vec(), 104).err().unwrap();
    match e {
        MvccError::AlreadyExist { .. } => (),
        _ => panic!("error type not match"),
    }

    engine.writes.delete(&vec![pri_key_number], 102);
    prewrite(engine, clone(&mutations), pri_key.to_vec(), 104).unwrap();
    let keys: Vec<Vec<u8>> = (0..write_num).map(|i| vec![i as u8]).collect();
    commit(engine, keys.clone(), 104, 105).unwrap();
    for k in keys {
        assert!(engine.writes.get(&k, 105).is_some());
    }
}

#[test]
fn test_prewrite_skip_constraint_check() {
    inner_test_prewrite_skip_constraint_check(0, FORWARD_MIN_MUTATIONS_NUM + 1);
    inner_test_prewrite_skip_constraint_check(5, FORWARD_MIN_MUTATIONS_NUM + 1);
    inner_test_prewrite_skip_constraint_check(FORWARD_MIN_MUTATIONS_NUM as u8, FORWARD_MIN_MUTATIONS_NUM + 1);
}

#[test]
fn prewrite_command_async_commit() {
    let engine = &mut Snapshot::new();
    let mut cmd = Prewrite::with_defaults(
        vec![
            Mutation::Put { key: b"p".to_vec(), value: b"1".to_vec() },
            Mutation::Put { key: b"s".to_vec(), value: b"2".to_vec() },
        ],
        b"p".to_vec(),
        10,
    );
    cmd.secondary_keys = Some(vec![b"s".to_vec()]);
    let ret = cmd.process_write(engine, 50, true, true).unwrap();
    assert_eq!(ret.min_commit_ts, 51);
    assert_eq!(ret.guards.len(), 2);
    engine.write_modifies(ret.modifies);
    assert_eq!(engine.load_lock(&b"p".to_vec()).unwrap().secondaries, vec![b"s".to_vec()]);
    assert!(engine.load_lock(&b"s".to_vec()).unwrap().secondaries.is_empty());

    let mut cmd = Prewrite::with_defaults(vec![Mutation::Put { key: b"q".to_vec(), value: b"1".to_vec() }], b"q".to_vec(), 20);
    cmd.secondary_keys = Some(vec![]);
    match cmd.process_write(engine, 50, false, true) {
        Err(MvccError::MaxTimestampNotSynced { start_ts }) => assert_eq!(start_ts, 20),
        _ => panic!("expected MaxTimestampNotSynced"),
    }
}

#[test]
fn pessimistic_prewrite_command() {
    let engine = &mut Snapshot::new();
    let mut txn = MvccTxn::new(10, 0);
    txn.acquire_pessimistic_lock(engine, b"k".to_vec(), &b"k".to_vec(), false, 0, 10, false, 0).unwrap();
    engine.write_modifies(txn.into_modifies());
    let cmd = PrewritePessimistic {
        mutations: vec![(Mutation::Put { key: b"k".to_vec(), value: b"v".to_vec() }, true)],
        primary: b"k".to_vec(),
        start_ts: 10,
        lock_ttl: 0,
        for_update_ts: 10,
        txn_size: 0,
        min_commit_ts: 0,
        secondary_keys: None,
    };
    let ret = cmd.process_write(engine, 0, true, true, false).unwrap();
    assert!(ret.locks.is_empty());
    engine.write_modifies(ret.modifies);
    let lock = engine.load_lock(&b"k".to_vec()).unwrap();
    assert_eq!(lock.lock_type, mvcc::types::LockType::Put);
}
