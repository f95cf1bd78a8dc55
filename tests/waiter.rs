use mvcc::waiter::{WaitLock, WaitResult, WaitTable, WaitTimeout, Waiter, WaiterManager};

fn dummy_waiter(start_ts: u64, lock_ts: u64, hash: u64) -> Waiter {
    Waiter { start_ts, lock: WaitLock { ts: lock_ts, hash }, deadline: 0, result: WaitResult::KeyIsLocked }
}

/// A small deterministic generator standing in for random input.
struct Lcg(u64);

impl Lcg {
    fn gen(&mut self) -> u64 {
        self.0 = self.0.wrapping_mul(6364136223846793005).wrapping_add(1442695040888963407);
        self.0 >> 11
    }
}

#[test]
fn test_wait_Block_add_and_remove() {
    let mut wait_table = WaitTable::new();
    let mut waiter_info = Vec::new();
    let mut rng = Lcg(42);
    for _ in 0..20 {
        let waiter_ts = rng.gen();
        let lock = WaitLock { ts: rng.gen(), hash: rng.gen() };
        // Avoid adding duplicated waiter.
        if wait_table.add_waiter(dummy_waiter(waiter_ts, lock.ts, lock.hash)).is_none() {
            waiter_info.push((waiter_ts, lock));
        }
    }
    assert_eq!(wait_table.count(), waiter_info.len());

    for (waiter_ts, lock) in waiter_info {
        let waiter = wait_table.remove_waiter(lock, waiter_ts).unwrap();
        assert_eq!(waiter.start_ts, waiter_ts);
        assert_eq!(waiter.lock, lock);
    }
    assert_eq!(wait_table.count(), 0);
    assert!(wait_table.is_empty());
    assert!(wait_table.remove_waiter(WaitLock { ts: 0, hash: 0 }, 0).is_none());
}

#[test]
fn test_wait_Block_add_duplicated_waiter() {
    let mut wait_table = WaitTable::new();
    let waiter_ts = 10;
    let lock = WaitLock { ts: 20, hash: 20 };
    assert!(wait_table.add_waiter(dummy_waiter(waiter_ts, lock.ts, lock.hash)).is_none());
    let waiter = wait_table.add_waiter(dummy_waiter(waiter_ts, lock.ts, lock.hash)).unwrap();
    assert_eq!(waiter.start_ts, waiter_ts);
    assert_eq!(waiter.lock, lock);
}

#[test]
fn test_wait_Block_remove_oldest_waiter() {
    let mut wait_table = WaitTable::new();
    let lock = WaitLock { ts: 10, hash: 10 };
    let waiter_count = 10;
    let mut waiters_ts: Vec<u64> = vec![3, 7, 0, 9, 1, 5, 8, 2, 6, 4];
    for ts in waiters_ts.iter() {
        wait_table.add_waiter(dummy_waiter(*ts, lock.ts, lock.hash));
    }
    assert_eq!(wait_table.count(), waiters_ts.len());
    waiters_ts.sort();
    for (i, ts) in waiters_ts.into_iter().enumerate() {
        let oldest = wait_table.remove_oldest_waiter(lock).unwrap();
        assert_eq!(oldest.start_ts, ts);
        assert_eq!(wait_table.count(), waiter_count - i - 1);
    }
    assert_eq!(wait_table.count(), 0);
    assert!(wait_table.is_empty());
}

#[test]
fn test_wait_Block_is_empty() {
    let mut wait_table = WaitTable::new();
    let lock = WaitLock { ts: 2, hash: 2 };

    wait_table.add_waiter(dummy_waiter(1, lock.ts, lock.hash));
    assert_eq!(wait_table.count(), 1);
    // Adding a duplicated waiter shouldn't increase the count.
    wait_table.add_waiter(dummy_waiter(1, lock.ts, lock.hash));
    assert_eq!(wait_table.count(), 1);
    // Remove the waiter.
    wait_table.remove_waiter(lock, 1).unwrap();
    assert_eq!(wait_table.count(), 0);
    // Removing a non-existed waiter shouldn't decrease the count.
    assert!(wait_table.remove_waiter(lock, 1).is_none());
    assert_eq!(wait_table.count(), 0);

    wait_table.add_waiter(dummy_waiter(1, lock.ts, lock.hash));
    wait_table.add_waiter(dummy_waiter(2, lock.ts, lock.hash));
    wait_table.remove_oldest_waiter(lock).unwrap();
    assert_eq!(wait_table.count(), 1);
    wait_table.remove_oldest_waiter(lock).unwrap();
    assert_eq!(wait_table.count(), 0);
    assert!(wait_table.is_empty());
    assert!(wait_table.remove_oldest_waiter(lock).is_none());
    assert_eq!(wait_table.count(), 0);
}

#[test]
fn test_wait_Block_to_wait_for_entries() {
    let mut wait_table = WaitTable::new();
    assert!(wait_table.to_wait_for_entries().is_empty());

    for i in 1..5u64 {
        for j in 0..i {
            wait_table.add_waiter(dummy_waiter(i * 10 + j, i, j));
        }
    }

    let mut entries = wait_table.to_wait_for_entries();
    entries.sort_by_key(|e| e.txn);
    entries.reverse();
    for i in 1..5u64 {
        for j in 0..i {
            let e = entries.pop().unwrap();
            assert_eq!(e.txn, i * 10 + j);
            assert_eq!(e.wait_for_txn, i);
            assert_eq!(e.key_hash, j);
        }
    }
    assert!(entries.is_empty());
}

#[test]
fn test_waiter_manager_timeout() {
    let mut mgr = WaiterManager::new(1000, 100);
    let lock = WaitLock { ts: 20, hash: 20 };
    // The timeout is bounded by the configured maximum.
    assert!(mgr.handle_wait_for(10, lock, WaitTimeout::Millis(5000), 0).is_none());
    assert_eq!(mgr.wait_table.remove_waiter(lock, 10).unwrap().deadline, 1000);
    mgr.handle_wait_for(10, lock, WaitTimeout::Millis(50), 0);
    assert!(mgr.handle_timeouts(49).is_empty());
    let expired = mgr.handle_timeouts(50);
    assert_eq!(expired.len(), 1);
    assert_eq!(expired[0].result, WaitResult::KeyIsLocked);
    assert!(mgr.wait_table.is_empty());
}

#[test]
fn test_waiter_manager_wake_up() {
    // Two waiters on lock {ts: 10, hash: H}; waking it up with commit 15 notifies
    // the older at once and delays the other.
    let mut mgr = WaiterManager::new(3000, 100);
    let h = 77;
    let lock = WaitLock { ts: 10, hash: h };
    mgr.handle_wait_for(30, lock, WaitTimeout::Default, 0);
    mgr.handle_wait_for(20, lock, WaitTimeout::Default, 0);
    let notified = mgr.handle_wake_up(10, &vec![h], 15, 1000);
    assert_eq!(notified.len(), 1);
    assert_eq!(notified[0].start_ts, 20);
    assert_eq!(notified[0].result, WaitResult::WriteConflict { conflict_start_ts: 10, conflict_commit_ts: 15 });
    assert_eq!(mgr.wait_table.count(), 1);
    assert!(mgr.handle_timeouts(1099).is_empty());
    let later = mgr.handle_timeouts(1100);
    assert_eq!(later.len(), 1);
    assert_eq!(later[0].start_ts, 30);
    assert_eq!(later[0].result, WaitResult::WriteConflict { conflict_start_ts: 10, conflict_commit_ts: 15 });
}

#[test]
fn wake_up_keeps_earlier_deadline() {
    let mut mgr = WaiterManager::new(3000, 500);
    let lock = WaitLock { ts: 10, hash: 5 };
    mgr.handle_wait_for(1, lock, WaitTimeout::Millis(100), 0);
    mgr.handle_wait_for(2, lock, WaitTimeout::Millis(100), 0);
    let notified = mgr.handle_wake_up(10, &vec![5, 6], 12, 50);
    assert_eq!(notified.len(), 1);
    assert_eq!(notified[0].start_ts, 1);
    // The first deadline (100) comes before 50 + 500.
    assert_eq!(mgr.handle_timeouts(100).len(), 1);
}

#[test]
fn test_waiter_manager_deadlock() {
    let mut mgr = WaiterManager::new(1000, 100);
    let lock = WaitLock { ts: 20, hash: 20 };
    mgr.handle_wait_for(10, lock, WaitTimeout::Default, 0);
    let w = mgr.handle_deadlock(10, lock, 30).unwrap();
    assert_eq!(w.result, WaitResult::Deadlock { lock_ts: 20, deadlock_key_hash: 30 });
    assert!(mgr.wait_table.is_empty());
    assert!(mgr.handle_deadlock(10, lock, 30).is_none());
}

#[test]
fn test_waiter_manager_with_duplicated_waiters() {
    let mut mgr = WaiterManager::new(1000, 100);
    let lock = WaitLock { ts: 20, hash: 20 };
    assert!(mgr.handle_wait_for(10, lock, WaitTimeout::Default, 0).is_none());
    let old = mgr.handle_wait_for(10, lock, WaitTimeout::Default, 5).unwrap();
    assert_eq!(old.result, WaitResult::KeyIsLocked);
    assert_eq!(old.deadline, 1000);
    assert_eq!(mgr.wait_table.count(), 1);
}

#[test]
fn config_change_and_dump() {
    let mut mgr = WaiterManager::new(1000, 100);
    mgr.handle_config_change(Some(200), None);
    assert_eq!(mgr.default_wait_for_lock_timeout, 200);
    assert_eq!(mgr.wake_up_delay_duration, 100);
    mgr.handle_wait_for(3, WaitLock { ts: 1, hash: 9 }, WaitTimeout::Default, 10);
    let dump = mgr.handle_dump();
    assert_eq!(dump.len(), 1);
    assert_eq!((dump[0].txn, dump[0].wait_for_txn, dump[0].key_hash), (3, 1, 9));
    assert_eq!(WaitTimeout::Millis(50).into_duration_with_ceiling(20), 20);
}
