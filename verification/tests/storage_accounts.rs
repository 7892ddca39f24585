use nusantara::digest::Digest;
use nusantara::ledger::Account;
use nusantara::storage::memory::MemoryDatabase;
use nusantara::storage::store::Storage;
use nusantara::storage::write_batch::StorageWriteBatch;

/// A digest that tells labels apart.
fn hash(label: &[u8]) -> Digest {
    let mut bytes = [0u8; 64];
    for (i, b) in bytes.iter_mut().enumerate() {
        let mut acc = 131u32.wrapping_add(i as u32 * 2_654_435_761);
        for (j, &x) in label.iter().enumerate() {
            acc = acc.rotate_left(5).wrapping_mul(16_777_619) ^ (x as u32 + j as u32);
        }
        *b = (acc ^ (acc >> 8) ^ (acc >> 16) ^ (acc >> 24)) as u8;
    }
    Digest::new(bytes)
}

fn temp_storage() -> Storage<MemoryDatabase> {
    Storage::new(MemoryDatabase::new())
}

fn test_account(lamports: u64) -> Account {
    let owner = hash(b"system");
    Account::new(lamports, owner)
}

#[test]
fn put_and_get_account() {
    let mut storage = temp_storage();
    let addr = hash(b"alice");
    let account = test_account(1000);

    storage.put_account(&addr, 1, &account).unwrap();
    let loaded = storage.get_account(&addr).unwrap().unwrap();
    assert_eq!(loaded, account);
}

#[test]
fn get_missing_account() {
    let storage = temp_storage();
    let addr = hash(b"nonexistent");
    assert_eq!(storage.get_account(&addr).unwrap(), None);
}

#[test]
fn get_account_at_slot() {
    let mut storage = temp_storage();
    let addr = hash(b"bob");
    let acc1 = test_account(100);
    let acc2 = test_account(200);

    storage.put_account(&addr, 1, &acc1).unwrap();
    storage.put_account(&addr, 5, &acc2).unwrap();

    // Latest should be slot 5
    let latest = storage.get_account(&addr).unwrap().unwrap();
    assert_eq!(latest.lamports, 200);

    // Historical at slot 1
    let hist = storage.get_account_at_slot(&addr, 1).unwrap().unwrap();
    assert_eq!(hist.lamports, 100);

    // Missing slot
    assert_eq!(storage.get_account_at_slot(&addr, 3).unwrap(), None);
}

#[test]
fn account_history() {
    let mut storage = temp_storage();
    let addr = hash(b"carol");

    for slot in [1, 3, 5, 7, 9] {
        storage
            .put_account(&addr, slot, &test_account(slot * 100))
            .unwrap();
    }

    let history = storage.get_account_history(&addr, 3).unwrap();
    assert_eq!(history.len(), 3);
    // Most recent first
    assert_eq!(history[0].0, 9);
    assert_eq!(history[0].1.lamports, 900);
    assert_eq!(history[1].0, 7);
    assert_eq!(history[2].0, 5);
}

#[test]
fn account_history_limit() {
    let mut storage = temp_storage();
    let addr = hash(b"dave");

    for slot in 1..=10 {
        storage
            .put_account(&addr, slot, &test_account(slot))
            .unwrap();
    }

    let all = storage.get_account_history(&addr, 100).unwrap();
    assert_eq!(all.len(), 10);

    let limited = storage.get_account_history(&addr, 2).unwrap();
    assert_eq!(limited.len(), 2);
}

#[test]
fn write_account_to_batch_returns_result() {
    // Verify that write_account_to_batch returns Result instead of panicking.
    // A valid account should produce Ok(()), confirming the error-returning
    // signature is properly wired through all callers.
    let mut batch = StorageWriteBatch::new();
    let addr = hash(b"result_test");
    let account = test_account(500);

    let result =
        Storage::<MemoryDatabase>::append_account_write_with_old(&mut batch, &addr, 1, &account, None);
    assert!(result.is_ok(), "valid account serialization should return Ok");

    // Verify the batch actually has entries (the write was performed)
    assert!(!batch.is_empty());
}

#[test]
fn multiple_accounts_isolated() {
    let mut storage = temp_storage();
    let addr1 = hash(b"user1");
    let addr2 = hash(b"user2");

    storage.put_account(&addr1, 1, &test_account(100)).unwrap();
    storage.put_account(&addr2, 1, &test_account(200)).unwrap();

    let acc1 = storage.get_account(&addr1).unwrap().unwrap();
    let acc2 = storage.get_account(&addr2).unwrap().unwrap();
    assert_eq!(acc1.lamports, 100);
    assert_eq!(acc2.lamports, 200);

    // History should be isolated
    let hist1 = storage.get_account_history(&addr1, 10).unwrap();
    assert_eq!(hist1.len(), 1);
}

#[test]
fn account_versioning_latest_pointer_updates() {
    let mut storage = temp_storage();
    let addr = hash(b"alice");

    // Store three versions at different slots
    storage.put_account(&addr, 1, &test_account(100)).unwrap();
    assert_eq!(storage.get_account(&addr).unwrap().unwrap().lamports, 100);

    storage.put_account(&addr, 5, &test_account(500)).unwrap();
    assert_eq!(storage.get_account(&addr).unwrap().unwrap().lamports, 500);

    storage.put_account(&addr, 10, &test_account(1000)).unwrap();
    assert_eq!(storage.get_account(&addr).unwrap().unwrap().lamports, 1000);

    // All historical versions still accessible
    assert_eq!(
        storage.get_account_at_slot(&addr, 1).unwrap().unwrap().lamports,
        100
    );
    assert_eq!(
        storage.get_account_at_slot(&addr, 5).unwrap().unwrap().lamports,
        500
    );
    assert_eq!(
        storage.get_account_at_slot(&addr, 10).unwrap().unwrap().lamports,
        1000
    );
}

#[test]
fn account_history_returns_descending_order() {
    let mut storage = temp_storage();
    let addr = hash(b"bob");

    let slots = [2, 7, 3, 10, 1, 8];
    for &slot in &slots {
        storage
            .put_account(&addr, slot, &test_account(slot * 100))
            .unwrap();
    }

    let history = storage.get_account_history(&addr, 100).unwrap();
    assert_eq!(history.len(), slots.len());

    // Must be descending by slot
    for window in history.windows(2) {
        assert!(window[0].0 > window[1].0, "history not descending");
    }
}

#[test]
fn many_accounts_isolated_history() {
    let mut storage = temp_storage();

    // Create 20 accounts with 5 versions each
    let addrs: Vec<_> = (0..20).map(|i| hash(format!("user_{i}").as_bytes())).collect();
    for (i, addr) in addrs.iter().enumerate() {
        for slot in 1..=5 {
            let lamports = (i as u64 + 1) * 1000 + slot;
            storage
                .put_account(addr, slot, &test_account(lamports))
                .unwrap();
        }
    }

    // Each account's history should contain exactly 5 entries
    for (i, addr) in addrs.iter().enumerate() {
        let history = storage.get_account_history(addr, 100).unwrap();
        assert_eq!(history.len(), 5, "account {i} has wrong history length");

        // Latest should reflect slot 5
        let latest = storage.get_account(addr).unwrap().unwrap();
        assert_eq!(latest.lamports, (i as u64 + 1) * 1000 + 5);
    }
}

#[test]
fn account_overwrite_at_same_slot() {
    let mut storage = temp_storage();
    let addr = hash(b"carol");

    storage.put_account(&addr, 1, &test_account(100)).unwrap();
    storage.put_account(&addr, 1, &test_account(200)).unwrap();

    // Should reflect the overwritten value
    let loaded = storage.get_account_at_slot(&addr, 1).unwrap().unwrap();
    assert_eq!(loaded.lamports, 200);

    // History should have 1 entry (same key overwritten)
    let history = storage.get_account_history(&addr, 100).unwrap();
    assert_eq!(history.len(), 1);
}

#[test]
fn account_persistence_across_reopen() {
    let addr = hash(b"persist");

    let mut storage = temp_storage();
    storage
        .put_account(&addr, 1, &test_account(42))
        .unwrap();
    storage
        .put_account(&addr, 5, &test_account(99))
        .unwrap();

    // Reopen
    let storage = Storage::new(storage.db);
    let latest = storage.get_account(&addr).unwrap().unwrap();
    assert_eq!(latest.lamports, 99);

    let at_1 = storage.get_account_at_slot(&addr, 1).unwrap().unwrap();
    assert_eq!(at_1.lamports, 42);

    let history = storage.get_account_history(&addr, 10).unwrap();
    assert_eq!(history.len(), 2);
}

#[test]
fn account_history_with_limit_one() {
    let mut storage = temp_storage();
    let addr = hash(b"limited");

    for slot in 1..=5 {
        storage.put_account(&addr, slot, &test_account(slot * 100)).unwrap();
    }
    let history = storage.get_account_history(&addr, 1).unwrap();
    assert_eq!(history.len(), 1);
    assert_eq!(history[0].0, 5); // most recent slot
}

#[test]
fn nonexistent_account_returns_none() {
    let storage = temp_storage();
    let addr = hash(b"ghost");

    assert!(storage.get_account(&addr).unwrap().is_none());
    assert!(storage.get_account_at_slot(&addr, 42).unwrap().is_none());
    assert!(storage.get_account_history(&addr, 10).unwrap().is_empty());
}

fn make_account(lamports: u64, owner: Digest) -> Account {
    Account::new(lamports, owner)
}

#[test]
fn index_created_on_put_account() {
    let mut storage = temp_storage();
    let owner = hash(b"system");
    let addr = hash(b"alice");
    let account = make_account(1000, owner);

    storage.put_account(&addr, 1, &account).unwrap();

    let by_owner = storage.get_accounts_by_owner(&owner, None).unwrap();
    assert_eq!(by_owner.len(), 1);
    assert_eq!(by_owner[0].0, addr);
    assert_eq!(by_owner[0].1.lamports, 1000);
}

#[test]
fn owner_change_removes_old_index() {
    let mut storage = temp_storage();
    let owner_a = hash(b"program_a");
    let owner_b = hash(b"program_b");
    let addr = hash(b"bob");

    let acc_a = make_account(500, owner_a);
    storage.put_account(&addr, 1, &acc_a).unwrap();

    // Should be under owner_a
    assert_eq!(
        storage.get_accounts_by_owner(&owner_a, None).unwrap().len(),
        1
    );
    assert!(storage.get_accounts_by_owner(&owner_b, None).unwrap().is_empty());

    // Change owner to owner_b
    let acc_b = make_account(500, owner_b);
    storage.put_account(&addr, 2, &acc_b).unwrap();

    // Now should be under owner_b, not owner_a
    assert!(storage.get_accounts_by_owner(&owner_a, None).unwrap().is_empty());
    assert_eq!(
        storage.get_accounts_by_owner(&owner_b, None).unwrap().len(),
        1
    );
}

#[test]
fn multiple_accounts_same_owner() {
    let mut storage = temp_storage();
    let owner = hash(b"token_program");
    let addrs: Vec<Digest> = (0..5).map(|i| hash(format!("acc_{i}").as_bytes())).collect();

    for (i, addr) in addrs.iter().enumerate() {
        let account = make_account((i as u64 + 1) * 100, owner);
        storage.put_account(addr, 1, &account).unwrap();
    }

    let results = storage.get_accounts_by_owner(&owner, None).unwrap();
    assert_eq!(results.len(), 5);

    // All returned addresses should be in our set
    for (returned_addr, _) in &results {
        assert!(addrs.contains(returned_addr));
    }
}

#[test]
fn pagination_limit_works() {
    let mut storage = temp_storage();
    let owner = hash(b"owner");

    for i in 0..10 {
        let addr = hash(format!("addr_{i}").as_bytes());
        let account = make_account(100, owner);
        storage.put_account(&addr, 1, &account).unwrap();
    }

    let limited = storage.get_accounts_by_owner(&owner, Some(3)).unwrap();
    assert_eq!(limited.len(), 3);

    let all = storage.get_accounts_by_owner(&owner, None).unwrap();
    assert_eq!(all.len(), 10);
}

#[test]
fn empty_result_for_unknown_owner() {
    let storage = temp_storage();
    let unknown = hash(b"nonexistent_owner");
    let results = storage.get_accounts_by_owner(&unknown, None).unwrap();
    assert!(results.is_empty());
}

#[test]
fn program_index_mirrors_owner_index() {
    let mut storage = temp_storage();
    let program = hash(b"my_program");
    let addr = hash(b"data_account");
    let account = make_account(999, program);

    storage.put_account(&addr, 1, &account).unwrap();

    let by_program = storage.get_accounts_by_program(&program, None).unwrap();
    assert_eq!(by_program.len(), 1);
    assert_eq!(by_program[0].0, addr);
    assert_eq!(by_program[0].1.lamports, 999);
}

#[test]
fn remove_account_indexes_clears_both() {
    let mut storage = temp_storage();
    let owner = hash(b"owner");
    let addr = hash(b"acct");
    let account = make_account(100, owner);

    storage.put_account(&addr, 1, &account).unwrap();
    assert_eq!(
        storage.get_accounts_by_owner(&owner, None).unwrap().len(),
        1
    );

    storage.remove_account_indexes(&addr, &account).unwrap();
    assert!(storage.get_accounts_by_owner(&owner, None).unwrap().is_empty());
    assert!(storage.get_accounts_by_program(&owner, None).unwrap().is_empty());
}

#[test]
fn same_owner_update_does_not_duplicate() {
    let mut storage = temp_storage();
    let owner = hash(b"system");
    let addr = hash(b"stable");

    let acc1 = make_account(100, owner);
    storage.put_account(&addr, 1, &acc1).unwrap();

    // Update same account, same owner, different lamports
    let acc2 = make_account(200, owner);
    storage.put_account(&addr, 2, &acc2).unwrap();

    let results = storage.get_accounts_by_owner(&owner, None).unwrap();
    assert_eq!(results.len(), 1);
    assert_eq!(results[0].1.lamports, 200);
}

#[test]
fn program_index_limit() {
    let mut storage = temp_storage();
    let program = hash(b"prog");

    for i in 0..8 {
        let addr = hash(format!("p_acc_{i}").as_bytes());
        storage
            .put_account(&addr, 1, &make_account(100, program))
            .unwrap();
    }

    let limited = storage.get_accounts_by_program(&program, Some(4)).unwrap();
    assert_eq!(limited.len(), 4);
}
