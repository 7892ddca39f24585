use nusantara::digest::Digest;
use nusantara::ledger::{Account, BlockHeader};
use nusantara::codec::to_vec;
use nusantara::storage::cf::{
    Cf, CF_ACCOUNTS, CF_ACCOUNT_INDEX, CF_BANK_HASHES, CF_DEFAULT, CF_ROOTS, CF_SYSVARS,
};
use nusantara::storage::keys::{account_key, address_sig_key, owner_index_key, shred_key, slot_key};
use nusantara::storage::memory::MemoryDatabase;
use nusantara::storage::shred::DataShred;
use nusantara::storage::slot_meta::SlotMeta;
use nusantara::storage::store::Storage;
use nusantara::storage::transaction::{TransactionStatus, TransactionStatusMeta};
use nusantara::storage::write_batch::StorageWriteBatch;
use nusantara::sysvar_program::clock::Clock;
use nusantara::sysvar_program::recent_blockhashes::RecentBlockhashes;

/// A digest that tells labels apart.
fn hash(label: &[u8]) -> Digest {
    let mut bytes = [0u8; 64];
    for (i, b) in bytes.iter_mut().enumerate() {
        let mut acc = 131u32.wrapping_add(i as u32 * 2_654_435_761);
        for (j, &x) in label.iter().enumerate() {
            acc = acc.rotate_left(5).wrapping_mul(16_777_619) ^ (x as u32 + j as u32);
        }
        *b = (acc ^ (acc >> 8) ^ (acc >> 16) ^ (acc >> 24)) as u8;
    }
    Digest::new(bytes)
}

fn temp_storage() -> Storage<MemoryDatabase> {
    Storage::new(MemoryDatabase::new())
}

#[test]
fn roots_track_finalized_slots() {
    let mut storage = temp_storage();

    // No roots initially
    assert!(storage.get_latest_root().unwrap().is_none());

    // Set roots in non-sequential order
    for slot in [5, 10, 3, 20, 15] {
        storage.set_root(slot).unwrap();
    }

    // All should be roots
    for slot in [5, 10, 3, 20, 15] {
        assert!(storage.is_root(slot).unwrap());
    }

    // Non-roots
    for slot in [1, 2, 4, 6, 7, 8, 9, 11, 50] {
        assert!(!storage.is_root(slot).unwrap());
    }

    // Latest root is the highest
    assert_eq!(storage.get_latest_root().unwrap(), Some(20));
}

#[test]
fn roots_idempotent() {
    let mut storage = temp_storage();

    storage.set_root(42).unwrap();
    storage.set_root(42).unwrap();
    storage.set_root(42).unwrap();

    assert!(storage.is_root(42).unwrap());
}

#[test]
fn bank_hashes_per_slot() {
    let mut storage = temp_storage();

    let slots_and_hashes: Vec<_> = (0..10)
        .map(|i| (i, hash(format!("bank_{i}").as_bytes())))
        .collect();

    for &(slot, ref h) in &slots_and_hashes {
        storage.put_bank_hash(slot, h).unwrap();
    }

    for &(slot, ref expected) in &slots_and_hashes {
        let loaded = storage.get_bank_hash(slot).unwrap().unwrap();
        assert_eq!(&loaded, expected);
    }

    // Missing slot
    assert!(storage.get_bank_hash(999).unwrap().is_none());
}

#[test]
fn slot_hashes_per_slot() {
    let mut storage = temp_storage();

    for slot in 0..10u64 {
        let h = hash(format!("slot_{slot}").as_bytes());
        storage.put_slot_hash(slot, &h).unwrap();
    }

    for slot in 0..10u64 {
        let expected = hash(format!("slot_{slot}").as_bytes());
        let loaded = storage.get_slot_hash(slot).unwrap().unwrap();
        assert_eq!(loaded, expected);
    }

    assert!(storage.get_slot_hash(999).unwrap().is_none());
}

fn seed_hash(seed: &Vec<u8>) -> Digest {
    hash(seed)
}

/// A variable is stored under the hash of its seed, and each type has its own.
#[test]
fn sysvars_are_kept_by_type() {
    let mut storage = temp_storage();
    let recent = RecentBlockhashes::new(vec![hash(b"block")]);
    let clock = Clock {
        slot: 7,
        epoch: 1,
        unix_timestamp: 2,
        leader_schedule_epoch: 3,
        epoch_start_timestamp: 4,
    };
    storage.put_sysvar(&clock, seed_hash).unwrap();
    assert!(storage.get_sysvar::<RecentBlockhashes, _>(seed_hash).unwrap().is_none());
    storage.put_sysvar(&recent, seed_hash).unwrap();
    assert_eq!(storage.get_sysvar::<Clock, _>(seed_hash).unwrap(), Some(clock));
    let row = storage.get_cf(CF_SYSVARS, hash(b"sysvar_clock").as_bytes()).unwrap();
    assert_eq!(row.map(|r| r.len()), Some(40));
    let row = storage.get_cf(CF_SYSVARS, hash(b"sysvar_recent_blockhashes").as_bytes()).unwrap();
    assert_eq!(row.map(|r| r.len()), Some(68));
}

#[test]
fn sysvar_store_and_retrieve() {
    let mut storage = temp_storage();

    let clock = Clock {
        slot: 100,
        epoch: 2,
        unix_timestamp: 1234567890,
        leader_schedule_epoch: 3,
        epoch_start_timestamp: 1234500000,
    };

    storage.put_sysvar(&clock, seed_hash).unwrap();
    let loaded: Clock = storage.get_sysvar::<Clock, _>(seed_hash).unwrap().unwrap();
    assert_eq!(loaded.slot, 100);
    assert_eq!(loaded.epoch, 2);
    assert_eq!(loaded.unix_timestamp, 1234567890);
}

#[test]
fn sysvar_update_overwrites() {
    let mut storage = temp_storage();

    let clock_v1 = Clock {
        slot: 1,
        epoch: 0,
        unix_timestamp: 1000,
        leader_schedule_epoch: 1,
        epoch_start_timestamp: 900,
    };
    storage.put_sysvar(&clock_v1, seed_hash).unwrap();

    let clock_v2 = Clock {
        slot: 500,
        epoch: 3,
        unix_timestamp: 5000,
        leader_schedule_epoch: 4,
        epoch_start_timestamp: 4900,
    };
    storage.put_sysvar(&clock_v2, seed_hash).unwrap();

    let loaded: Clock = storage.get_sysvar::<Clock, _>(seed_hash).unwrap().unwrap();
    assert_eq!(loaded.slot, 500);
    assert_eq!(loaded.epoch, 3);
}

#[test]
fn full_slot_lifecycle() {
    let mut storage = temp_storage();
    let slot = 42u64;

    // 1. Store block header
    let header = BlockHeader {
        slot,
        parent_slot: 41,
        parent_hash: hash(b"parent_41"),
        block_hash: hash(b"block_42"),
        timestamp: 1000,
        validator: hash(b"validator"),
        transaction_count: 3,
        merkle_root: hash(b"merkle_42"),
        poh_hash: Digest::zero(),
        bank_hash: Digest::zero(),
        state_root: Digest::zero(),
    };
    storage.put_block_header(&header).unwrap();

    // 2. Store slot meta
    let meta = SlotMeta {
        slot,
        parent_slot: 41,
        block_time: Some(1000),
        num_data_shreds: 10,
        num_code_shreds: 5,
        is_connected: true,
        completed: true,
    };
    storage.put_slot_meta(&meta).unwrap();

    // 3. Store bank hash
    let bank_hash = hash(b"bank_42");
    storage.put_bank_hash(slot, &bank_hash).unwrap();

    // 4. Store slot hash
    let slot_hash = hash(b"slot_42");
    storage.put_slot_hash(slot, &slot_hash).unwrap();

    // 5. Mark as root
    storage.set_root(slot).unwrap();

    // Verify all state is consistent
    assert_eq!(storage.get_block_header(slot).unwrap().unwrap(), header);
    assert_eq!(storage.get_slot_meta(slot).unwrap().unwrap(), meta);
    assert_eq!(storage.get_bank_hash(slot).unwrap().unwrap(), bank_hash);
    assert_eq!(storage.get_slot_hash(slot).unwrap().unwrap(), slot_hash);
    assert!(storage.is_root(slot).unwrap());
}

#[test]
fn persistence_across_reopen() {
    let mut storage = temp_storage();
    storage.set_root(10).unwrap();
    storage.set_root(20).unwrap();
    storage
        .put_bank_hash(10, &hash(b"bank_10"))
        .unwrap();
    storage
        .put_slot_hash(10, &hash(b"slot_10"))
        .unwrap();
    let clock = Clock {
        slot: 20,
        epoch: 1,
        unix_timestamp: 2000,
        leader_schedule_epoch: 2,
        epoch_start_timestamp: 1900,
    };
    storage.put_sysvar(&clock, seed_hash).unwrap();

    // Reopen and verify
    let storage = Storage::new(storage.db);
    assert!(storage.is_root(10).unwrap());
    assert!(storage.is_root(20).unwrap());
    assert!(!storage.is_root(15).unwrap());
    assert_eq!(storage.get_latest_root().unwrap(), Some(20));
    assert_eq!(
        storage.get_bank_hash(10).unwrap().unwrap(),
        hash(b"bank_10")
    );
    assert_eq!(
        storage.get_slot_hash(10).unwrap().unwrap(),
        hash(b"slot_10")
    );
    let clock: Clock = storage.get_sysvar::<Clock, _>(seed_hash).unwrap().unwrap();
    assert_eq!(clock.slot, 20);
}

#[test]
fn batch_multi_cf_atomic_write() {
    let mut storage = temp_storage();
    let addr = hash(b"alice");
    let account = Account::new(1000, hash(b"system"));

    // Use write batch to atomically write account + bank hash + root
    let mut batch = StorageWriteBatch::new();

    // Account entry
    let acc_key = {
        let mut k = [0u8; 72];
        k[..64].copy_from_slice(addr.as_bytes());
        k[64..].copy_from_slice(&1u64.to_be_bytes());
        k
    };
    let acc_value = to_vec(&account).unwrap();
    batch.put(CF_ACCOUNTS, acc_key.to_vec(), acc_value);

    // Account index
    batch.put(
        CF_ACCOUNT_INDEX,
        addr.as_bytes().to_vec(),
        1u64.to_be_bytes().to_vec(),
    );

    // Bank hash
    let bank_hash = hash(b"bank_1");
    batch.put(
        CF_BANK_HASHES,
        1u64.to_be_bytes().to_vec(),
        bank_hash.as_bytes().to_vec(),
    );

    // Root marker
    batch.put(CF_ROOTS, 1u64.to_be_bytes().to_vec(), vec![]);

    assert_eq!(batch.len(), 4);
    assert!(!batch.is_empty());

    storage.write(&batch).unwrap();

    // Verify all writes landed
    let loaded = storage.get_account(&addr).unwrap().unwrap();
    assert_eq!(loaded.lamports, 1000);
    assert_eq!(storage.get_bank_hash(1).unwrap().unwrap(), bank_hash);
    assert!(storage.is_root(1).unwrap());
}

#[test]
fn batch_put_and_delete_in_same_batch() {
    let mut storage = temp_storage();

    // Pre-populate
    storage.set_root(1).unwrap();
    storage.set_root(2).unwrap();

    // Batch: delete root 1, keep root 2, add root 3
    let mut batch = StorageWriteBatch::new();
    batch.delete(CF_ROOTS, 1u64.to_be_bytes().to_vec());
    batch.put(CF_ROOTS, 3u64.to_be_bytes().to_vec(), vec![]);
    storage.write(&batch).unwrap();

    assert!(!storage.is_root(1).unwrap()); // deleted
    assert!(storage.is_root(2).unwrap()); // untouched
    assert!(storage.is_root(3).unwrap()); // added
}

#[test]
fn empty_batch_is_noop() {
    let mut storage = temp_storage();
    let batch = StorageWriteBatch::new();
    assert!(batch.is_empty());
    assert_eq!(batch.len(), 0);
    storage.write(&batch).unwrap(); // should not fail
}

#[test]
fn large_batch() {
    let mut storage = temp_storage();

    let mut batch = StorageWriteBatch::new();
    for slot in 0..1000u64 {
        batch.put(CF_ROOTS, slot.to_be_bytes().to_vec(), vec![]);
    }
    assert_eq!(batch.len(), 1000);

    storage.write(&batch).unwrap();

    for slot in 0..1000u64 {
        assert!(storage.is_root(slot).unwrap());
    }
    assert!(!storage.is_root(1000).unwrap());
}

#[test]
fn default_batch_is_empty() {
    let batch = StorageWriteBatch::default();
    assert!(batch.is_empty());
    assert_eq!(batch.len(), 0);
}

#[test]
fn open_and_close() {
    let storage = temp_storage();
    // Re-open should succeed
    let _storage = Storage::new(storage.db);
}

#[test]
fn raw_put_get() {
    let mut storage = temp_storage();
    storage
        .put_cf(CF_DEFAULT, b"key1", b"value1")
        .unwrap();
    let val = storage.get_cf(CF_DEFAULT, b"key1").unwrap();
    assert_eq!(val, Some(b"value1".to_vec()));
}

#[test]
fn raw_get_missing() {
    let mut storage = temp_storage();
    let val = storage.get_cf(CF_DEFAULT, b"missing").unwrap();
    assert_eq!(val, None);
}

#[test]
fn raw_delete() {
    let mut storage = temp_storage();
    storage.put_cf(CF_DEFAULT, b"key", b"val").unwrap();
    storage.delete_cf(CF_DEFAULT, b"key").unwrap();
    let val = storage.get_cf(CF_DEFAULT, b"key").unwrap();
    assert_eq!(val, None);
}

#[test]
fn write_batch_atomic() {
    let mut storage = temp_storage();
    let mut batch = StorageWriteBatch::new();
    batch.put(CF_DEFAULT, b"k1".to_vec(), b"v1".to_vec());
    batch.put(CF_DEFAULT, b"k2".to_vec(), b"v2".to_vec());
    storage.write(&batch).unwrap();

    assert_eq!(
        storage.get_cf(CF_DEFAULT, b"k1").unwrap(),
        Some(b"v1".to_vec())
    );
    assert_eq!(
        storage.get_cf(CF_DEFAULT, b"k2").unwrap(),
        Some(b"v2".to_vec())
    );
}

#[test]
fn write_batch_with_delete() {
    let mut storage = temp_storage();
    storage.put_cf(CF_DEFAULT, b"del", b"val").unwrap();

    let mut batch = StorageWriteBatch::new();
    batch.delete(CF_DEFAULT, b"del".to_vec());
    batch.put(CF_DEFAULT, b"new".to_vec(), b"newval".to_vec());
    storage.write(&batch).unwrap();

    assert_eq!(storage.get_cf(CF_DEFAULT, b"del").unwrap(), None);
    assert_eq!(
        storage.get_cf(CF_DEFAULT, b"new").unwrap(),
        Some(b"newval".to_vec())
    );
}

#[test]
fn all_column_families_accessible() {
    let mut storage = temp_storage();
    for cf_name in Cf::all() {
        storage
            .put_cf(cf_name, b"test_key", b"test_val")
            .unwrap();
        let val = storage.get_cf(cf_name, b"test_key").unwrap();
        assert_eq!(val, Some(b"test_val".to_vec()));
    }
}

#[test]
fn put_and_get_sysvar() {
    let mut storage = temp_storage();
    let clock = Clock {
        slot: 42,
        epoch: 1,
        unix_timestamp: 1234567890,
        leader_schedule_epoch: 2,
        epoch_start_timestamp: 1234500000,
    };

    storage.put_sysvar(&clock, seed_hash).unwrap();
    let loaded: Clock = storage.get_sysvar::<Clock, _>(seed_hash).unwrap().unwrap();
    assert_eq!(loaded.slot, 42);
    assert_eq!(loaded.epoch, 1);
    assert_eq!(loaded.unix_timestamp, 1234567890);
}

#[test]
fn get_missing_sysvar() {
    let mut storage = temp_storage();
    let result = storage.get_sysvar::<Clock, _>(seed_hash).unwrap();
    assert!(result.is_none());
}

#[test]
fn update_sysvar() {
    let mut storage = temp_storage();
    let clock1 = Clock {
        slot: 1,
        epoch: 0,
        unix_timestamp: 1000,
        leader_schedule_epoch: 1,
        epoch_start_timestamp: 900,
    };
    storage.put_sysvar(&clock1, seed_hash).unwrap();

    let clock2 = Clock {
        slot: 100,
        epoch: 1,
        unix_timestamp: 2000,
        leader_schedule_epoch: 2,
        epoch_start_timestamp: 1900,
    };
    storage.put_sysvar(&clock2, seed_hash).unwrap();

    let loaded: Clock = storage.get_sysvar::<Clock, _>(seed_hash).unwrap().unwrap();
    assert_eq!(loaded.slot, 100);
}

fn test_slot_meta(slot: u64) -> SlotMeta {
    SlotMeta {
        slot,
        parent_slot: slot.saturating_sub(1),
        block_time: Some(1000 + slot as i64),
        num_data_shreds: 1,
        num_code_shreds: 0,
        is_connected: true,
        completed: true,
    }
}

fn test_data_shred(slot: u64, index: u32) -> DataShred {
    DataShred {
        slot,
        index,
        parent_offset: 1,
        data: vec![0u8; 16],
        flags: 0,
    }
}

#[test]
fn purge_zero_is_noop() {
    let mut storage = temp_storage();
    let result = storage.purge_slots_below(0).unwrap();
    assert_eq!(result, 0);
}

#[test]
fn purge_removes_old_slot_meta() {
    let mut storage = temp_storage();

    // Insert slot metas at slots 1..=10
    for slot in 1..=10 {
        storage.put_slot_meta(&test_slot_meta(slot)).unwrap();
    }

    // Purge slots below 6
    storage.purge_slots_below(6).unwrap();

    // Slots 1-5 should be gone
    for slot in 1..=5 {
        assert!(
            storage.get_slot_meta(slot).unwrap().is_none(),
            "slot {slot} should have been purged"
        );
    }

    // Slots 6-10 should remain
    for slot in 6..=10 {
        assert!(
            storage.get_slot_meta(slot).unwrap().is_some(),
            "slot {slot} should still exist"
        );
    }
}

#[test]
fn purge_removes_old_block_headers() {
    let mut storage = temp_storage();

    for slot in 1..=10 {
        let header = BlockHeader {
            slot,
            parent_slot: slot.saturating_sub(1),
            parent_hash: hash(b"parent"),
            block_hash: hash(format!("block_{slot}").as_bytes()),
            timestamp: 1000 + slot as i64,
            validator: hash(b"validator"),
            transaction_count: 0,
            merkle_root: hash(b"merkle"),
            poh_hash: Digest::zero(),
            bank_hash: Digest::zero(),
            state_root: Digest::zero(),
        };
        storage.put_block_header(&header).unwrap();
    }

    storage.purge_slots_below(5).unwrap();

    for slot in 1..=4 {
        assert!(storage.get_block_header(slot).unwrap().is_none());
    }
    for slot in 5..=10 {
        assert!(storage.get_block_header(slot).unwrap().is_some());
    }
}

#[test]
fn purge_removes_old_shreds() {
    let mut storage = temp_storage();

    for slot in 1..=10 {
        storage.put_data_shred(&test_data_shred(slot, 0)).unwrap();
    }

    storage.purge_slots_below(5).unwrap();

    for slot in 1..=4 {
        assert!(storage.get_data_shred(slot, 0).unwrap().is_none());
    }
    for slot in 5..=10 {
        assert!(storage.get_data_shred(slot, 0).unwrap().is_some());
    }
}

#[test]
fn purge_preserves_accounts() {
    let mut storage = temp_storage();

    let addr = hash(b"alice");
    let account = Account::new(1000, hash(b"system"));

    // Store account at slot 2
    storage.put_account(&addr, 2, &account).unwrap();

    // Purge slots below 5
    storage.purge_slots_below(5).unwrap();

    // Account should still be accessible
    let loaded = storage.get_account(&addr).unwrap();
    assert!(loaded.is_some(), "accounts must survive pruning");
    assert_eq!(loaded.unwrap().lamports, 1000);
}

#[test]
fn purge_transaction_data_below_correct_boundaries() {
    // Write 5 tx statuses across slots 1..=5; call purge below 3;
    // verify slots 1,2 deleted and slots 3,4,5 retained.
    let mut storage = temp_storage();

    let tx_hashes: Vec<_> = (1u64..=5).map(|i| hash(format!("tx_{i}").as_bytes())).collect();
    for (i, tx_hash) in tx_hashes.iter().enumerate() {
        let slot = (i as u64) + 1;
        let meta = TransactionStatusMeta {
            slot,
            status: TransactionStatus::Success,
            fee: 5000,
            pre_balances: vec![1000],
            post_balances: vec![995],
            compute_units_consumed: 200,
        };
        storage.put_transaction_status(tx_hash, &meta).unwrap();
    }

    let deleted = storage.purge_transaction_data_below(3).unwrap();
    assert_eq!(deleted, 2, "should have deleted tx at slots 1 and 2");

    // Slots 1,2 must be gone
    assert!(storage.get_transaction_status(&tx_hashes[0]).unwrap().is_none(), "slot 1 tx should be purged");
    assert!(storage.get_transaction_status(&tx_hashes[1]).unwrap().is_none(), "slot 2 tx should be purged");

    // Slots 3,4,5 must remain
    assert!(storage.get_transaction_status(&tx_hashes[2]).unwrap().is_some(), "slot 3 tx must survive");
    assert!(storage.get_transaction_status(&tx_hashes[3]).unwrap().is_some(), "slot 4 tx must survive");
    assert!(storage.get_transaction_status(&tx_hashes[4]).unwrap().is_some(), "slot 5 tx must survive");
}

#[test]
fn purge_transaction_data_below_zero_is_noop() {
    let mut storage = temp_storage();
    let tx = hash(b"some_tx");
    let meta = TransactionStatusMeta {
        slot: 1,
        status: TransactionStatus::Success,
        fee: 0,
        pre_balances: vec![],
        post_balances: vec![],
        compute_units_consumed: 0,
    };
    storage.put_transaction_status(&tx, &meta).unwrap();
    let deleted = storage.purge_transaction_data_below(0).unwrap();
    assert_eq!(deleted, 0);
    assert!(storage.get_transaction_status(&tx).unwrap().is_some());
}

#[test]
fn purge_preserves_roots() {
    let mut storage = temp_storage();
    for slot in 1..=10 {
        storage.set_root(slot).unwrap();
    }
    storage.purge_slots_below(6).unwrap();
    // ALL roots must survive pruning
    for slot in 1..=10 {
        assert!(
            storage.is_root(slot).unwrap(),
            "root {slot} must survive pruning"
        );
    }
}

#[test]
fn slot_key_ordering() {
    let k1 = slot_key(0);
    let k2 = slot_key(1);
    let k3 = slot_key(u64::MAX);
    assert!(k1 < k2);
    assert!(k2 < k3);
}

#[test]
fn account_key_layout() {
    let addr = hash(b"test");
    let key = account_key(&addr, 42);
    assert_eq!(key.len(), 72);
    assert_eq!(&key[..64], addr.as_bytes());
    assert_eq!(&key[64..], &42u64.to_be_bytes());
}

#[test]
fn address_sig_key_layout() {
    let addr = hash(b"addr");
    let key = address_sig_key(&addr, 100, 5);
    assert_eq!(key.len(), 76);
    assert_eq!(&key[..64], addr.as_bytes());
    assert_eq!(&key[64..72], &100u64.to_be_bytes());
    assert_eq!(&key[72..76], &5u32.to_be_bytes());
}

#[test]
fn shred_key_layout() {
    let key = shred_key(10, 3);
    assert_eq!(key.len(), 12);
    assert_eq!(&key[..8], &10u64.to_be_bytes());
    assert_eq!(&key[8..], &3u32.to_be_bytes());
}

#[test]
fn account_key_lexicographic_ordering_by_slot() {
    let addr = hash(b"same");
    let k1 = account_key(&addr, 1);
    let k2 = account_key(&addr, 2);
    let k3 = account_key(&addr, 100);
    assert!(k1 < k2);
    assert!(k2 < k3);
}

#[test]
fn owner_index_key_layout() {
    let owner = hash(b"owner");
    let addr = hash(b"account");
    let key = owner_index_key(&owner, &addr);
    assert_eq!(key.len(), 128);
    assert_eq!(&key[..64], owner.as_bytes());
    assert_eq!(&key[64..], addr.as_bytes());
}
