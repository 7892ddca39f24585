use nusantara::codec::{from_slice, to_vec};
use nusantara::digest::Digest;
use nusantara::ledger::{Block, BlockHeader, CompiledInstruction, Message, Transaction};
use nusantara::storage::memory::MemoryDatabase;
use nusantara::storage::shred::{CodeShred, DataShred};
use nusantara::storage::slashing::SlashProof;
use nusantara::storage::slot_meta::SlotMeta;
use nusantara::storage::snapshot::SnapshotManifest;
use nusantara::storage::store::Storage;
use nusantara::storage::transaction::{TransactionStatus, TransactionStatusMeta};

/// A digest that tells labels apart.
fn hash(label: &[u8]) -> Digest {
    let mut bytes = [0u8; 64];
    for (i, b) in bytes.iter_mut().enumerate() {
        let mut acc = 131u32.wrapping_add(i as u32 * 2_654_435_761);
        for (j, &x) in label.iter().enumerate() {
            acc = acc.rotate_left(5).wrapping_mul(16_777_619) ^ (x as u32 + j as u32);
        }
        *b = (acc ^ (acc >> 8) ^ (acc >> 16) ^ (acc >> 24)) as u8;
    }
    Digest::new(bytes)
}

fn tx_hash(tx: &Transaction) -> Digest {
    hash(&to_vec(tx).unwrap())
}

fn temp_storage() -> Storage<MemoryDatabase> {
    Storage::new(MemoryDatabase::new())
}

fn test_block(slot: u64) -> Block {
    Block {
        header: BlockHeader {
            slot,
            parent_slot: slot.saturating_sub(1),
            parent_hash: hash(b"parent"),
            block_hash: hash(format!("block_{slot}").as_bytes()),
            timestamp: 1000 + slot as i64,
            validator: hash(b"validator"),
            transaction_count: 0,
            merkle_root: hash(b"merkle"),
            poh_hash: Digest::zero(),
            bank_hash: Digest::zero(),
            state_root: Digest::zero(),
        },
        transactions: Vec::new(),
        batches: Vec::new(),
    }
}

fn test_slot_meta(slot: u64) -> SlotMeta {
    SlotMeta {
        slot,
        parent_slot: slot.saturating_sub(1),
        block_time: Some(1000 + slot as i64),
        num_data_shreds: 1,
        num_code_shreds: 0,
        is_connected: true,
        completed: true,
    }
}

#[test]
fn finalize_slot_atomic() {
    let mut storage = temp_storage();
    let slot = 42u64;
    let block = test_block(slot);
    let bank_hash = hash(b"bank_42");
    let slot_meta = test_slot_meta(slot);

    storage.finalize_slot(&block, &bank_hash, &slot_meta).unwrap();

    // All CFs must be populated after a single finalize_slot call
    assert!(storage.is_root(slot).unwrap(), "slot must be marked as root");
    assert_eq!(storage.get_bank_hash(slot).unwrap(), Some(bank_hash));
    assert_eq!(
        storage.get_slot_hash(slot).unwrap(),
        Some(block.header.block_hash)
    );
    let loaded_meta = storage.get_slot_meta(slot).unwrap().unwrap();
    assert_eq!(loaded_meta.slot, slot);
    // Block header should be queryable
    let loaded_header = storage.get_block_header(slot).unwrap().unwrap();
    assert_eq!(loaded_header.slot, slot);
    // Full block should be queryable
    let loaded_block = storage.get_block(slot).unwrap().unwrap();
    assert_eq!(loaded_block.header.slot, slot);
}

#[test]
fn roots() {
    let mut storage = temp_storage();
    assert!(!storage.is_root(1).unwrap());
    assert_eq!(storage.get_latest_root().unwrap(), None);

    storage.set_root(5).unwrap();
    storage.set_root(10).unwrap();
    storage.set_root(3).unwrap();

    assert!(storage.is_root(5).unwrap());
    assert!(storage.is_root(10).unwrap());
    assert!(storage.is_root(3).unwrap());
    assert!(!storage.is_root(7).unwrap());

    assert_eq!(storage.get_latest_root().unwrap(), Some(10));
}

#[test]
fn bank_hashes() {
    let mut storage = temp_storage();
    let h = hash(b"bank_42");

    assert_eq!(storage.get_bank_hash(42).unwrap(), None);

    storage.put_bank_hash(42, &h).unwrap();
    let loaded = storage.get_bank_hash(42).unwrap().unwrap();
    assert_eq!(loaded, h);
}

#[test]
fn slot_hashes() {
    let mut storage = temp_storage();
    let h = hash(b"slot_1");

    assert_eq!(storage.get_slot_hash(1).unwrap(), None);

    storage.put_slot_hash(1, &h).unwrap();
    let loaded = storage.get_slot_hash(1).unwrap().unwrap();
    assert_eq!(loaded, h);
}

#[test]
fn recent_slot_hashes_below() {
    let mut storage = temp_storage();

    // Store hashes for slots 1..=10
    let hashes: Vec<Digest> = (1..=10).map(|i| hash(format!("slot_{i}").as_bytes())).collect();
    for (i, h) in hashes.iter().enumerate() {
        storage.put_slot_hash((i + 1) as u64, h).unwrap();
    }

    // Get 5 entries at or below slot 8
    let result = storage.get_recent_slot_hashes_below(8, 5).unwrap();
    assert_eq!(result.len(), 5);
    assert_eq!(result[0].0, 8);
    assert_eq!(result[1].0, 7);
    assert_eq!(result[4].0, 4);
    assert_eq!(result[0].1, hashes[7]);

    // Get all entries at or below slot 3
    let result = storage.get_recent_slot_hashes_below(3, 100).unwrap();
    assert_eq!(result.len(), 3);
    assert_eq!(result[0].0, 3);
    assert_eq!(result[2].0, 1);

    // Empty result for slot 0
    let result = storage.get_recent_slot_hashes_below(0, 10).unwrap();
    assert!(result.is_empty());
}

fn test_header(slot: u64) -> BlockHeader {
    BlockHeader {
        slot,
        parent_slot: slot.saturating_sub(1),
        parent_hash: hash(b"parent"),
        block_hash: hash(format!("block_{slot}").as_bytes()),
        timestamp: 1000 + slot as i64,
        validator: hash(b"validator"),
        transaction_count: 5,
        merkle_root: hash(b"merkle"),
        poh_hash: Digest::zero(),
        bank_hash: Digest::zero(),
        state_root: Digest::zero(),
    }
}

#[test]
fn put_and_get_block_header() {
    let mut storage = temp_storage();
    let header = test_header(42);

    storage.put_block_header(&header).unwrap();
    let loaded = storage.get_block_header(42).unwrap().unwrap();
    assert_eq!(loaded, header);
}

#[test]
fn get_missing_block_header() {
    let mut storage = temp_storage();
    assert_eq!(storage.get_block_header(999).unwrap(), None);
}

#[test]
fn get_latest_slot() {
    let mut storage = temp_storage();
    assert_eq!(storage.get_latest_slot().unwrap(), None);

    storage.put_block_header(&test_header(10)).unwrap();
    storage.put_block_header(&test_header(20)).unwrap();
    storage.put_block_header(&test_header(5)).unwrap();

    assert_eq!(storage.get_latest_slot().unwrap(), Some(20));
}

#[test]
fn block_headers_range() {
    let mut storage = temp_storage();
    for slot in [1, 3, 5, 7, 9] {
        storage.put_block_header(&test_header(slot)).unwrap();
    }

    let headers = storage.get_block_headers_range(3, 7).unwrap();
    assert_eq!(headers.len(), 3);
    assert_eq!(headers[0].slot, 3);
    assert_eq!(headers[1].slot, 5);
    assert_eq!(headers[2].slot, 7);
}

#[test]
fn put_block() {
    let mut storage = temp_storage();
    let block = Block {
        header: test_header(1),
        transactions: Vec::new(),
        batches: Vec::new(),
    };
    storage.put_block(&block).unwrap();
    let loaded = storage.get_block_header(1).unwrap().unwrap();
    assert_eq!(loaded, block.header);
}

#[test]
fn has_block_header() {
    let mut storage = temp_storage();
    assert!(!storage.has_block_header(42).unwrap());
    storage.put_block_header(&test_header(42)).unwrap();
    assert!(storage.has_block_header(42).unwrap());
}

#[test]
fn delete_block() {
    let mut storage = temp_storage();
    let block = Block {
        header: test_header(10),
        transactions: Vec::new(),
        batches: Vec::new(),
    };
    storage.put_block(&block).unwrap();
    assert!(storage.has_block_header(10).unwrap());
    assert!(storage.get_block(10).unwrap().is_some());

    storage.delete_block(10, tx_hash).unwrap();
    assert!(!storage.has_block_header(10).unwrap());
    assert!(storage.get_block(10).unwrap().is_none());
}

#[test]
fn delete_nonexistent_block_is_noop() {
    let mut storage = temp_storage();
    // Should not error when deleting a block that doesn't exist
    storage.delete_block(999, tx_hash).unwrap();
}

#[test]
fn delete_block_cleans_secondary_indexes() {
    // Verify that delete_block removes CF_TRANSACTIONS, CF_ADDRESS_SIGNATURES,
    // and CF_SLOT_META orphaned entries in addition to CF_BLOCKS / CF_DEFAULT.
    let mut storage = temp_storage();
    let slot = 7u64;

    // Build 3 minimal transactions with distinct accounts
    let addr0 = hash(b"payer_0");
    let addr1 = hash(b"payer_1");
    let addr2 = hash(b"payer_2");
    let program = hash(b"system");

    let make_tx = |payer: Digest| -> Transaction {
        let message = Message {
            num_required_signatures: 1,
            num_readonly_signed: 0,
            num_readonly_unsigned: 1,
            account_keys: vec![payer, hash(b"target"), program],
            recent_blockhash: Digest::zero(),
            instructions: vec![CompiledInstruction {
                program_id_index: 2,
                accounts: vec![1],
                data: vec![],
            }],
        };
        Transaction { signatures: vec![], signer_pubkeys: vec![], message }
    };

    let tx0 = make_tx(addr0);
    let tx1 = make_tx(addr1);
    let tx2 = make_tx(addr2);

    // Store the block
    let block = Block {
        header: test_header(slot),
        transactions: vec![tx0.clone(), tx1.clone(), tx2.clone()],
        batches: Vec::new(),
    };
    storage.put_block(&block).unwrap();

    // Store slot meta
    let slot_meta = SlotMeta {
        slot,
        parent_slot: slot - 1,
        block_time: Some(9999),
        num_data_shreds: 1,
        num_code_shreds: 0,
        is_connected: true,
        completed: true,
    };
    storage.put_slot_meta(&slot_meta).unwrap();

    // Store transaction statuses and address-signature index entries
    let make_meta = |s: u64| TransactionStatusMeta {
        slot: s,
        status: TransactionStatus::Success,
        fee: 5000,
        pre_balances: vec![],
        post_balances: vec![],
        compute_units_consumed: 100,
    };
    storage.put_transaction_status(&tx_hash(&tx0), &make_meta(slot)).unwrap();
    storage.put_transaction_status(&tx_hash(&tx1), &make_meta(slot)).unwrap();
    storage.put_transaction_status(&tx_hash(&tx2), &make_meta(slot)).unwrap();

    // Index address→tx for each transaction's first account
    storage.put_address_signature(&addr0, slot, 0, &tx_hash(&tx0)).unwrap();
    storage.put_address_signature(&addr1, slot, 1, &tx_hash(&tx1)).unwrap();
    storage.put_address_signature(&addr2, slot, 2, &tx_hash(&tx2)).unwrap();

    // Sanity: everything exists before deletion
    assert!(storage.get_block(slot).unwrap().is_some());
    assert!(storage.get_slot_meta(slot).unwrap().is_some());
    assert!(storage.get_transaction_status(&tx_hash(&tx0)).unwrap().is_some());

    // Delete the block
    storage.delete_block(slot, tx_hash).unwrap();

    // Block and slot meta must be gone
    assert!(!storage.has_block_header(slot).unwrap(), "header must be deleted");
    assert!(storage.get_block(slot).unwrap().is_none(), "full block must be deleted");
    assert!(storage.get_slot_meta(slot).unwrap().is_none(), "slot_meta must be deleted");

    // Transaction statuses must be gone
    assert!(storage.get_transaction_status(&tx_hash(&tx0)).unwrap().is_none(), "tx0 status must be deleted");
    assert!(storage.get_transaction_status(&tx_hash(&tx1)).unwrap().is_none(), "tx1 status must be deleted");
    assert!(storage.get_transaction_status(&tx_hash(&tx2)).unwrap().is_none(), "tx2 status must be deleted");

    // Address-signature entries must be gone
    let sigs0 = storage.get_signatures_for_address(&addr0, 10).unwrap();
    assert!(sigs0.is_empty(), "addr0 address_sig entries must be deleted");
    let sigs1 = storage.get_signatures_for_address(&addr1, 10).unwrap();
    assert!(sigs1.is_empty(), "addr1 address_sig entries must be deleted");
}

#[test]
fn block_headers_range_query() {
    let mut storage = temp_storage();

    // Store blocks at non-contiguous slots
    for slot in [1, 5, 10, 15, 20, 25] {
        storage.put_block_header(&test_header(slot)).unwrap();
    }

    let range = storage.get_block_headers_range(5, 20).unwrap();
    assert_eq!(range.len(), 4); // slots 5, 10, 15, 20
    assert_eq!(range[0].slot, 5);
    assert_eq!(range[3].slot, 20);

    // Empty range
    let empty = storage.get_block_headers_range(2, 4).unwrap();
    assert!(empty.is_empty());
}

#[test]
fn latest_slot_tracks_highest() {
    let mut storage = temp_storage();
    assert!(storage.get_latest_slot().unwrap().is_none());

    storage.put_block_header(&test_header(100)).unwrap();
    assert_eq!(storage.get_latest_slot().unwrap(), Some(100));

    storage.put_block_header(&test_header(50)).unwrap();
    assert_eq!(storage.get_latest_slot().unwrap(), Some(100));

    storage.put_block_header(&test_header(200)).unwrap();
    assert_eq!(storage.get_latest_slot().unwrap(), Some(200));
}

#[test]
fn block_with_header_roundtrip() {
    let mut storage = temp_storage();
    let block = Block {
        header: test_header(42),
        transactions: Vec::new(),
        batches: Vec::new(),
    };
    storage.put_block(&block).unwrap();
    let loaded = storage.get_block_header(42).unwrap().unwrap();
    assert_eq!(loaded, block.header);
}

#[test]
fn transaction_status_success_and_failure() {
    let mut storage = temp_storage();

    let tx_ok = hash(b"tx_ok");
    let meta_ok = TransactionStatusMeta {
        slot: 1,
        status: TransactionStatus::Success,
        fee: 5000,
        pre_balances: vec![1_000_000, 500_000],
        post_balances: vec![994_000, 501_000],
        compute_units_consumed: 200,
    };
    storage.put_transaction_status(&tx_ok, &meta_ok).unwrap();

    let tx_fail = hash(b"tx_fail");
    let meta_fail = TransactionStatusMeta {
        slot: 1,
        status: TransactionStatus::Failed("insufficient funds".into()),
        fee: 5000,
        pre_balances: vec![100],
        post_balances: vec![100],
        compute_units_consumed: 50,
    };
    storage.put_transaction_status(&tx_fail, &meta_fail).unwrap();

    let loaded_ok = storage.get_transaction_status(&tx_ok).unwrap().unwrap();
    assert_eq!(loaded_ok.status, TransactionStatus::Success);

    let loaded_fail = storage.get_transaction_status(&tx_fail).unwrap().unwrap();
    assert!(matches!(loaded_fail.status, TransactionStatus::Failed(ref msg) if msg == "insufficient funds"));
}

#[test]
fn address_signatures_multi_slot() {
    let mut storage = temp_storage();
    let addr = hash(b"alice");

    // Store 50 transactions across 10 slots
    for slot in 1..=10u64 {
        for tx_idx in 0..5u32 {
            let tx = hash(format!("tx_s{slot}_i{tx_idx}").as_bytes());
            storage
                .put_address_signature(&addr, slot, tx_idx, &tx)
                .unwrap();
        }
    }

    let all = storage.get_signatures_for_address(&addr, 100).unwrap();
    assert_eq!(all.len(), 50);

    // First result should be highest slot, highest tx_index
    assert_eq!(all[0].0, 10); // slot
    assert_eq!(all[0].1, 4); // tx_index

    // Limit works
    let limited = storage.get_signatures_for_address(&addr, 7).unwrap();
    assert_eq!(limited.len(), 7);
}

#[test]
fn address_signatures_isolation_between_addresses() {
    let mut storage = temp_storage();
    let addr_a = hash(b"addr_a");
    let addr_b = hash(b"addr_b");

    for i in 0..5u32 {
        let tx_a = hash(format!("tx_a_{i}").as_bytes());
        let tx_b = hash(format!("tx_b_{i}").as_bytes());
        storage.put_address_signature(&addr_a, 1, i, &tx_a).unwrap();
        storage.put_address_signature(&addr_b, 1, i, &tx_b).unwrap();
    }

    let sigs_a = storage.get_signatures_for_address(&addr_a, 100).unwrap();
    let sigs_b = storage.get_signatures_for_address(&addr_b, 100).unwrap();
    assert_eq!(sigs_a.len(), 5);
    assert_eq!(sigs_b.len(), 5);

    // Verify no cross-contamination
    for (_, _, tx_hash) in &sigs_a {
        assert!(sigs_b.iter().all(|(_, _, h)| h != tx_hash));
    }
}

#[test]
fn data_shreds_for_multiple_slots() {
    let mut storage = temp_storage();

    // Store shreds across 3 slots
    for slot in [1, 2, 3] {
        for idx in 0..10u32 {
            let shred = DataShred {
                slot,
                index: idx,
                parent_offset: 1,
                data: vec![idx as u8; 128],
                flags: 0,
            };
            storage.put_data_shred(&shred).unwrap();
        }
    }

    for slot in [1, 2, 3] {
        let shreds = storage.get_data_shreds_for_slot(slot).unwrap();
        assert_eq!(shreds.len(), 10);
        for (i, s) in shreds.iter().enumerate() {
            assert_eq!(s.index, i as u32);
            assert_eq!(s.slot, slot);
        }
    }

    // Non-existent slot
    assert!(storage.get_data_shreds_for_slot(99).unwrap().is_empty());
}

#[test]
fn code_shreds_roundtrip() {
    let mut storage = temp_storage();

    for idx in 0..5u32 {
        let shred = CodeShred {
            slot: 42,
            index: idx,
            num_data_shreds: 10,
            num_code_shreds: 5,
            position: idx,
            data: vec![0xAB; 64],
        };
        storage.put_code_shred(&shred).unwrap();
    }

    let shreds = storage.get_code_shreds_for_slot(42).unwrap();
    assert_eq!(shreds.len(), 5);
    for (i, s) in shreds.iter().enumerate() {
        assert_eq!(s.position, i as u32);
    }
}

#[test]
fn slot_meta_roundtrip() {
    let mut storage = temp_storage();

    let meta = SlotMeta {
        slot: 100,
        parent_slot: 99,
        block_time: Some(1234567890),
        num_data_shreds: 32,
        num_code_shreds: 16,
        is_connected: true,
        completed: true,
    };
    storage.put_slot_meta(&meta).unwrap();

    let loaded = storage.get_slot_meta(100).unwrap().unwrap();
    assert_eq!(loaded, meta);
}

#[test]
fn slot_meta_incomplete() {
    let mut storage = temp_storage();

    let meta = SlotMeta {
        slot: 1,
        parent_slot: 0,
        block_time: None,
        num_data_shreds: 5,
        num_code_shreds: 0,
        is_connected: false,
        completed: false,
    };
    storage.put_slot_meta(&meta).unwrap();

    let loaded = storage.get_slot_meta(1).unwrap().unwrap();
    assert!(!loaded.is_connected);
    assert!(!loaded.completed);
    assert!(loaded.block_time.is_none());
}

#[test]
fn snapshot_latest_tracking() {
    let mut storage = temp_storage();
    assert!(storage.get_latest_snapshot().unwrap().is_none());

    for slot in [100, 200, 150, 300, 250] {
        let manifest = SnapshotManifest {
            slot,
            bank_hash: hash(format!("bank_{slot}").as_bytes()),
            account_count: slot + 1000,
            timestamp: slot as i64,
        };
        storage.put_snapshot(&manifest).unwrap();
    }

    let latest = storage.get_latest_snapshot().unwrap().unwrap();
    assert_eq!(latest.slot, 300);
}

fn test_data_shred(slot: u64, index: u32) -> DataShred {
    DataShred {
        slot,
        index,
        parent_offset: 1,
        data: vec![index as u8; 64],
        flags: 0,
    }
}

fn test_code_shred(slot: u64, index: u32) -> CodeShred {
    CodeShred {
        slot,
        index,
        num_data_shreds: 10,
        num_code_shreds: 5,
        position: index,
        data: vec![0xAB; 32],
    }
}

#[test]
fn put_and_get_data_shred() {
    let mut storage = temp_storage();
    let shred = test_data_shred(1, 0);

    storage.put_data_shred(&shred).unwrap();
    let loaded = storage.get_data_shred(1, 0).unwrap().unwrap();
    assert_eq!(loaded, shred);
}

#[test]
fn get_missing_data_shred() {
    let mut storage = temp_storage();
    assert_eq!(storage.get_data_shred(999, 0).unwrap(), None);
}

#[test]
fn put_and_get_code_shred() {
    let mut storage = temp_storage();
    let shred = test_code_shred(1, 0);

    storage.put_code_shred(&shred).unwrap();
    let loaded = storage.get_code_shred(1, 0).unwrap().unwrap();
    assert_eq!(loaded, shred);
}

#[test]
fn data_shreds_for_slot() {
    let mut storage = temp_storage();
    // Insert shreds for slot 1 and slot 2
    for i in 0..5 {
        storage.put_data_shred(&test_data_shred(1, i)).unwrap();
    }
    for i in 0..3 {
        storage.put_data_shred(&test_data_shred(2, i)).unwrap();
    }

    let slot1_shreds = storage.get_data_shreds_for_slot(1).unwrap();
    assert_eq!(slot1_shreds.len(), 5);
    for (i, shred) in slot1_shreds.iter().enumerate() {
        assert_eq!(shred.index, i as u32);
        assert_eq!(shred.slot, 1);
    }

    let slot2_shreds = storage.get_data_shreds_for_slot(2).unwrap();
    assert_eq!(slot2_shreds.len(), 3);
}

#[test]
fn code_shreds_for_slot() {
    let mut storage = temp_storage();
    for i in 0..3 {
        storage.put_code_shred(&test_code_shred(5, i)).unwrap();
    }

    let shreds = storage.get_code_shreds_for_slot(5).unwrap();
    assert_eq!(shreds.len(), 3);
}

#[test]
fn empty_slot_returns_empty() {
    let mut storage = temp_storage();
    assert!(storage.get_data_shreds_for_slot(1).unwrap().is_empty());
    assert!(storage.get_code_shreds_for_slot(1).unwrap().is_empty());
}

#[test]
fn borsh_roundtrip_data_shred() {
    let shred = test_data_shred(10, 3);
    let encoded = to_vec(&shred).unwrap();
    let decoded: DataShred = from_slice(&encoded).unwrap();
    assert_eq!(shred, decoded);
}

#[test]
fn borsh_roundtrip_code_shred() {
    let shred = test_code_shred(10, 3);
    let encoded = to_vec(&shred).unwrap();
    let decoded: CodeShred = from_slice(&encoded).unwrap();
    assert_eq!(shred, decoded);
}

#[test]
fn put_and_get_slot_meta() {
    let mut storage = temp_storage();
    let meta = test_slot_meta(42);

    storage.put_slot_meta(&meta).unwrap();
    let loaded = storage.get_slot_meta(42).unwrap().unwrap();
    assert_eq!(loaded, meta);
}

#[test]
fn get_missing_slot_meta() {
    let mut storage = temp_storage();
    assert_eq!(storage.get_slot_meta(999).unwrap(), None);
}

#[test]
fn slot_meta_borsh_roundtrip() {
    let meta = test_slot_meta(1);
    let encoded = to_vec(&meta).unwrap();
    let decoded: SlotMeta = from_slice(&encoded).unwrap();
    assert_eq!(meta, decoded);
}

#[test]
fn slot_meta_with_no_block_time() {
    let mut storage = temp_storage();
    let meta = SlotMeta {
        slot: 1,
        parent_slot: 0,
        block_time: None,
        num_data_shreds: 0,
        num_code_shreds: 0,
        is_connected: false,
        completed: false,
    };
    storage.put_slot_meta(&meta).unwrap();
    let loaded = storage.get_slot_meta(1).unwrap().unwrap();
    assert_eq!(loaded, meta);
}

fn test_manifest(slot: u64) -> SnapshotManifest {
    SnapshotManifest {
        slot,
        bank_hash: hash(format!("bank_{slot}").as_bytes()),
        account_count: 1000 + slot,
        timestamp: 1234567890 + slot as i64,
    }
}

#[test]
fn put_and_get_snapshot() {
    let mut storage = temp_storage();
    let manifest = test_manifest(100);

    storage.put_snapshot(&manifest).unwrap();
    let loaded = storage.get_snapshot(100).unwrap().unwrap();
    assert_eq!(loaded, manifest);
}

#[test]
fn get_missing_snapshot() {
    let mut storage = temp_storage();
    assert_eq!(storage.get_snapshot(999).unwrap(), None);
}

#[test]
fn get_latest_snapshot() {
    let mut storage = temp_storage();
    assert_eq!(storage.get_latest_snapshot().unwrap(), None);

    storage.put_snapshot(&test_manifest(10)).unwrap();
    storage.put_snapshot(&test_manifest(50)).unwrap();
    storage.put_snapshot(&test_manifest(30)).unwrap();

    let latest = storage.get_latest_snapshot().unwrap().unwrap();
    assert_eq!(latest.slot, 50);
}

#[test]
fn snapshot_borsh_roundtrip() {
    let manifest = test_manifest(42);
    let encoded = to_vec(&manifest).unwrap();
    let decoded: SnapshotManifest = from_slice(&encoded).unwrap();
    assert_eq!(manifest, decoded);
}

fn test_meta(slot: u64) -> TransactionStatusMeta {
    TransactionStatusMeta {
        slot,
        status: TransactionStatus::Success,
        fee: 5000,
        pre_balances: vec![1000, 2000],
        post_balances: vec![995, 2005],
        compute_units_consumed: 200,
    }
}

#[test]
fn put_and_get_transaction_status() {
    let mut storage = temp_storage();
    let tx_hash = hash(b"tx1");
    let meta = test_meta(1);

    storage.put_transaction_status(&tx_hash, &meta).unwrap();
    let loaded = storage.get_transaction_status(&tx_hash).unwrap().unwrap();
    assert_eq!(loaded, meta);
}

#[test]
fn get_missing_transaction_status() {
    let mut storage = temp_storage();
    let tx_hash = hash(b"missing");
    assert_eq!(storage.get_transaction_status(&tx_hash).unwrap(), None);
}

#[test]
fn transaction_status_failed() {
    let mut storage = temp_storage();
    let tx_hash = hash(b"failed_tx");
    let meta = TransactionStatusMeta {
        slot: 1,
        status: TransactionStatus::Failed("insufficient funds".into()),
        fee: 5000,
        pre_balances: vec![100],
        post_balances: vec![100],
        compute_units_consumed: 50,
    };

    storage.put_transaction_status(&tx_hash, &meta).unwrap();
    let loaded = storage.get_transaction_status(&tx_hash).unwrap().unwrap();
    assert_eq!(loaded, meta);
}

#[test]
fn address_signatures() {
    let mut storage = temp_storage();
    let addr = hash(b"alice");
    let tx1 = hash(b"tx1");
    let tx2 = hash(b"tx2");
    let tx3 = hash(b"tx3");

    storage.put_address_signature(&addr, 1, 0, &tx1).unwrap();
    storage.put_address_signature(&addr, 1, 1, &tx2).unwrap();
    storage.put_address_signature(&addr, 5, 0, &tx3).unwrap();

    let sigs = storage.get_signatures_for_address(&addr, 10).unwrap();
    assert_eq!(sigs.len(), 3);
    // Most recent first (slot 5, then slot 1 tx_index 1, then slot 1 tx_index 0)
    assert_eq!(sigs[0], (5, 0, tx3));
    assert_eq!(sigs[1], (1, 1, tx2));
    assert_eq!(sigs[2], (1, 0, tx1));
}

#[test]
fn address_signatures_limit() {
    let mut storage = temp_storage();
    let addr = hash(b"bob");

    for i in 0..10u32 {
        let tx = hash(format!("tx_{i}").as_bytes());
        storage.put_address_signature(&addr, 1, i, &tx).unwrap();
    }

    let sigs = storage.get_signatures_for_address(&addr, 3).unwrap();
    assert_eq!(sigs.len(), 3);
}

#[test]
fn address_signatures_isolated() {
    let mut storage = temp_storage();
    let addr1 = hash(b"user1");
    let addr2 = hash(b"user2");
    let tx1 = hash(b"tx_a");
    let tx2 = hash(b"tx_b");

    storage.put_address_signature(&addr1, 1, 0, &tx1).unwrap();
    storage.put_address_signature(&addr2, 1, 0, &tx2).unwrap();

    let sigs1 = storage.get_signatures_for_address(&addr1, 10).unwrap();
    assert_eq!(sigs1.len(), 1);
    assert_eq!(sigs1[0].2, tx1);

    let sigs2 = storage.get_signatures_for_address(&addr2, 10).unwrap();
    assert_eq!(sigs2.len(), 1);
    assert_eq!(sigs2[0].2, tx2);
}

#[test]
fn borsh_roundtrip_status_meta() {
    let meta = test_meta(42);
    let encoded = to_vec(&meta).unwrap();
    let decoded: TransactionStatusMeta = from_slice(&encoded).unwrap();
    assert_eq!(meta, decoded);
}

#[test]
fn put_and_get_slash_proof() {
    let mut storage = temp_storage();
    let validator = hash(b"bad_validator");
    let proof = SlashProof {
        validator,
        slot: 42,
        vote1_hash: hash(b"block_a"),
        vote2_hash: hash(b"block_b"),
        reporter: hash(b"reporter"),
        timestamp: 1_700_000_000,
    };

    storage.put_slash_proof(&proof).unwrap();

    let retrieved = storage.get_slash_proof(&validator, 42).unwrap();
    assert_eq!(retrieved, Some(proof.clone()));

    let all = storage.get_slash_proofs(&validator).unwrap();
    assert_eq!(all.len(), 1);
    assert_eq!(all[0], proof);
}

#[test]
fn multiple_proofs_same_validator() {
    let mut storage = temp_storage();
    let validator = hash(b"repeat_offender");

    for slot in [10, 20, 30] {
        let proof = SlashProof {
            validator,
            slot,
            vote1_hash: hash(format!("block_a_{slot}").as_bytes()),
            vote2_hash: hash(format!("block_b_{slot}").as_bytes()),
            reporter: hash(b"reporter"),
            timestamp: 1_700_000_000 + slot as i64,
        };
        storage.put_slash_proof(&proof).unwrap();
    }

    let proofs = storage.get_slash_proofs(&validator).unwrap();
    assert_eq!(proofs.len(), 3);
    // Ordered by slot (BE encoding preserves order)
    assert_eq!(proofs[0].slot, 10);
    assert_eq!(proofs[1].slot, 20);
    assert_eq!(proofs[2].slot, 30);
}

#[test]
fn get_proof_missing_returns_none() {
    let mut storage = temp_storage();
    let validator = hash(b"honest_validator");
    let result = storage.get_slash_proof(&validator, 99).unwrap();
    assert_eq!(result, None);
}

#[test]
fn proofs_isolated_per_validator() {
    let mut storage = temp_storage();
    let val_a = hash(b"validator_a");
    let val_b = hash(b"validator_b");

    storage
        .put_slash_proof(&SlashProof {
            validator: val_a,
            slot: 1,
            vote1_hash: hash(b"a1"),
            vote2_hash: hash(b"a2"),
            reporter: hash(b"r"),
            timestamp: 100,
        })
        .unwrap();

    storage
        .put_slash_proof(&SlashProof {
            validator: val_b,
            slot: 2,
            vote1_hash: hash(b"b1"),
            vote2_hash: hash(b"b2"),
            reporter: hash(b"r"),
            timestamp: 200,
        })
        .unwrap();

    let proofs_a = storage.get_slash_proofs(&val_a).unwrap();
    assert_eq!(proofs_a.len(), 1);
    assert_eq!(proofs_a[0].validator, val_a);

    let proofs_b = storage.get_slash_proofs(&val_b).unwrap();
    assert_eq!(proofs_b.len(), 1);
    assert_eq!(proofs_b[0].validator, val_b);
}

#[test]
fn slashing_borsh_roundtrip() {
    let proof = SlashProof {
        validator: hash(b"val"),
        slot: 999,
        vote1_hash: hash(b"h1"),
        vote2_hash: hash(b"h2"),
        reporter: hash(b"rep"),
        timestamp: 1_234_567_890,
    };
    let bytes = to_vec(&proof).unwrap();
    let decoded = from_slice::<SlashProof>(&bytes).unwrap();
    assert_eq!(proof, decoded);
}
